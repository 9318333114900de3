//! Little-endian encoding of unsigned integers, as used by the `.wtns` format.
use vstd::prelude::*;
use byteorder::{ByteOrder, LittleEndian};

verus! {

/// The little-endian `u32` stored at `p`.
pub open spec fn u32_at(s: Seq<u8>, p: int) -> nat {
    le_value(s.subrange(p, p + 4))
}

/// The little-endian `u64` stored at `p`.
pub open spec fn u64_at(s: Seq<u8>, p: int) -> nat {
    le_value(s.subrange(p, p + 8))
}

/// `256` raised to the power `k`: the number of values that `k` bytes can hold.
pub open spec fn pow256(k: nat) -> nat
    decreases k,
{
    if k == 0 {
        1
    } else {
        256 * pow256((k - 1) as nat)
    }
}

/// The value of a little-endian byte string.
pub open spec fn le_value(s: Seq<u8>) -> nat
    decreases s.len(),
{
    if s.len() == 0 {
        0
    } else {
        s[0] as nat + 256 * le_value(s.drop_first())
    }
}

/// The `k` low-order bytes of `v`, least significant first.
pub open spec fn le_bytes(v: nat, k: nat) -> Seq<u8>
    decreases k,
{
    if k == 0 {
        Seq::empty()
    } else {
        seq![(v % 256) as u8] + le_bytes(v / 256, (k - 1) as nat)
    }
}

/// `le_bytes(v, k)` has `k` bytes.
pub proof fn lemma_le_bytes_len(v: nat, k: nat)
    ensures
        le_bytes(v, k).len() == k,
    decreases k,
{
    if k > 0 {
        lemma_le_bytes_len(v / 256, (k - 1) as nat);
    }
}

/// Decoding the `k` low-order bytes of `v` gives `v` back when it has no more bytes.
pub proof fn lemma_le_value_of_bytes(v: nat, k: nat)
    requires
        v < pow256(k),
    ensures
        le_value(le_bytes(v, k)) == v,
    decreases k,
{
    if k > 0 {
        let q = v / 256;
        assert(q < pow256((k - 1) as nat)) by {
            vstd::arithmetic::div_mod::lemma_multiply_divide_lt(v as int, 256, pow256((k - 1) as nat) as int);
        }
        lemma_le_value_of_bytes(q, (k - 1) as nat);
        let s = le_bytes(v, k);
        assert(s.drop_first() =~= le_bytes(q, (k - 1) as nat));
        vstd::arithmetic::div_mod::lemma_fundamental_div_mod(v as int, 256);
    }
}

/// Encoding the value of a byte string in as many bytes gives the string back.
pub proof fn lemma_le_bytes_of_value(s: Seq<u8>)
    ensures
        le_bytes(le_value(s), s.len()) == s,
        le_value(s) < pow256(s.len()),
    decreases s.len(),
{
    if s.len() == 0 {
        assert(le_bytes(0, 0) =~= s);
    } else {
        let t = s.drop_first();
        lemma_le_bytes_of_value(t);
        let v = le_value(s);
        assert(v % 256 == s[0] as nat && v / 256 == le_value(t)) by {
            vstd::arithmetic::div_mod::lemma_fundamental_div_mod_converse(
                v as int, 256, le_value(t) as int, s[0] as int);
        }
        assert(le_bytes(v, s.len()) =~= s);
    }
}

/// The concrete bounds used by the format: four bytes hold a `u32`, eight a `u64`.
pub proof fn lemma_pow256_values()
    ensures
        pow256(4) == 0x1_0000_0000,
        pow256(8) == 0x1_0000_0000_0000_0000,
{
    reveal_with_fuel(pow256, 9);
}

/// A `u32` round-trips through its four little-endian bytes.
pub proof fn lemma_u32_roundtrip(n: u32)
    ensures
        le_value(le_bytes(n as nat, 4)) == n,
        le_bytes(n as nat, 4).len() == 4,
{
    lemma_pow256_values();
    lemma_le_value_of_bytes(n as nat, 4);
    lemma_le_bytes_len(n as nat, 4);
}

/// Reads a little-endian `u32` from the first four bytes of `buf`
/// (`byteorder::LittleEndian::read_u32`, which is `u32::from_le_bytes` of them).
#[verifier::external_body]
pub(crate) fn read_u32_le(buf: &[u8]) -> (r: u32)
    requires
        buf@.len() >= 4,
    ensures
        r as nat == le_value(buf@.take(4)),
{
    LittleEndian::read_u32(buf)
}

/// Reads a little-endian `u64` from the first eight bytes of `buf`
/// (`byteorder::LittleEndian::read_u64`, which is `u64::from_le_bytes` of them).
#[verifier::external_body]
pub(crate) fn read_u64_le(buf: &[u8]) -> (r: u64)
    requires
        buf@.len() >= 8,
    ensures
        r as nat == le_value(buf@.take(8)),
{
    LittleEndian::read_u64(buf)
}

/// The four little-endian bytes of `n` (`byteorder::LittleEndian::write_u32`,
/// which copies `n.to_le_bytes()` into the buffer).
#[verifier::external_body]
pub(crate) fn u32_to_le(n: u32) -> (r: [u8; 4])
    ensures
        r@ == le_bytes(n as nat, 4),
{
    let mut buf = [0u8; 4];
    LittleEndian::write_u32(&mut buf, n);
    buf
}

/// The eight little-endian bytes of `n` (`byteorder::LittleEndian::write_u64`,
/// which copies `n.to_le_bytes()` into the buffer).
#[verifier::external_body]
pub(crate) fn u64_to_le(n: u64) -> (r: [u8; 8])
    ensures
        r@ == le_bytes(n as nat, 8),
{
    let mut buf = [0u8; 8];
    LittleEndian::write_u64(&mut buf, n);
    buf
}

} // verus!
