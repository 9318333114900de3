//! Elements of the BN254 scalar field, the field of the constraint systems, held as
//! 32 big-endian bytes. Their arithmetic is that of `acvm`'s `FieldElement` (and, for
//! R1CS coefficients, of `ark_bn254::Fr`); both compute modulo the same prime.
use vstd::prelude::*;
use acvm::FieldElement;
use ark_ff::{BigInteger, PrimeField};

verus! {

/// The order of the BN254 scalar field.
pub open spec fn modulus() -> nat {
    21888242871839275222246405745257275088548364400416034343698204186575808495617nat
}

/// The value of a big-endian byte string.
pub open spec fn be_value(s: Seq<u8>) -> nat
    decreases s.len(),
{
    if s.len() == 0 {
        0
    } else {
        be_value(s.drop_last()) * 256 + s.last() as nat
    }
}

/// The value of `s` with one more byte `b` at the low end.
pub proof fn lemma_be_value_push(s: Seq<u8>, b: u8)
    ensures
        be_value(s.push(b)) == be_value(s) * 256 + b,
{
    assert(s.push(b).drop_last() =~= s);
}

/// A field element: 32 big-endian bytes, standing for their value modulo `modulus()`.
#[derive(Clone, Copy, Debug, PartialEq, Eq)]
pub struct Fe {
    be: [u8; 32],
}

impl View for Fe {
    type V = nat;

    closed spec fn view(&self) -> nat {
        be_value(self.be@) % modulus()
    }
}

/// `FieldElement::from_be_bytes_reduce` (that is `Fr::from_be_bytes_mod_order`: the
/// big-endian value of the bytes modulo the field order), kept as the 32 bytes that
/// `FieldElement::to_be_bytes` gives.
#[verifier::external_body]
fn fe_reduce(bytes: &[u8]) -> (r: Fe)
    ensures
        r@ == be_value(bytes@) % modulus(),
{
    Fe { be: FieldElement::from_be_bytes_reduce(bytes).to_be_bytes().try_into().unwrap() }
}

/// `FieldElement`'s `+`: addition modulo the field order.
#[verifier::external_body]
fn fe_add(a: &Fe, b: &Fe) -> (r: Fe)
    ensures
        r@ == (a@ + b@) % modulus(),
{
    let s = FieldElement::from_be_bytes_reduce(&a.be) + FieldElement::from_be_bytes_reduce(&b.be);
    Fe { be: s.to_be_bytes().try_into().unwrap() }
}

/// `FieldElement`'s `-`: subtraction modulo the field order.
#[verifier::external_body]
fn fe_sub(a: &Fe, b: &Fe) -> (r: Fe)
    ensures
        r@ == (a@ - b@) % (modulus() as int),
{
    let s = FieldElement::from_be_bytes_reduce(&a.be) - FieldElement::from_be_bytes_reduce(&b.be);
    Fe { be: s.to_be_bytes().try_into().unwrap() }
}

/// `FieldElement`'s `*`: multiplication modulo the field order.
#[verifier::external_body]
fn fe_mul(a: &Fe, b: &Fe) -> (r: Fe)
    ensures
        r@ == (a@ * b@) % modulus(),
{
    let s = FieldElement::from_be_bytes_reduce(&a.be) * FieldElement::from_be_bytes_reduce(&b.be);
    Fe { be: s.to_be_bytes().try_into().unwrap() }
}

/// `FieldElement`'s unary `-`: negation modulo the field order.
#[verifier::external_body]
fn fe_neg(a: &Fe) -> (r: Fe)
    ensures
        r@ == (0 - a@) % (modulus() as int),
{
    let s = -FieldElement::from_be_bytes_reduce(&a.be);
    Fe { be: s.to_be_bytes().try_into().unwrap() }
}

/// `ark_bn254::Fr`'s `+` (on `Fr::from_be_bytes_mod_order` of each operand, the sum
/// given back by `into_bigint().to_bytes_be()`): addition modulo the same field order.
#[verifier::external_body]
fn fr_add(a: &Fe, b: &Fe) -> (r: Fe)
    ensures
        r@ == (a@ + b@) % modulus(),
{
    let s = ark_bn254::Fr::from_be_bytes_mod_order(&a.be) + ark_bn254::Fr::from_be_bytes_mod_order(
        &b.be,
    );
    Fe { be: s.into_bigint().to_bytes_be().try_into().unwrap() }
}

/// An `ark_bn254::Fr` turned into a `FieldElement` through text:
/// `FieldElement::try_from_str` applied to the `Display` form of
/// `Fr::from_be_bytes_mod_order` of the element's bytes. `Fr`'s `Display` writes the
/// decimal digits of its value with leading zeros trimmed, so zero becomes the empty
/// text, which `try_from_str` refuses; any other value is written without a leading
/// zero and below the field order, and is read back as the same value.
#[verifier::external_body]
pub(crate) fn fr_to_field_element(c: &Fe) -> (r: Option<Fe>)
    ensures
        r is Some <==> c@ != 0,
        r matches Some(v) ==> v@ == c@,
{
    let text = ark_bn254::Fr::from_be_bytes_mod_order(&c.be).to_string();
    match FieldElement::try_from_str(&text) {
        Some(f) => Some(Fe { be: f.to_be_bytes().try_into().unwrap() }),
        None => None,
    }
}

/// All-zero bytes have the value zero.
proof fn lemma_be_value_zeros(s: Seq<u8>)
    requires
        forall|i: int| 0 <= i < s.len() ==> s[i] == 0,
    ensures
        be_value(s) == 0,
    decreases s.len(),
{
    if s.len() > 0 {
        lemma_be_value_zeros(s.drop_last());
    }
}

/// `ark_bn254::Fr::from_be_bytes_mod_order`: the big-endian value of the bytes modulo the
/// field order (kept as `into_bigint().to_bytes_be()`).
#[verifier::external_body]
fn fr_reduce(bytes: &[u8]) -> (r: Fe)
    ensures
        r@ == be_value(bytes@) % modulus(),
{
    Fe { be: ark_bn254::Fr::from_be_bytes_mod_order(bytes).into_bigint().to_bytes_be().try_into().unwrap() }
}

impl Fe {
    /// The value of big-endian `bytes` modulo the field order, as an `ark_bn254::Fr`.
    pub fn fr_from_be_bytes_mod_order(bytes: &[u8]) -> (r: Fe)
        ensures
            r@ == be_value(bytes@) % modulus(),
    {
        fr_reduce(bytes)
    }

    /// The value of big-endian `bytes` modulo the field order.
    pub fn from_be_bytes_reduce(bytes: &[u8]) -> (r: Fe)
        ensures
            r@ == be_value(bytes@) % modulus(),
    {
        fe_reduce(bytes)
    }

    /// The 32 big-endian bytes that hold the element.
    pub fn to_be_bytes(&self) -> (r: [u8; 32])
        ensures
            be_value(r@) % modulus() == self@,
    {
        self.be
    }

    /// The element `0`.
    pub fn zero() -> (r: Fe)
        ensures
            r@ == 0,
    {
        let r = Fe { be: [0u8; 32] };
        proof {
            lemma_be_value_zeros(r.be@);
        }
        r
    }

    /// The element `1`.
    pub fn one() -> (r: Fe)
        ensures
            r@ == 1,
    {
        let zeros = [0u8; 32];
        let mut be = zeros;
        be[31] = 1;
        let r = Fe { be };
        proof {
            let s = r.be@;
            assert(forall|i: int| 0 <= i < 32 ==> zeros@[i] == 0);
            assert(s == zeros@.update(31, 1u8));
            assert forall|i: int| 0 <= i < 31 implies s.drop_last()[i] == 0 by {
                assert(s[i] == zeros@[i]);
            }
            lemma_be_value_zeros(s.drop_last());
            assert(s.drop_last().push(1u8) =~= s);
            lemma_be_value_push(s.drop_last(), 1u8);
            assert(be_value(s) == 1);
            vstd::arithmetic::div_mod::lemma_small_mod(1, modulus());
        }
        r
    }

    /// `self + other`.
    pub fn add(&self, other: &Fe) -> (r: Fe)
        ensures
            r@ == (self@ + other@) % modulus(),
    {
        fe_add(self, other)
    }

    /// `self - other`.
    pub fn sub(&self, other: &Fe) -> (r: Fe)
        ensures
            r@ == (self@ - other@) % (modulus() as int),
    {
        fe_sub(self, other)
    }

    /// `self * other`.
    pub fn mul(&self, other: &Fe) -> (r: Fe)
        ensures
            r@ == (self@ * other@) % modulus(),
    {
        fe_mul(self, other)
    }

    /// `-self`.
    pub fn neg(&self) -> (r: Fe)
        ensures
            r@ == (0 - self@) % (modulus() as int),
    {
        fe_neg(self)
    }

    /// `self + other` computed as an `ark_bn254::Fr` sum, as R1CS coefficients are added.
    pub fn fr_add(&self, other: &Fe) -> (r: Fe)
        ensures
            r@ == (self@ + other@) % modulus(),
    {
        fr_add(self, other)
    }
}

} // verus!
