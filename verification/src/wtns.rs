//! The binary `.wtns` witness file format of the Circom tool chain
//! (magic `wtns`, a version, a section count, a header section and a witness section),
//! with a parser from bytes and a serializer to bytes. All integers are little-endian.
use vstd::prelude::*;
use crate::le_bytes::{
    le_bytes, le_value, lemma_le_bytes_len, u32_at, u64_at, lemma_le_bytes_of_value, lemma_le_value_of_bytes,
    lemma_pow256_values, lemma_u32_roundtrip, pow256, read_u32_le, read_u64_le, u32_to_le, u64_to_le,
};

verus! {

/// Why a byte string is not a `.wtns` file.
#[derive(Debug, Clone, Copy, PartialEq, Eq)]
pub enum WtnsError {
    /// The input ended before the item being read.
    UnexpectedEndOfInput,
    InvalidMagic,
    UnsupportedVersion,
    TooManySections,
    ExpectedHeaderSection,
    InvalidHeaderSize,
    WrongFieldSize,
    ExpectedWitnessSection,
    InvalidWitnessSectionSize,
}

/// The text that describes an error.
pub open spec fn error_message(e: WtnsError) -> Seq<char> {
    match e {
        WtnsError::UnexpectedEndOfInput => "Unexpected end of input"@,
        WtnsError::InvalidMagic => "Invalid magic number"@,
        WtnsError::UnsupportedVersion => "Unsupported version"@,
        WtnsError::TooManySections => "Number of sections >2 is not supported"@,
        WtnsError::ExpectedHeaderSection => "Invalid section type: expected header"@,
        WtnsError::InvalidHeaderSize => "Invalid header section size"@,
        WtnsError::WrongFieldSize => "Wrong field size"@,
        WtnsError::ExpectedWitnessSection => "Invalid section type: expected witness"@,
        WtnsError::InvalidWitnessSectionSize => "Invalid witness section size"@,
    }
}

impl WtnsError {
    /// The text that describes the error.
    pub fn message(&self) -> (s: &'static str)
        ensures
            s@ == error_message(*self),
    {
        match self {
            WtnsError::UnexpectedEndOfInput => "Unexpected end of input",
            WtnsError::InvalidMagic => "Invalid magic number",
            WtnsError::UnsupportedVersion => "Unsupported version",
            WtnsError::TooManySections => "Number of sections >2 is not supported",
            WtnsError::ExpectedHeaderSection => "Invalid section type: expected header",
            WtnsError::InvalidHeaderSize => "Invalid header section size",
            WtnsError::WrongFieldSize => "Wrong field size",
            WtnsError::ExpectedWitnessSection => "Invalid section type: expected witness",
            WtnsError::InvalidWitnessSectionSize => "Invalid witness section size",
        }
    }
}

/// The four magic bytes `wtns` that open every file.
pub open spec fn magic() -> Seq<u8> {
    seq![0x77u8, 0x74u8, 0x6eu8, 0x73u8]
}

/// A field element as stored in the file: `FS` raw bytes.
#[derive(Debug, PartialEq, Eq)]
pub struct FB<const FS: usize>([u8; FS]);

impl<const FS: usize> View for FB<FS> {
    type V = Seq<u8>;

    closed spec fn view(&self) -> Seq<u8> {
        self.0@
    }
}

impl<const FS: usize> FB<FS> {
    /// The raw bytes.
    pub fn as_bytes(&self) -> (b: &[u8])
        ensures
            b@ == self@,
            b@.len() == FS,
    {
        self.0.as_slice()
    }

    /// Reads the `FS` bytes at `pos`; returns the element and the position after it.
    pub fn read(input: &[u8], pos: usize) -> (r: Result<(FB<FS>, usize), WtnsError>)
        requires
            pos <= input@.len(),
        ensures
            match r {
                Ok((fb, p)) => pos + FS <= input@.len() && p == pos + FS && fb@ == input@.subrange(
                    pos as int,
                    pos + FS,
                ),
                Err(e) => pos + FS > input@.len() && e == WtnsError::UnexpectedEndOfInput,
            },
    {
        if input.len() - pos < FS {
            return Err(WtnsError::UnexpectedEndOfInput);
        }
        assert(input@.len() == input.len());
        let mut buf = [0u8; FS];
        let mut i: usize = 0;
        while i < FS
            invariant
                i <= FS,
                pos + FS <= input@.len(),
                input@.len() <= usize::MAX,
                buf@.len() == FS,
                forall|j: int| 0 <= j < i ==> buf@[j] == input@[pos + j],
            decreases FS - i,
        {
            buf[i] = input[pos + i];
            i = i + 1;
        }
        let fb = FB(buf);
        assert(fb@ =~= input@.subrange(pos as int, pos + FS));
        Ok((fb, pos + FS))
    }

    /// Appends the raw bytes to `out`.
    pub fn write(&self, out: &mut Vec<u8>)
        ensures
            final(out)@ == old(out)@ + self@,
    {
        push_bytes(out, self.as_bytes());
    }
}

impl<const FS: usize> core::ops::Deref for FB<FS> {
    type Target = [u8; FS];

    fn deref(&self) -> (r: &[u8; FS])
        ensures
            r@ == self@,
    {
        &self.0
    }
}

impl<const FS: usize> From<[u8; FS]> for FB<FS> {
    fn from(array: [u8; FS]) -> (fb: FB<FS>)
        ensures
            fb@ == array@,
    {
        FB(array)
    }
}

impl<const FS: usize> vstd::std_specs::convert::FromSpecImpl<[u8; FS]> for FB<FS> {
    open spec fn obeys_from_spec() -> bool {
        true
    }

    closed spec fn from_spec(array: [u8; FS]) -> FB<FS> {
        FB(array)
    }
}

/// Appends `bytes` to `out`.
pub(crate) fn push_bytes(out: &mut Vec<u8>, bytes: &[u8])
    ensures
        final(out)@ == old(out)@ + bytes@,
{
    let mut i: usize = 0;
    while i < bytes.len()
        invariant
            i <= bytes@.len(),
            out@ == old(out)@ + bytes@.take(i as int),
        decreases bytes@.len() - i,
    {
        out.push(bytes[i]);
        i = i + 1;
        assert(out@ =~= old(out)@ + bytes@.take(i as int));
    }
    assert(bytes@.take(i as int) =~= bytes@);
}

/// Reads the little-endian `u32` at `pos`; returns it and the position after it.
pub(crate) fn take_u32(input: &[u8], pos: usize) -> (r: Result<(u32, usize), WtnsError>)
    requires
        pos <= input@.len(),
    ensures
        match r {
            Ok((v, p)) => pos + 4 <= input@.len() && p == pos + 4 && v as nat == u32_at(
                input@,
                pos as int,
            ),
            Err(e) => pos + 4 > input@.len() && e == WtnsError::UnexpectedEndOfInput,
        },
{
    if input.len() - pos < 4 {
        return Err(WtnsError::UnexpectedEndOfInput);
    }
    let bytes = &input[pos..pos + 4];
    let v = read_u32_le(bytes);
    assert(bytes@.take(4) =~= input@.subrange(pos as int, pos + 4));
    Ok((v, pos + 4))
}

/// Reads the little-endian `u64` at `pos`; returns it and the position after it.
pub(crate) fn take_u64(input: &[u8], pos: usize) -> (r: Result<(u64, usize), WtnsError>)
    requires
        pos <= input@.len(),
    ensures
        match r {
            Ok((v, p)) => pos + 8 <= input@.len() && p == pos + 8 && v as nat == u64_at(
                input@,
                pos as int,
            ),
            Err(e) => pos + 8 > input@.len() && e == WtnsError::UnexpectedEndOfInput,
        },
{
    if input.len() - pos < 8 {
        return Err(WtnsError::UnexpectedEndOfInput);
    }
    let bytes = &input[pos..pos + 8];
    let v = read_u64_le(bytes);
    assert(bytes@.take(8) =~= input@.subrange(pos as int, pos + 8));
    Ok((v, pos + 8))
}

/// Appends the four little-endian bytes of `n`.
pub(crate) fn put_u32(out: &mut Vec<u8>, n: u32)
    ensures
        final(out)@ == old(out)@ + le_bytes(n as nat, 4),
{
    let b = u32_to_le(n);
    push_bytes(out, b.as_slice());
}

/// Appends the eight little-endian bytes of `n`.
pub(crate) fn put_u64(out: &mut Vec<u8>, n: u64)
    ensures
        final(out)@ == old(out)@ + le_bytes(n as nat, 8),
{
    let b = u64_to_le(n);
    push_bytes(out, b.as_slice());
}

/// The kind of a section, as stored in its first four bytes.
#[derive(Debug, PartialEq, Eq, Clone, Copy)]
pub enum SectionType {
    /// Stored as `1`.
    Header,
    /// Stored as `2`.
    CircomWitness,
    /// Any other number; written as `u32::MAX`.
    Unknown,
}

/// The number under which a section type is written.
pub open spec fn section_code(t: SectionType) -> u32 {
    match t {
        SectionType::Header => 1,
        SectionType::CircomWitness => 2,
        SectionType::Unknown => 0xFFFF_FFFF,
    }
}

/// The section type that a stored number stands for.
pub open spec fn section_of_code(n: nat) -> SectionType {
    if n == 1 {
        SectionType::Header
    } else if n == 2 {
        SectionType::CircomWitness
    } else {
        SectionType::Unknown
    }
}

impl SectionType {
    /// Reads the section type at `pos`; returns it and the position after it.
    pub fn read(input: &[u8], pos: usize) -> (r: Result<(SectionType, usize), WtnsError>)
        requires
            pos <= input@.len(),
        ensures
            match r {
                Ok((t, p)) => pos + 4 <= input@.len() && p == pos + 4 && t == section_of_code(
                    u32_at(input@, pos as int),
                ),
                Err(e) => pos + 4 > input@.len() && e == WtnsError::UnexpectedEndOfInput,
            },
    {
        let (num, p) = take_u32(input, pos)?;
        let ty = if num == 1 {
            SectionType::Header
        } else if num == 2 {
            SectionType::CircomWitness
        } else {
            SectionType::Unknown
        };
        Ok((ty, p))
    }

    /// Appends the section type's number.
    pub fn write(&self, out: &mut Vec<u8>)
        ensures
            final(out)@ == old(out)@ + le_bytes(section_code(*self) as nat, 4),
    {
        let code: u32 = match self {
            SectionType::Header => 1,
            SectionType::CircomWitness => 2,
            SectionType::Unknown => 0xFFFF_FFFF,
        };
        put_u32(out, code);
    }
}


/// The bytes of `w`'s chunks, one after the other.
pub open spec fn concat_chunks(w: Seq<Seq<u8>>) -> Seq<u8>
    decreases w.len(),
{
    if w.len() == 0 {
        Seq::empty()
    } else {
        concat_chunks(w.drop_last()) + w.last()
    }
}

/// What the header section of a file holds, as plain values.
pub struct HeaderView {
    pub field_size: u32,
    pub prime: Seq<u8>,
    pub witness_len: u32,
}

/// What a whole file holds, as plain values.
pub struct WtnsView {
    pub version: u32,
    pub header: HeaderView,
    pub witness: Seq<Seq<u8>>,
}

/// The header section of a `.wtns` file.
#[derive(Debug, PartialEq)]
pub struct Header<const FS: usize> {
    /// The number of bytes of each field element.
    pub field_size: u32,
    /// The modulus of the field, as `FS` little-endian bytes.
    pub prime: FB<FS>,
    /// The number of witness values in the witness section.
    pub witness_len: u32,
}

impl<const FS: usize> View for Header<FS> {
    type V = HeaderView;

    open spec fn view(&self) -> HeaderView {
        HeaderView { field_size: self.field_size, prime: self.prime@, witness_len: self.witness_len }
    }
}

/// The witness section of a `.wtns` file: the witness values, in order.
#[derive(Debug, PartialEq)]
pub struct CircomWitness<const FS: usize>(pub Vec<FB<FS>>);

impl<const FS: usize> View for CircomWitness<FS> {
    type V = Seq<Seq<u8>>;

    open spec fn view(&self) -> Seq<Seq<u8>> {
        self.0@.map_values(|fb: FB<FS>| fb@)
    }
}

/// A `.wtns` file.
#[derive(Debug, PartialEq)]
pub struct WtnsFile<const FS: usize> {
    pub version: u32,
    pub header: Header<FS>,
    pub witness: CircomWitness<FS>,
}

impl<const FS: usize> View for WtnsFile<FS> {
    type V = WtnsView;

    open spec fn view(&self) -> WtnsView {
        WtnsView { version: self.version, header: self.header@, witness: self.witness@ }
    }
}

/// The bytes of a header section as they are written: the section type `1`, the section
/// size `4 + FS + 4` as a `u64`, the field size `FS`, the prime, and the witness count.
pub open spec fn header_bytes<const FS: usize>(h: HeaderView) -> Seq<u8> {
    le_bytes(1, 4) + le_bytes((FS + 8) as nat, 8) + le_bytes(FS as nat, 4) + h.prime + le_bytes(
        h.witness_len as nat,
        4,
    )
}

/// The bytes of a witness section as they are written: the section type `2`, the section
/// size (the number of values times `FS`) as a `u64`, and the values.
pub open spec fn witness_bytes<const FS: usize>(w: Seq<Seq<u8>>) -> Seq<u8> {
    le_bytes(2, 4) + le_bytes((w.len() * FS) as nat, 8) + concat_chunks(w)
}

/// The bytes of a whole file that announces `count` sections: the magic, the version,
/// the section count, then the two sections.
pub open spec fn announced_file_bytes<const FS: usize>(f: WtnsView, count: u32) -> Seq<u8> {
    magic() + le_bytes(f.version as nat, 4) + le_bytes(count as nat, 4) + header_bytes::<FS>(f.header)
        + witness_bytes::<FS>(f.witness)
}

/// The bytes of a whole file as they are written: the magic, the version, the section
/// count `2`, then the two sections.
pub open spec fn file_bytes<const FS: usize>(f: WtnsView) -> Seq<u8> {
    announced_file_bytes::<FS>(f, 2)
}

/// What reading a header section at `p` gives: the header and the position after it,
/// or the first error met in reading order.
pub open spec fn parse_header_spec<const FS: usize>(s: Seq<u8>, p: int) -> Result<
    (HeaderView, int),
    WtnsError,
> {
    if s.len() < p + 4 {
        Err(WtnsError::UnexpectedEndOfInput)
    } else if u32_at(s, p) != 1 {
        Err(WtnsError::ExpectedHeaderSection)
    } else if s.len() < p + 12 {
        Err(WtnsError::UnexpectedEndOfInput)
    } else if u64_at(s, p + 4) != FS + 8 {
        Err(WtnsError::InvalidHeaderSize)
    } else if s.len() < p + 16 + FS {
        Err(WtnsError::UnexpectedEndOfInput)
    } else if u32_at(s, p + 12) != FS {
        Err(WtnsError::WrongFieldSize)
    } else if s.len() < p + 20 + FS {
        Err(WtnsError::UnexpectedEndOfInput)
    } else {
        Ok(
            (
                HeaderView {
                    field_size: u32_at(s, p + 12) as u32,
                    prime: s.subrange(p + 16, p + 16 + FS),
                    witness_len: u32_at(s, p + 16 + FS) as u32,
                },
                p + 20 + FS,
            ),
        )
    }
}

/// The `i`-th of the `FS`-byte values that start at `q`.
pub open spec fn chunk_at<const FS: usize>(s: Seq<u8>, q: int, i: int) -> Seq<u8> {
    s.subrange(q + i * FS, q + i * FS + FS)
}

/// What reading a witness section at `p` gives, for a header that announces `n` values:
/// the values and the position after them, or the first error met in reading order.
pub open spec fn parse_witness_spec<const FS: usize>(s: Seq<u8>, p: int, n: u32) -> Result<
    (Seq<Seq<u8>>, int),
    WtnsError,
> {
    if s.len() < p + 4 {
        Err(WtnsError::UnexpectedEndOfInput)
    } else if u32_at(s, p) != 2 {
        Err(WtnsError::ExpectedWitnessSection)
    } else if s.len() < p + 12 {
        Err(WtnsError::UnexpectedEndOfInput)
    } else if u64_at(s, p + 4) != n * FS {
        Err(WtnsError::InvalidWitnessSectionSize)
    } else if s.len() < p + 12 + n * FS {
        Err(WtnsError::UnexpectedEndOfInput)
    } else {
        Ok((Seq::new(n as nat, |i: int| chunk_at::<FS>(s, p + 12, i)), p + 12 + n * FS))
    }
}

/// What reading a whole file from the start of `s` gives: the file and the number of
/// bytes it takes, or the first error met in reading order. Bytes after the file are
/// not read.
pub open spec fn parse_file_spec<const FS: usize>(s: Seq<u8>) -> Result<(WtnsView, int), WtnsError> {
    if s.len() < 4 {
        Err(WtnsError::UnexpectedEndOfInput)
    } else if s.take(4) != magic() {
        Err(WtnsError::InvalidMagic)
    } else if s.len() < 8 {
        Err(WtnsError::UnexpectedEndOfInput)
    } else if u32_at(s, 4) > 2 {
        Err(WtnsError::UnsupportedVersion)
    } else if s.len() < 12 {
        Err(WtnsError::UnexpectedEndOfInput)
    } else if u32_at(s, 8) > 2 {
        Err(WtnsError::TooManySections)
    } else {
        match parse_header_spec::<FS>(s, 12) {
            Err(e) => Err(e),
            Ok((h, p)) => match parse_witness_spec::<FS>(s, p, h.witness_len) {
                Err(e) => Err(e),
                Ok((w, q)) => Ok((WtnsView { version: u32_at(s, 4) as u32, header: h, witness: w }, q)),
            },
        }
    }
}

impl<const FS: usize> Header<FS> {
    /// Reads a header section at `pos`; returns it and the position after it.
    pub fn read(input: &[u8], pos: usize) -> (r: Result<(Header<FS>, usize), WtnsError>)
        requires
            pos <= input@.len(),
            FS <= u32::MAX,
        ensures
            match r {
                Ok((h, p)) => parse_header_spec::<FS>(input@, pos as int) == Ok::<_, WtnsError>(
                    (h@, p as int),
                ),
                Err(e) => parse_header_spec::<FS>(input@, pos as int) == Err::<(HeaderView, int), _>(
                    e,
                ),
            },
    {
        let (sec_type, p) = SectionType::read(input, pos)?;
        match sec_type {
            SectionType::Header => {},
            _ => {
                return Err(WtnsError::ExpectedHeaderSection);
            },
        }
        let (sec_size, p) = take_u64(input, p)?;
        if sec_size != 4 + FS as u64 + 4 {
            return Err(WtnsError::InvalidHeaderSize);
        }
        let (field_size, p) = take_u32(input, p)?;
        let (prime, p) = FB::<FS>::read(input, p)?;
        if field_size != FS as u32 {
            return Err(WtnsError::WrongFieldSize);
        }
        let (witness_len, p) = take_u32(input, p)?;
        Ok((Header { field_size, prime, witness_len }, p))
    }

    /// Appends the header section. The field size written is `FS`, whatever
    /// `self.field_size` holds.
    pub fn write(&self, out: &mut Vec<u8>)
        requires
            FS <= u32::MAX,
        ensures
            final(out)@ == old(out)@ + header_bytes::<FS>(self@),
    {
        SectionType::Header.write(out);
        let sec_size: u64 = 4 + FS as u64 + 4;
        put_u64(out, sec_size);
        put_u32(out, FS as u32);
        self.prime.write(out);
        put_u32(out, self.witness_len);
        assert(out@ =~= old(out)@ + header_bytes::<FS>(self@));
    }
}


impl<const FS: usize> CircomWitness<FS> {
    /// Reads a witness section at `pos`, with as many values as `header` announces;
    /// returns it and the position after it.
    pub fn read(input: &[u8], pos: usize, header: &Header<FS>) -> (r: Result<
        (CircomWitness<FS>, usize),
        WtnsError,
    >)
        requires
            pos <= input@.len(),
            FS <= u32::MAX,
        ensures
            match r {
                Ok((w, p)) => parse_witness_spec::<FS>(input@, pos as int, header.witness_len)
                    == Ok::<_, WtnsError>((w@, p as int)),
                Err(e) => parse_witness_spec::<FS>(input@, pos as int, header.witness_len) == Err::<
                    (Seq<Seq<u8>>, int),
                    _,
                >(e),
            },
    {
        let (sec_type, p) = SectionType::read(input, pos)?;
        match sec_type {
            SectionType::CircomWitness => {},
            _ => {
                return Err(WtnsError::ExpectedWitnessSection);
            },
        }
        let (sec_size, p) = take_u64(input, p)?;
        let n = header.witness_len;
        assert(n * FS <= u64::MAX) by (nonlinear_arith)
            requires
                n <= u32::MAX,
                FS <= u32::MAX,
        ;
        if sec_size != n as u64 * FS as u64 {
            return Err(WtnsError::InvalidWitnessSectionSize);
        }
        let q = p;
        let ghost s = input@;
        let mut witness: Vec<FB<FS>> = Vec::new();
        let mut p = p;
        let mut i: u32 = 0;
        while i < n
            invariant
                i <= n,
                q <= p <= s.len(),
                s == input@,
                q == pos + 12,
                s.len() >= pos + 12,
                u32_at(s, pos as int) == 2,
                u64_at(s, pos + 4) == n * FS,
                n == header.witness_len,
                p == q + i * FS,
                witness@.len() == i,
                forall|k: int|
                    0 <= k < i ==> (#[trigger] witness@[k])@ == chunk_at::<FS>(s, q as int, k),
            decreases n - i,
        {
            match FB::<FS>::read(input, p) {
                Ok((fb, next)) => {
                    witness.push(fb);
                    p = next;
                    assert(p == q + (i + 1) * FS) by (nonlinear_arith)
                        requires
                            p == q + i * FS + FS,
                    ;
                    i = i + 1;
                },
                Err(e) => {
                    assert(q + n * FS > s.len()) by (nonlinear_arith)
                        requires
                            p == q + i * FS,
                            p + FS > s.len(),
                            i < n,
                    ;
                    return Err(e);
                },
            }
        }
        let cw = CircomWitness(witness);
        assert(cw@ =~= Seq::new(n as nat, |k: int| chunk_at::<FS>(s, q as int, k)));
        Ok((cw, p))
    }

    /// Appends the witness section: its type, its size (the number of values times
    /// `FS`), and the values.
    pub fn write(&self, out: &mut Vec<u8>)
        requires
            self.0@.len() * FS <= usize::MAX,
        ensures
            final(out)@ == old(out)@ + witness_bytes::<FS>(self@),
    {
        SectionType::CircomWitness.write(out);
        let sec_size = (self.0.len() * FS) as u64;
        put_u64(out, sec_size);
        let ghost start = out@;
        let ghost w = self@;
        let mut i: usize = 0;
        while i < self.0.len()
            invariant
                i <= self.0@.len(),
                w == self@,
                out@ == start + concat_chunks(w.take(i as int)),
            decreases self.0@.len() - i,
        {
            self.0[i].write(out);
            assert(w.take(i + 1).drop_last() =~= w.take(i as int));
            i = i + 1;
        }
        assert(w.take(i as int) =~= w);
        assert(out@ =~= old(out)@ + witness_bytes::<FS>(self@));
    }
}

/// Whether the file writes out as it reads back: a supported version, a header that
/// agrees with `FS` and with the number of values, and values of `FS` bytes each.
pub open spec fn well_formed<const FS: usize>(f: WtnsView) -> bool {
    &&& f.version <= 2
    &&& f.header.field_size == FS
    &&& f.header.prime.len() == FS
    &&& f.header.witness_len == f.witness.len()
    &&& forall|i: int| 0 <= i < f.witness.len() ==> (#[trigger] f.witness[i]).len() == FS
}

impl<const FS: usize> WtnsFile<FS> {
    /// A version-1 file with the given values and prime; the header records `FS`
    /// (truncated to a `u32`) and the number of values (truncated to a `u32`).
    pub fn from_vec(witness: Vec<FB<FS>>, prime: FB<FS>) -> (f: Self)
        ensures
            f.version == 1,
            f.header.field_size == FS as u32,
            f.header.prime == prime,
            f.header.witness_len == witness@.len() as u32,
            f.witness.0 == witness,
            FS <= u32::MAX && witness@.len() <= u32::MAX ==> well_formed::<FS>(f@),
    {
        let witness_len = witness.len() as u32;
        let f = WtnsFile {
            version: 1,
            header: Header { field_size: FS as u32, prime, witness_len },
            witness: CircomWitness(witness),
        };
        proof {
            assert(f.header.prime@.len() == FS);
            assert forall|i: int| 0 <= i < f@.witness.len() implies (#[trigger] f@.witness[i]).len() == FS by {
                assert(f@.witness[i] == f.witness.0@[i]@);
            }
        }
        f
    }

    /// Reads a file from the start of `input`; returns it and the number of bytes it
    /// takes. Bytes after the file are not read.
    pub fn parse(input: &[u8]) -> (r: Result<(Self, usize), WtnsError>)
        requires
            FS <= u32::MAX,
        ensures
            match r {
                Ok((f, n)) => parse_file_spec::<FS>(input@) == Ok::<_, WtnsError>((f@, n as int)),
                Err(e) => parse_file_spec::<FS>(input@) == Err::<(WtnsView, int), _>(e),
            },
    {
        if input.len() < 4 {
            return Err(WtnsError::UnexpectedEndOfInput);
        }
        if !(input[0] == 0x77u8 && input[1] == 0x74u8 && input[2] == 0x6eu8 && input[3] == 0x73u8) {
            assert(input@.take(4) != magic()) by {
                if input@.take(4) == magic() {
                    assert(input@.take(4)[0] == input@[0]);
                    assert(input@.take(4)[1] == input@[1]);
                    assert(input@.take(4)[2] == input@[2]);
                    assert(input@.take(4)[3] == input@[3]);
                }
            }
            return Err(WtnsError::InvalidMagic);
        }
        assert(input@.take(4) =~= magic());
        let (version, p) = take_u32(input, 4)?;
        if version > 2 {
            return Err(WtnsError::UnsupportedVersion);
        }
        let (num_sections, p) = take_u32(input, p)?;
        if num_sections > 2 {
            return Err(WtnsError::TooManySections);
        }
        let (header, p) = Header::<FS>::read(input, p)?;
        let (witness, p) = CircomWitness::<FS>::read(input, p, &header)?;
        Ok((WtnsFile { version, header, witness }, p))
    }

    /// Reads a file from the start of `input`. Bytes after the file are not read.
    pub fn read(input: &[u8]) -> (r: Result<Self, WtnsError>)
        requires
            FS <= u32::MAX,
        ensures
            match r {
                Ok(f) => parse_file_spec::<FS>(input@) matches Ok((v, _)) && v == f@,
                Err(e) => parse_file_spec::<FS>(input@) == Err::<(WtnsView, int), _>(e),
            },
    {
        match Self::parse(input) {
            Ok((f, n)) => Ok(f),
            Err(e) => Err(e),
        }
    }

    /// Appends the file: the magic, the version, the section count `2`, the header
    /// section and the witness section.
    pub fn write(&self, out: &mut Vec<u8>)
        requires
            FS <= u32::MAX,
            self.witness.0@.len() * FS <= usize::MAX,
        ensures
            final(out)@ == old(out)@ + file_bytes::<FS>(self@),
    {
        out.push(0x77u8);
        out.push(0x74u8);
        out.push(0x6eu8);
        out.push(0x73u8);
        put_u32(out, self.version);
        put_u32(out, 2);
        self.header.write(out);
        self.witness.write(out);
        assert(out@ =~= old(out)@ + file_bytes::<FS>(self@));
    }
}


/// Chunks of `FS` bytes each, put one after the other, are found back at multiples of `FS`.
pub proof fn lemma_concat_chunks<const FS: usize>(w: Seq<Seq<u8>>)
    requires
        forall|i: int| 0 <= i < w.len() ==> (#[trigger] w[i]).len() == FS,
    ensures
        concat_chunks(w).len() == w.len() * FS,
        forall|i: int| 0 <= i < w.len() ==> #[trigger] chunk_at::<FS>(concat_chunks(w), 0, i) == w[i],
    decreases w.len(),
{
    if w.len() > 0 {
        let w2 = w.drop_last();
        lemma_concat_chunks::<FS>(w2);
        let c = concat_chunks(w);
        let c2 = concat_chunks(w2);
        let m = w2.len();
        assert(c.len() == w.len() * FS) by (nonlinear_arith)
            requires
                c.len() == m * FS + FS,
                w.len() == m + 1,
        ;
        assert forall|i: int| 0 <= i < w.len() implies #[trigger] chunk_at::<FS>(c, 0, i) == w[i] by {
            if i < m {
                assert(i * FS + FS <= m * FS) by (nonlinear_arith)
                    requires
                        0 <= i < m,
                ;
                assert(0 <= i * FS) by (nonlinear_arith)
                    requires
                        0 <= i,
                ;
                assert(w2[i] == w[i]);
                assert(chunk_at::<FS>(c2, 0, i) == w2[i]);
                assert(chunk_at::<FS>(c, 0, i) =~= chunk_at::<FS>(c2, 0, i));
            } else {
                assert(i * FS == m * FS);
                assert(chunk_at::<FS>(c, 0, i) =~= w.last());
            }
        }
    }
}

/// Putting back together the `n` chunks of `FS` bytes that start at `q` gives the bytes
/// they were cut from.
pub proof fn lemma_concat_of_chunk_seq<const FS: usize>(s: Seq<u8>, q: int, n: nat)
    requires
        0 <= q,
        q + n * FS <= s.len(),
    ensures
        concat_chunks(Seq::new(n, |i: int| chunk_at::<FS>(s, q, i))) == s.subrange(q, q + n * FS),
    decreases n,
{
    let w = Seq::new(n, |i: int| chunk_at::<FS>(s, q, i));
    if n == 0 {
        assert(n * FS == 0) by (nonlinear_arith)
            requires
                n == 0,
        ;
        assert(concat_chunks(w) =~= s.subrange(q, q + n * FS));
    } else {
        let m = (n - 1) as nat;
        assert(q + m * FS + FS == q + n * FS) by (nonlinear_arith)
            requires
                m == n - 1,
        ;
        assert(0 <= m * FS) by (nonlinear_arith);
        lemma_concat_of_chunk_seq::<FS>(s, q, m);
        assert(w.drop_last() =~= Seq::new(m, |i: int| chunk_at::<FS>(s, q, i)));
        assert(w.last() == chunk_at::<FS>(s, q, m as int));
        assert(concat_chunks(w) == concat_chunks(w.drop_last()) + w.last());
        assert(s.subrange(q, q + m * FS) + s.subrange(q + m * FS, q + m * FS + FS) =~= s.subrange(
            q,
            q + n * FS,
        ));
    }
}

/// Laws of the format: a header section that is written reads back as it was, wherever
/// it stands and whatever follows it, when its field size is `FS` and its prime has `FS`
/// bytes.
pub proof fn lemma_header_read_after_write<const FS: usize>(h: HeaderView, pre: Seq<u8>, rest: Seq<u8>)
    requires
        FS <= u32::MAX,
        h.field_size == FS,
        h.prime.len() == FS,
    ensures
        parse_header_spec::<FS>(pre + header_bytes::<FS>(h) + rest, pre.len() as int) == Ok::<_, WtnsError>(
            (h, pre.len() + FS + 20),
        ),
{
    let p = pre.len() as int;
    lemma_pow256_values();
    lemma_u32_roundtrip(1);
    lemma_u32_roundtrip(FS as u32);
    lemma_u32_roundtrip(h.witness_len);
    lemma_le_bytes_len((FS + 8) as nat, 8);
    lemma_le_value_of_bytes((FS + 8) as nat, 8);
    let hb = header_bytes::<FS>(h);
    let b = pre + hb + rest;
    assert(hb.len() == FS + 20);
    assert(b.subrange(p, p + 4) =~= le_bytes(1, 4));
    assert(b.subrange(p + 4, p + 12) =~= le_bytes((FS + 8) as nat, 8));
    assert(b.subrange(p + 12, p + 16) =~= le_bytes(FS as nat, 4));
    assert(b.subrange(p + 16, p + 16 + FS) =~= h.prime);
    assert(b.subrange(p + 16 + FS, p + 20 + FS) =~= le_bytes(h.witness_len as nat, 4));
}

/// Laws of the format: a witness section that is written reads back as it was, wherever
/// it stands and whatever follows it, for a header that announces its number of values,
/// when every value has `FS` bytes.
pub proof fn lemma_witness_read_after_write<const FS: usize>(w: Seq<Seq<u8>>, pre: Seq<u8>, rest: Seq<u8>)
    requires
        FS <= u32::MAX,
        w.len() <= u32::MAX,
        forall|i: int| 0 <= i < w.len() ==> (#[trigger] w[i]).len() == FS,
    ensures
        parse_witness_spec::<FS>(pre + witness_bytes::<FS>(w) + rest, pre.len() as int, w.len() as u32)
            == Ok::<_, WtnsError>((w, pre.len() + 12 + w.len() * FS)),
{
    let n = w.len();
    let p = pre.len() as int;
    lemma_pow256_values();
    lemma_u32_roundtrip(2);
    assert(n * FS < pow256(8)) by (nonlinear_arith)
        requires
            n <= u32::MAX,
            FS <= u32::MAX,
            pow256(8) == 0x1_0000_0000_0000_0000,
    ;
    lemma_le_bytes_len((n * FS) as nat, 8);
    lemma_le_value_of_bytes((n * FS) as nat, 8);
    lemma_concat_chunks::<FS>(w);
    let wb = witness_bytes::<FS>(w);
    let cw = concat_chunks(w);
    let b = pre + wb + rest;
    assert(wb.len() == 12 + n * FS);
    assert(b.subrange(p, p + 4) =~= le_bytes(2, 4));
    assert(b.subrange(p + 4, p + 12) =~= le_bytes((n * FS) as nat, 8));
    assert(b.subrange(p + 12, p + 12 + n * FS) =~= cw);
    let ws = Seq::new(n as nat, |i: int| chunk_at::<FS>(b, p + 12, i));
    assert forall|i: int| 0 <= i < n implies #[trigger] ws[i] == w[i] by {
        assert(0 <= i * FS && i * FS + FS <= n * FS) by (nonlinear_arith)
            requires
                0 <= i < n,
        ;
        assert(chunk_at::<FS>(cw, 0, i) == w[i]);
        assert(ws[i] =~= chunk_at::<FS>(cw, 0, i));
    }
    assert(ws =~= w);
}

/// Laws of the format: a well-formed file that is written reads back as it was,
/// whatever follows it, also where its section count is any count up to `2`.
pub proof fn lemma_read_after_write_any_count<const FS: usize>(f: WtnsView, count: u32, rest: Seq<u8>)
    requires
        FS <= u32::MAX,
        well_formed::<FS>(f),
        count <= 2,
    ensures
        parse_file_spec::<FS>(announced_file_bytes::<FS>(f, count) + rest) == Ok::<_, WtnsError>(
            (f, announced_file_bytes::<FS>(f, count).len() as int),
        ),
{
    let h = f.header;
    let pre = magic() + le_bytes(f.version as nat, 4) + le_bytes(count as nat, 4);
    let hb = header_bytes::<FS>(h);
    let wb = witness_bytes::<FS>(f.witness);
    let b = announced_file_bytes::<FS>(f, count) + rest;
    let p = 32 + FS;
    assert(b.len() >= 12 && b.take(4) == magic() && u32_at(b, 4) == f.version && u32_at(b, 8) == count) by {
        lemma_pow256_values();
        lemma_u32_roundtrip(f.version);
        lemma_u32_roundtrip(count);
        assert(b =~= pre + (hb + wb + rest));
        assert(b.take(4) =~= magic());
        assert(b.subrange(4, 8) =~= le_bytes(f.version as nat, 4));
        assert(b.subrange(8, 12) =~= le_bytes(count as nat, 4));
    }
    assert(parse_header_spec::<FS>(b, 12) == Ok::<_, WtnsError>((h, p))) by {
        lemma_le_bytes_len(f.version as nat, 4);
        lemma_le_bytes_len(count as nat, 4);
        assert(pre.len() == 12);
        assert(b =~= pre + hb + (wb + rest));
        lemma_header_read_after_write::<FS>(h, pre, wb + rest);
    }
    assert(parse_witness_spec::<FS>(b, p, h.witness_len) == Ok::<_, WtnsError>(
        (f.witness, p + 12 + f.witness.len() * FS),
    )) by {
        lemma_le_bytes_len(f.version as nat, 4);
        lemma_le_bytes_len(count as nat, 4);
        lemma_le_bytes_len(1, 4);
        lemma_le_bytes_len((FS + 8) as nat, 8);
        lemma_le_bytes_len(FS as nat, 4);
        lemma_le_bytes_len(h.witness_len as nat, 4);
        assert(b =~= (pre + hb) + wb + rest);
        assert((pre + hb).len() == p);
        lemma_witness_read_after_write::<FS>(f.witness, pre + hb, rest);
        assert(h.witness_len as nat == f.witness.len());
    }
    assert(announced_file_bytes::<FS>(f, count).len() == p + 12 + f.witness.len() * FS) by {
        lemma_le_bytes_len(f.version as nat, 4);
        lemma_le_bytes_len(count as nat, 4);
        lemma_le_bytes_len(1, 4);
        lemma_le_bytes_len((FS + 8) as nat, 8);
        lemma_le_bytes_len(FS as nat, 4);
        lemma_le_bytes_len(h.witness_len as nat, 4);
        lemma_le_bytes_len(2, 4);
        lemma_le_bytes_len((f.witness.len() * FS) as nat, 8);
        lemma_concat_chunks::<FS>(f.witness);
    }
}

/// Laws of the format: what is written reads back as it was, whatever follows it.
pub proof fn lemma_read_after_write<const FS: usize>(f: WtnsView, rest: Seq<u8>)
    requires
        FS <= u32::MAX,
        well_formed::<FS>(f),
    ensures
        parse_file_spec::<FS>(file_bytes::<FS>(f) + rest) == Ok::<_, WtnsError>(
            (f, file_bytes::<FS>(f).len() as int),
        ),
{
    lemma_read_after_write_any_count::<FS>(f, 2, rest);
}

/// Laws of the format: whatever reads successfully is well-formed.
pub proof fn lemma_read_is_well_formed<const FS: usize>(s: Seq<u8>)
    requires
        FS <= u32::MAX,
        parse_file_spec::<FS>(s) is Ok,
    ensures
        well_formed::<FS>(parse_file_spec::<FS>(s)->Ok_0.0),
{
    let (f, q) = parse_file_spec::<FS>(s)->Ok_0;
    let n = f.header.witness_len;
    lemma_le_bytes_of_value(s.subrange(4, 8));
    lemma_le_bytes_of_value(s.subrange(24, 28));
    lemma_le_bytes_of_value(s.subrange(28 + FS, 32 + FS));
    lemma_pow256_values();
    assert forall|i: int| 0 <= i < f.witness.len() implies (#[trigger] f.witness[i]).len() == FS by {
        assert(0 <= i * FS && i * FS + FS <= n * FS) by (nonlinear_arith)
            requires
                0 <= i < n,
        ;
    }
}

/// Laws of the format: a file that reads successfully starts with the bytes that write
/// it, with the section count that it announces (at most `2`).
pub proof fn lemma_read_bytes_are_written<const FS: usize>(s: Seq<u8>)
    requires
        FS <= u32::MAX,
        parse_file_spec::<FS>(s) is Ok,
    ensures
        u32_at(s, 8) <= 2,
        announced_file_bytes::<FS>(parse_file_spec::<FS>(s)->Ok_0.0, u32_at(s, 8) as u32) == s.take(
            parse_file_spec::<FS>(s)->Ok_0.1,
        ),
{
    let (f, q) = parse_file_spec::<FS>(s)->Ok_0;
    let h = f.header;
    let n = h.witness_len;
    let p = 32 + FS;
    lemma_pow256_values();
    lemma_le_bytes_of_value(s.subrange(4, 8));
    lemma_le_bytes_of_value(s.subrange(8, 12));
    lemma_le_bytes_of_value(s.subrange(12, 16));
    lemma_le_bytes_of_value(s.subrange(16, 24));
    lemma_le_bytes_of_value(s.subrange(24, 28));
    lemma_le_bytes_of_value(s.subrange(28 + FS, 32 + FS));
    lemma_le_bytes_of_value(s.subrange(p, p + 4));
    lemma_le_bytes_of_value(s.subrange(p + 4, p + 12));
    assert(0 <= n * FS) by (nonlinear_arith);
    lemma_concat_of_chunk_seq::<FS>(s, p + 12, n as nat);
    assert(f.witness =~= Seq::new(n as nat, |i: int| chunk_at::<FS>(s, p + 12, i)));
    assert(s.take(4) =~= magic());
    assert(announced_file_bytes::<FS>(f, u32_at(s, 8) as u32) =~= s.take(q));
}

/// Laws of the format: a file that reads successfully, and that announces the two
/// sections that every written file announces, writes back to exactly the bytes it
/// was read from.
pub proof fn lemma_write_after_read<const FS: usize>(s: Seq<u8>)
    requires
        FS <= u32::MAX,
        parse_file_spec::<FS>(s) is Ok,
        u32_at(s, 8) == 2,
    ensures
        file_bytes::<FS>(parse_file_spec::<FS>(s)->Ok_0.0) == s.take(parse_file_spec::<FS>(s)->Ok_0.1),
{
    lemma_read_bytes_are_written::<FS>(s);
}

/// Laws of the format: reading gives the file `f`, of `q` bytes, exactly when `f` is
/// well-formed and the input starts with the bytes that write `f`, but for a section
/// count that may be any count up to `2`.
pub proof fn lemma_read_iff<const FS: usize>(s: Seq<u8>, f: WtnsView, q: int)
    requires
        FS <= u32::MAX,
    ensures
        parse_file_spec::<FS>(s) == Ok::<_, WtnsError>((f, q)) <==> (well_formed::<FS>(f) && exists|count: u32|
            count <= 2 && 0 <= q <= s.len() && s.take(q) == #[trigger] announced_file_bytes::<FS>(f, count)),
{
    if parse_file_spec::<FS>(s) == Ok::<_, WtnsError>((f, q)) {
        lemma_read_is_well_formed::<FS>(s);
        lemma_read_bytes_are_written::<FS>(s);
        let count = u32_at(s, 8) as u32;
        assert(0 <= q <= s.len()) by {
            lemma_parse_len::<FS>(s);
        }
        assert(count <= 2 && 0 <= q <= s.len() && s.take(q) == announced_file_bytes::<FS>(f, count));
    }
    if well_formed::<FS>(f) && exists|count: u32|
        count <= 2 && 0 <= q <= s.len() && s.take(q) == #[trigger] announced_file_bytes::<FS>(f, count) {
        let count = choose|count: u32|
            count <= 2 && 0 <= q <= s.len() && s.take(q) == #[trigger] announced_file_bytes::<FS>(f, count);
        let rest = s.skip(q);
        assert(s =~= s.take(q) + rest);
        lemma_read_after_write_any_count::<FS>(f, count, rest);
    }
}

/// A file that reads successfully takes no more bytes than there are.
proof fn lemma_parse_len<const FS: usize>(s: Seq<u8>)
    requires
        FS <= u32::MAX,
        parse_file_spec::<FS>(s) is Ok,
    ensures
        0 <= parse_file_spec::<FS>(s)->Ok_0.1 <= s.len(),
{
    let h = parse_header_spec::<FS>(s, 12)->Ok_0.0;
    assert(0 <= h.witness_len * FS) by (nonlinear_arith);
}

/// Laws of the format: the bytes of a file do not depend on the field size that its
/// header records; the header is written with `FS`.
pub proof fn lemma_write_ignores_field_size<const FS: usize>(f: WtnsView, field_size: u32)
    ensures
        file_bytes::<FS>(f) == file_bytes::<FS>(
            WtnsView { header: HeaderView { field_size, ..f.header }, ..f },
        ),
{
}

} // verus!
