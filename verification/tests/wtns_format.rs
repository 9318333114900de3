use noir_halo2_backend_pse::wtns::{CircomWitness, Header, SectionType, WtnsError, WtnsFile, FB};

const FS: usize = 32;

fn fe() -> FB<FS> {
    FB::from([
        1, 0, 1, 0, 1, 0, 1, 0, 0, 0, 0, 0, 0, 0, 0, 0, 0, 0, 0, 0, 0, 0, 0, 0, 0, 0, 0, 0, 0,
        0, 0, 1,
    ])
}

fn fb(b: u8) -> FB<FS> {
    FB::from([b; FS])
}

#[test]
fn test() {
    let file = WtnsFile::<FS>::from_vec(vec![fe(), fe(), fe()], fe());
    let mut data = Vec::new();
    file.write(&mut data);

    let new_file = WtnsFile::read(&data).unwrap();

    assert_eq!(file, new_file);
}

fn sample_bytes() -> Vec<u8> {
    let file = WtnsFile::<FS>::from_vec(vec![fb(7), fb(9)], fe());
    let mut data = Vec::new();
    file.write(&mut data);
    data
}

#[test]
fn written_layout_is_exact() {
    let data = sample_bytes();
    // magic, version 1, two sections
    assert_eq!(&data[0..4], b"wtns");
    assert_eq!(&data[4..8], &[1, 0, 0, 0]);
    assert_eq!(&data[8..12], &[2, 0, 0, 0]);
    // header section: type 1, size 4 + 32 + 4 = 40, field size 32, prime, count 2
    assert_eq!(&data[12..16], &[1, 0, 0, 0]);
    assert_eq!(&data[16..24], &[40, 0, 0, 0, 0, 0, 0, 0]);
    assert_eq!(&data[24..28], &[32, 0, 0, 0]);
    assert_eq!(&data[28..60], fe().as_bytes());
    assert_eq!(&data[60..64], &[2, 0, 0, 0]);
    // witness section: type 2, size 64, the values
    assert_eq!(&data[64..68], &[2, 0, 0, 0]);
    assert_eq!(&data[68..76], &[64, 0, 0, 0, 0, 0, 0, 0]);
    assert_eq!(&data[76..108], &[7u8; 32]);
    assert_eq!(&data[108..140], &[9u8; 32]);
    assert_eq!(data.len(), 140);
}

#[test]
fn from_vec_fills_the_header() {
    let file = WtnsFile::<FS>::from_vec(vec![fb(1), fb(2), fb(3), fb(4)], fb(5));
    assert_eq!(file.version, 1);
    assert_eq!(file.header.field_size, 32);
    assert_eq!(file.header.witness_len, 4);
    assert_eq!(file.header.prime, fb(5));
    assert_eq!(file.witness.0.len(), 4);
}

#[test]
fn parse_ignores_trailing_bytes_and_reports_length() {
    let mut data = sample_bytes();
    let n = data.len();
    data.extend_from_slice(&[0xAA, 0xBB, 0xCC]);
    let (file, used) = WtnsFile::<FS>::parse(&data).unwrap();
    assert_eq!(used, n);
    assert_eq!(file.witness.0, vec![fb(7), fb(9)]);
    assert_eq!(file.header.prime, fe());
}

#[test]
fn empty_witness_roundtrips() {
    let file = WtnsFile::<FS>::from_vec(vec![], fe());
    let mut data = Vec::new();
    file.write(&mut data);
    assert_eq!(data.len(), 76);
    assert_eq!(WtnsFile::<FS>::read(&data).unwrap(), file);
}

#[test]
fn other_field_size_roundtrips() {
    let file = WtnsFile::<4>::from_vec(vec![FB::from([1, 2, 3, 4]), FB::from([5, 6, 7, 8])], FB::from([9, 9, 9, 9]));
    let mut data = Vec::new();
    file.write(&mut data);
    assert_eq!(data.len(), 12 + 24 + 12 + 8);
    assert_eq!(WtnsFile::<4>::read(&data).unwrap(), file);
}

#[test]
fn version_two_and_fewer_sections_are_read() {
    let mut data = sample_bytes();
    data[4] = 2;
    data[8] = 1;
    let file = WtnsFile::<FS>::read(&data).unwrap();
    assert_eq!(file.version, 2);
    assert_eq!(file.witness.0.len(), 2);
}

#[test]
fn rejects_bad_magic() {
    let mut data = sample_bytes();
    data[0] = b'x';
    assert_eq!(WtnsFile::<FS>::read(&data), Err(WtnsError::InvalidMagic));
}

#[test]
fn rejects_unsupported_version() {
    let mut data = sample_bytes();
    data[4] = 3;
    assert_eq!(WtnsFile::<FS>::read(&data), Err(WtnsError::UnsupportedVersion));
}

#[test]
fn rejects_too_many_sections() {
    let mut data = sample_bytes();
    data[8] = 3;
    assert_eq!(WtnsFile::<FS>::read(&data), Err(WtnsError::TooManySections));
}

#[test]
fn rejects_wrong_header_section_type() {
    let mut data = sample_bytes();
    data[12] = 2;
    assert_eq!(WtnsFile::<FS>::read(&data), Err(WtnsError::ExpectedHeaderSection));
}

#[test]
fn rejects_wrong_header_size() {
    let mut data = sample_bytes();
    data[16] = 41;
    assert_eq!(WtnsFile::<FS>::read(&data), Err(WtnsError::InvalidHeaderSize));
}

#[test]
fn rejects_wrong_field_size() {
    let mut data = sample_bytes();
    data[24] = 31;
    assert_eq!(WtnsFile::<FS>::read(&data), Err(WtnsError::WrongFieldSize));
}

#[test]
fn truncation_before_field_size_check_is_end_of_input() {
    let mut data = sample_bytes();
    data[24] = 31;
    data.truncate(40);
    assert_eq!(WtnsFile::<FS>::read(&data), Err(WtnsError::UnexpectedEndOfInput));
}

#[test]
fn rejects_wrong_witness_section_type() {
    let mut data = sample_bytes();
    data[64] = 1;
    assert_eq!(WtnsFile::<FS>::read(&data), Err(WtnsError::ExpectedWitnessSection));
}

#[test]
fn rejects_wrong_witness_section_size() {
    let mut data = sample_bytes();
    data[68] = 32;
    assert_eq!(WtnsFile::<FS>::read(&data), Err(WtnsError::InvalidWitnessSectionSize));
}

#[test]
fn rejects_truncated_input_at_every_length() {
    let data = sample_bytes();
    for n in 0..data.len() {
        assert_eq!(
            WtnsFile::<FS>::read(&data[..n]),
            Err(WtnsError::UnexpectedEndOfInput),
            "prefix of length {}",
            n
        );
    }
}

#[test]
fn error_messages() {
    assert_eq!(WtnsError::InvalidMagic.message(), "Invalid magic number");
    assert_eq!(WtnsError::TooManySections.message(), "Number of sections >2 is not supported");
    assert_eq!(WtnsError::InvalidWitnessSectionSize.message(), "Invalid witness section size");
}

#[test]
fn section_type_reads_and_writes() {
    let mut out = Vec::new();
    SectionType::Header.write(&mut out);
    SectionType::CircomWitness.write(&mut out);
    SectionType::Unknown.write(&mut out);
    assert_eq!(out, vec![1, 0, 0, 0, 2, 0, 0, 0, 255, 255, 255, 255]);
    assert_eq!(SectionType::read(&out, 0), Ok((SectionType::Header, 4)));
    assert_eq!(SectionType::read(&out, 4), Ok((SectionType::CircomWitness, 8)));
    assert_eq!(SectionType::read(&out, 8), Ok((SectionType::Unknown, 12)));
    assert_eq!(SectionType::read(&out, 10), Err(WtnsError::UnexpectedEndOfInput));
}

#[test]
fn header_and_witness_sections_read_back() {
    let header = Header::<FS> { field_size: 32, prime: fe(), witness_len: 1 };
    let witness = CircomWitness::<FS>(vec![fb(3)]);
    let mut out = vec![0xEE];
    header.write(&mut out);
    witness.write(&mut out);
    let (h, p) = Header::<FS>::read(&out, 1).unwrap();
    assert_eq!(h, header);
    assert_eq!(p, 53);
    let (w, q) = CircomWitness::<FS>::read(&out, p, &h).unwrap();
    assert_eq!(w, witness);
    assert_eq!(q, out.len());
}

#[test]
fn header_write_records_fs_not_the_field() {
    let header = Header::<FS> { field_size: 7, prime: fe(), witness_len: 0 };
    let mut out = Vec::new();
    header.write(&mut out);
    assert_eq!(&out[12..16], &[32, 0, 0, 0]);
    assert_eq!(Header::<FS>::read(&out, 0).unwrap().0.field_size, 32);
}

#[test]
fn fb_bytes_and_deref() {
    let x = FB::<3>::from([4, 5, 6]);
    assert_eq!(x.as_bytes(), &[4, 5, 6]);
    assert_eq!(*x, [4, 5, 6]);
    let mut out = vec![1];
    x.write(&mut out);
    assert_eq!(out, vec![1, 4, 5, 6]);
    assert_eq!(FB::<3>::read(&out, 1), Ok((x, 4)));
    assert!(FB::<3>::read(&out, 2).is_err());
}
