use pleat::filter::StdRibbon;
use pleat::format::{
    decode, finish, fnv1a, write_header, DecodeError, FAMILY_HOMOG, FAMILY_STD, HEADER_LEN,
};

#[test]
fn rejects_short_bad_magic_and_corrupt() {
    assert_eq!(decode(&[], FAMILY_HOMOG, 7, 8, 64).unwrap_err(), DecodeError::TooShort);
    let mut buf = write_header(FAMILY_HOMOG, 7, 0, 129, 21);
    buf.extend_from_slice(&[0u8; 21 * 8]);
    let good = finish(buf);
    assert!(decode(&good, FAMILY_HOMOG, 7, 8, 64).is_ok());
    assert_eq!(decode(&good, FAMILY_STD, 7, 8, 64).unwrap_err(), DecodeError::WrongFamily);
    assert_eq!(
        decode(&good, FAMILY_HOMOG, 8, 8, 64).unwrap_err(),
        DecodeError::WrongResultWidth
    );
    let mut bad = good.clone();
    bad[HEADER_LEN] ^= 0xFF;
    assert_eq!(decode(&bad, FAMILY_HOMOG, 7, 8, 64).unwrap_err(), DecodeError::BadChecksum);
    let mut nm = good.clone();
    nm[0] = b'X';
    assert_eq!(decode(&nm, FAMILY_HOMOG, 7, 8, 64).unwrap_err(), DecodeError::BadMagic);
}

#[test]
fn rejects_inconsistent_geometry() {
    let mut buf = write_header(FAMILY_HOMOG, 7, 0, 129, 8);
    buf.extend_from_slice(&[0u8; 8 * 8]);
    let b = finish(buf);
    assert_eq!(decode(&b, FAMILY_HOMOG, 7, 8, 64).unwrap_err(), DecodeError::BadGeometry);
}

#[test]
fn headers_are_laid_out_field_by_field() {
    let h = write_header(FAMILY_STD, 9, 0x0102, 0x0304, 0x0506);
    let mut expected: Vec<u8> = Vec::new();
    expected.extend_from_slice(b"PLT1");
    expected.extend_from_slice(&[1, 9, 0, 0]);
    expected.extend_from_slice(&0x0102u64.to_le_bytes());
    expected.extend_from_slice(&0x0304u64.to_le_bytes());
    expected.extend_from_slice(&0x0506u64.to_le_bytes());
    assert_eq!(h, expected);
    let sealed = finish(h.clone());
    assert_eq!(&sealed[..32], &h[..]);
    assert_eq!(&sealed[32..], &fnv1a(&h).to_le_bytes());
}

#[test]
fn decoding_gives_the_fields_and_the_payload() {
    let payload: Vec<u8> = (0..21 * 8).map(|i| i as u8).collect();
    let mut buf = write_header(FAMILY_HOMOG, 7, 77, 129, 21);
    buf.extend_from_slice(&payload);
    let good = finish(buf);
    let (header, inner) = decode(&good, FAMILY_HOMOG, 7, 8, 64).unwrap();
    assert_eq!((header.seed, header.num_starts), (77, 129));
    assert_eq!(inner, &payload[..]);
}

fn geometry_error(num_starts: u64, count: u64, words: usize) -> DecodeError {
    let mut buf = write_header(FAMILY_HOMOG, 7, 0, num_starts, count);
    buf.extend_from_slice(&vec![0u8; words * 8]);
    decode(&finish(buf), FAMILY_HOMOG, 7, 8, 64).unwrap_err()
}

#[test]
fn each_bad_geometry_is_refused() {
    assert_eq!(geometry_error(0, 0, 0), DecodeError::BadGeometry);
    assert_eq!(geometry_error(1, 7, 7), DecodeError::BadGeometry);
    assert_eq!(geometry_error(130, 21, 21), DecodeError::BadGeometry);
    assert_eq!(geometry_error(u64::MAX, 21, 21), DecodeError::BadGeometry);
    assert_eq!(geometry_error(u64::MAX - 62, 21, 21), DecodeError::BadGeometry);
    assert_eq!(geometry_error(129, 21, 20), DecodeError::LengthMismatch);
    assert_eq!(geometry_error(129, 21, 22), DecodeError::LengthMismatch);
    let blocks = (1u64 << 58) - 1;
    assert_eq!(geometry_error(blocks * 64 - 63, blocks * 7, 1), DecodeError::LengthMismatch);
}

#[test]
fn overlong_payloads_are_bad_geometry() {
    let blocks = (1u64 << 57) - 1;
    let buf = finish(write_header(FAMILY_STD, 32, 0, blocks * 128 - 127, blocks * 32));
    assert_eq!(decode(&buf, FAMILY_STD, 32, 16, 128).unwrap_err(), DecodeError::BadGeometry);
}

#[test]
fn seeds_out_of_range_are_refused() {
    let mut buf = write_header(FAMILY_STD, 7, 64, 129, 14);
    buf.extend_from_slice(&[0u8; 14 * 16]);
    assert_eq!(StdRibbon::<7>::from_bytes(&finish(buf)).unwrap_err(), DecodeError::BadSeed);
    let mut buf = write_header(FAMILY_STD, 7, 63, 129, 14);
    buf.extend_from_slice(&[0u8; 14 * 16]);
    let f = StdRibbon::<7>::from_bytes(&finish(buf)).unwrap();
    let mut out = [false; 4];
    f.contains_batch(&[1, 2, 3, 4], &mut out);
    assert_eq!(out[0], f.contains(1));
}

#[test]
fn checksums_are_exact() {
    assert_eq!(fnv1a(b""), 0xcbf2_9ce4_8422_2325);
    assert_eq!(fnv1a(b"a"), 0xaf63_dc4c_8601_ec8c);
    assert_eq!(fnv1a(b"foobar"), 0x8594_4171_f739_67e8);
}

#[test]
fn errors_have_their_messages() {
    let expected = [
        (DecodeError::TooShort, "buffer too short for a valid filter"),
        (DecodeError::BadMagic, "not a pleat filter buffer (bad magic)"),
        (DecodeError::WrongFamily, "filter family does not match"),
        (DecodeError::WrongResultWidth, "result width does not match"),
        (DecodeError::BadGeometry, "inconsistent filter geometry"),
        (DecodeError::LengthMismatch, "payload length does not match declared segments"),
        (DecodeError::BadSeed, "seed out of range"),
        (DecodeError::BadChecksum, "checksum mismatch"),
    ];
    for (e, text) in expected {
        assert_eq!(e.message(), text);
        assert_eq!(e.clone(), e);
    }
}
