use rsllm::gguf::error::Error;
use rsllm::gguf::reader::Reader;

#[test]
fn read_u32_le_basic() {
    let mut r = Reader::new(&[0x78, 0x56, 0x34, 0x12]);
    assert_eq!(r.read_u32_le().unwrap(), 0x1234_5678);
    assert_eq!(r.pos(), 4);
    assert_eq!(r.remaining(), 0);
}

#[test]
fn read_u64_le_basic() {
    let mut r = Reader::new(&[1, 2, 3, 4, 5, 6, 7, 8]);
    let v = r.read_u64_le().unwrap();
    assert_eq!(v, 0x0807_0605_0403_0201);
}

#[test]
fn read_str_basic() {
    // length = 5, "hello"
    let mut data = vec![5, 0, 0, 0, 0, 0, 0, 0];
    data.extend_from_slice(b"hello");
    let mut r = Reader::new(&data);
    assert_eq!(r.read_str().unwrap(), "hello");
    assert_eq!(r.pos(), 13);
}

#[test]
fn truncated_read_reports_error() {
    let mut r = Reader::new(&[1, 2]);
    match r.read_u32_le() {
        Err(Error::Truncated { pos, need, have }) => {
            assert_eq!(pos, 0);
            assert_eq!(need, 4);
            assert_eq!(have, 2);
        }
        other => panic!("expected Truncated, got {other:?}"),
    }
}

#[test]
fn invalid_utf8_string_reports_error() {
    // length = 2, then invalid UTF-8 bytes
    let mut data = vec![2, 0, 0, 0, 0, 0, 0, 0];
    data.extend_from_slice(&[0xFF, 0xFE]);
    let mut r = Reader::new(&data);
    match r.read_str() {
        Err(Error::InvalidUtf8(off)) => assert_eq!(off, 0),
        other => panic!("expected InvalidUtf8, got {other:?}"),
    }
}

#[test]
fn read_bool_basic() {
    let mut r = Reader::new(&[0, 1]);
    assert!(!r.read_bool().unwrap());
    assert!(r.read_bool().unwrap());
}

#[test]
fn read_bool_rejects_non_canonical_byte() {
    let mut r = Reader::new(&[2]);
    match r.read_bool() {
        Err(Error::InvalidBool(2)) => {}
        other => panic!("expected InvalidBool(2), got {other:?}"),
    }
}

#[test]
fn read_f32_le_basic() {
    // 1.0_f32 in little-endian = 0x3f80_0000
    let mut r = Reader::new(&[0x00, 0x00, 0x80, 0x3f]);
    assert_eq!(f32::from_bits(r.read_f32_le().unwrap()), 1.0_f32);
}

#[test]
fn seek_and_resume() {
    let mut r = Reader::new(&[0, 0, 0, 0, 0x78, 0x56, 0x34, 0x12]);
    r.seek(4).unwrap();
    assert_eq!(r.read_u32_le().unwrap(), 0x1234_5678);
}

#[test]
fn seek_past_end_errors() {
    let mut r = Reader::new(&[1, 2, 3]);
    assert!(r.seek(99).is_err());
}

#[test]
fn every_width_is_little_endian() {
    let bytes = [0x01, 0x80, 0x02, 0x80, 0x03, 0x00, 0x00, 0x80];
    assert_eq!(Reader::new(&bytes).read_u8().unwrap(), 1);
    assert_eq!(Reader::new(&bytes[1..]).read_i8().unwrap(), -128);
    assert_eq!(Reader::new(&bytes).read_u16_le().unwrap(), 0x8001);
    assert_eq!(Reader::new(&bytes).read_i16_le().unwrap(), -0x7FFF);
    assert_eq!(Reader::new(&bytes[4..]).read_i32_le().unwrap(), -0x7FFF_FFFD);
    assert_eq!(Reader::new(&bytes).read_i64_le().unwrap(), i64::from_le_bytes(bytes));
    let double = 1.5f64.to_le_bytes();
    assert_eq!(f64::from_bits(Reader::new(&double).read_f64_le().unwrap()), 1.5);
}

#[test]
fn skipping_moves_on() {
    let mut r = Reader::new(&[1, 2, 3]);
    r.skip(2).unwrap();
    assert_eq!(r.read_u8().unwrap(), 3);
    assert_eq!(r.skip(1), Err(Error::Truncated { pos: 3, need: 1, have: 0 }));
}

#[test]
fn text_beyond_the_end_is_truncated() {
    let mut data = 4u64.to_le_bytes().to_vec();
    data.extend_from_slice(b"abc");
    let mut r = Reader::new(&data);
    assert_eq!(r.read_str(), Err(Error::Truncated { pos: 8, need: 4, have: 3 }));
}

#[test]
fn text_of_several_bytes_a_character() {
    let mut data = 6u64.to_le_bytes().to_vec();
    data.extend_from_slice("é中x".as_bytes());
    let mut r = Reader::new(&data);
    assert_eq!(r.read_str().unwrap(), "é中x");
    assert_eq!(r.remaining(), 0);
}
