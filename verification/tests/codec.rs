use pumpkin::bit_set::BitSet;
use pumpkin::ser::{
    read_bool, read_i64_be, read_string, read_u64_be, write_bool, write_i64_be, write_string,
    write_u64_be, ReadingError, WritingError, MAX_STRING_BYTES,
};
use pumpkin::var_int::{read_var_int, write_var_int, VarInt};

fn var_int_bytes(x: i32) -> Vec<u8> {
    let mut out = Vec::new();
    write_var_int(&mut out, &VarInt(x));
    out
}

#[test]
fn var_int_known_encodings() {
    assert_eq!(var_int_bytes(0), vec![0x00]);
    assert_eq!(var_int_bytes(1), vec![0x01]);
    assert_eq!(var_int_bytes(127), vec![0x7f]);
    assert_eq!(var_int_bytes(128), vec![0x80, 0x01]);
    assert_eq!(var_int_bytes(255), vec![0xff, 0x01]);
    assert_eq!(var_int_bytes(25565), vec![0xdd, 0xc7, 0x01]);
    assert_eq!(var_int_bytes(2097151), vec![0xff, 0xff, 0x7f]);
    assert_eq!(var_int_bytes(i32::MAX), vec![0xff, 0xff, 0xff, 0xff, 0x07]);
    assert_eq!(var_int_bytes(-1), vec![0xff, 0xff, 0xff, 0xff, 0x0f]);
    assert_eq!(var_int_bytes(i32::MIN), vec![0x80, 0x80, 0x80, 0x80, 0x08]);
}

#[test]
fn var_int_roundtrip_values() {
    for x in [0, 1, -1, 127, 128, 300, 25565, i32::MAX, i32::MIN, -300] {
        let mut data = vec![9u8];
        write_var_int(&mut data, &VarInt(x));
        data.push(0xaa);
        let (v, p) = read_var_int(&data, 1).unwrap();
        assert_eq!(v, VarInt(x));
        assert_eq!(p, data.len() - 1);
    }
}

#[test]
fn var_int_errors() {
    assert_eq!(read_var_int(&[], 0), Err(ReadingError::Incomplete));
    assert_eq!(read_var_int(&[0x80, 0x80], 0), Err(ReadingError::Incomplete));
    assert_eq!(read_var_int(&[0x80, 0x80, 0x80, 0x80, 0x80, 0x01], 0), Err(ReadingError::TooLarge));
}

#[test]
fn var_int_fifth_byte_high_bits_dropped() {
    // 0xff in the fifth byte carries bits past the 32nd; they are dropped.
    let (v, p) = read_var_int(&[0xff, 0xff, 0xff, 0xff, 0x7f], 0).unwrap();
    assert_eq!(v, VarInt(-1));
    assert_eq!(p, 5);
}

#[test]
fn bool_codec() {
    let mut out = Vec::new();
    write_bool(&mut out, true);
    write_bool(&mut out, false);
    assert_eq!(out, vec![1, 0]);
    assert_eq!(read_bool(&[7], 0), Ok((true, 1)));
    assert_eq!(read_bool(&[0], 0), Ok((false, 1)));
    assert_eq!(read_bool(&[], 0), Err(ReadingError::Incomplete));
}

#[test]
fn longs_are_big_endian() {
    let mut out = Vec::new();
    write_u64_be(&mut out, 0x0102_0304_0506_0708);
    assert_eq!(out, vec![1, 2, 3, 4, 5, 6, 7, 8]);
    assert_eq!(read_u64_be(&out, 0), Ok((0x0102_0304_0506_0708, 8)));
    let mut out = Vec::new();
    write_i64_be(&mut out, -2);
    assert_eq!(out, vec![0xff, 0xff, 0xff, 0xff, 0xff, 0xff, 0xff, 0xfe]);
    assert_eq!(read_i64_be(&out, 0), Ok((-2, 8)));
    assert_eq!(read_u64_be(&out[1..], 0), Err(ReadingError::Incomplete));
}

#[test]
fn strings_roundtrip() {
    let mut out = Vec::new();
    write_string(&mut out, "Steve").unwrap();
    assert_eq!(out, vec![5, b'S', b't', b'e', b'v', b'e']);
    let mut out = Vec::new();
    write_string(&mut out, "héllo").unwrap();
    assert_eq!(out[0], 6);
    let (s, p) = read_string(&out, 0).unwrap();
    assert_eq!(s, "héllo");
    assert_eq!(p, 7);
}

#[test]
fn string_too_long_is_refused() {
    let long = "a".repeat(MAX_STRING_BYTES + 1);
    let mut out = vec![1, 2];
    assert_eq!(write_string(&mut out, &long), Err(WritingError::StringTooLong));
    assert_eq!(out, vec![1, 2]);
    let fits = "a".repeat(MAX_STRING_BYTES);
    assert!(write_string(&mut out, &fits).is_ok());
}

#[test]
fn string_read_errors() {
    assert_eq!(read_string(&[0x02, 0xff, 0xfe], 0), Err(ReadingError::InvalidUtf8));
    assert_eq!(read_string(&[0x05, b'a'], 0), Err(ReadingError::Incomplete));
    assert_eq!(read_string(&[0xff, 0xff, 0x03], 0), Err(ReadingError::TooLarge));
    assert_eq!(read_string(&[0xff, 0xff, 0xff, 0xff, 0x0f], 0), Err(ReadingError::TooLarge));
}

#[test]
fn bit_set_codec_and_bits() {
    let set = BitSet::from_longs(vec![0b101, -1]);
    let mut out = Vec::new();
    set.encode(&mut out);
    assert_eq!(out.len(), 1 + 16);
    assert_eq!(out[0], 2);
    let (back, p) = BitSet::decode(&out, 0).unwrap();
    assert_eq!(back, set);
    assert_eq!(p, 17);
    assert!(set.get_bit(0));
    assert!(!set.get_bit(1));
    assert!(set.get_bit(2));
    assert!(set.get_bit(64));
    assert!(set.get_bit(127));
    assert!(!set.get_bit(128));
    assert_eq!(set.as_u64(), 5);
    assert_eq!(BitSet::from_longs(vec![]).as_u64(), 0);
    assert_eq!(BitSet::from_u64(u64::MAX), BitSet::from_longs(vec![-1]));
}

#[test]
fn bit_set_decode_errors() {
    assert_eq!(BitSet::decode(&[0x7f], 0), Err(ReadingError::Incomplete));
    assert_eq!(BitSet::decode(&[0xff, 0xff, 0xff, 0xff, 0x0f], 0), Err(ReadingError::TooLarge));
    assert_eq!(BitSet::decode(&[0x01, 1, 2, 3], 0), Err(ReadingError::Incomplete));
}
