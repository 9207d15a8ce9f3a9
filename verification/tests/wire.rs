use wrpc_verified::wire::{
    read_byte, read_char, read_flag, read_le, read_opt_str, read_opt_u16, read_opt_u32,
    read_opt_u64, read_opt_byte, read_str, read_u16_at, read_u32_at, read_u64_at, write_byte,
    write_char, write_le, write_opt_byte, write_opt_str, write_opt_u16, write_opt_u32,
    write_opt_u64, write_str, CodecError,
};

#[test]
fn wire_byte_and_flag() {
    assert_eq!(read_byte(&[7, 8], 1), Ok(Some((8, 2))));
    assert_eq!(read_byte(&[7], 1), Ok(None));
    assert_eq!(read_flag(&[0], 0), Ok(Some((false, 1))));
    assert_eq!(read_flag(&[1], 0), Ok(Some((true, 1))));
    assert_eq!(read_flag(&[2], 0), Err(CodecError::InvalidByte(2)));
    assert_eq!(read_flag(&[], 0), Ok(None));
    let mut v = Vec::new();
    write_byte(0x42, &mut v);
    assert_eq!(v, vec![0x42]);
}

#[test]
fn wire_varints() {
    assert_eq!(read_u16_at(&[0xff, 0xff, 0x03], 0), Ok(Some((0xffff, 3))));
    assert_eq!(read_u16_at(&[0xff, 0xff, 0x04], 0), Err(CodecError::Overflow));
    assert_eq!(read_u32_at(&[0x80], 0), Ok(None));
    assert_eq!(read_u64_at(&[0x2a, 0x00], 0), Ok(Some((42, 1))));
}

#[test]
fn wire_strings() {
    let mut v = Vec::new();
    assert_eq!(write_str("test", &mut v), Ok(()));
    assert_eq!(v, b"\x04test".to_vec());
    assert_eq!(read_str(&v, 0), Ok(Some(("test".to_string(), 5))));
    assert_eq!(read_str(&v[..3], 0), Ok(None));
    assert_eq!(read_str(&[0x02, 0xff, 0xfe], 0), Err(CodecError::InvalidUtf8));
    let mut v = Vec::new();
    write_str("\x7fƒ𐍈Ő", &mut v).unwrap();
    assert_eq!(v, b"\x09\x7f\xc6\x92\xf0\x90\x8d\x88\xc5\x90".to_vec());
    assert_eq!(read_str(&v, 0), Ok(Some(("\x7fƒ𐍈Ő".to_string(), 10))));
}

#[test]
fn wire_options() {
    let mut v = Vec::new();
    write_opt_str(&Some("ab".to_string()), &mut v).unwrap();
    write_opt_str(&None, &mut v).unwrap();
    assert_eq!(v, vec![1, 2, b'a', b'b', 0]);
    assert_eq!(read_opt_str(&v, 0), Ok(Some((Some("ab".to_string()), 4))));
    assert_eq!(read_opt_str(&v, 4), Ok(Some((None, 5))));
    assert_eq!(read_opt_str(&[3], 0), Err(CodecError::InvalidByte(3)));

    let mut v = Vec::new();
    write_opt_byte(Some(9), &mut v);
    write_opt_u16(Some(300), &mut v);
    write_opt_u32(None, &mut v);
    write_opt_u64(Some(1), &mut v);
    assert_eq!(v, vec![1, 9, 1, 0xac, 0x02, 0, 1, 1]);
    assert_eq!(read_opt_byte(&v, 0), Ok(Some((Some(9), 2))));
    assert_eq!(read_opt_u16(&v, 2), Ok(Some((Some(300), 5))));
    assert_eq!(read_opt_u32(&v, 5), Ok(Some((None, 6))));
    assert_eq!(read_opt_u64(&v, 6), Ok(Some((Some(1), 8))));
    assert_eq!(read_opt_u64(&v, 8), Ok(None));
}

#[test]
fn wire_chars() {
    let mut v = Vec::new();
    write_char('é', &mut v);
    write_char('a', &mut v);
    write_char('𐍈', &mut v);
    assert_eq!(v, vec![0xc3, 0xa9, b'a', 0xf0, 0x90, 0x8d, 0x88]);
    assert_eq!(read_char(&v, 0), Ok(Some(('é', 2))));
    assert_eq!(read_char(&v, 2), Ok(Some(('a', 3))));
    assert_eq!(read_char(&v, 3), Ok(Some(('𐍈', 7))));
    assert_eq!(read_char(&v, 7), Ok(None));
    assert_eq!(read_char(&v[..2], 1), Err(CodecError::InvalidUtf8));
    assert_eq!(read_char(&[0xf0, 0x90], 0), Ok(None));
}

#[test]
fn wire_little_endian() {
    let mut v = Vec::new();
    write_le(0x0102_0304, 4, &mut v);
    assert_eq!(v, vec![4, 3, 2, 1]);
    assert_eq!(read_le(&v, 0, 4), Some((0x0102_0304, 4)));
    assert_eq!(read_le(&v, 1, 4), None);
    let mut v = Vec::new();
    write_le(1.5f64.to_bits(), 8, &mut v);
    assert_eq!(v, 1.5f64.to_le_bytes().to_vec());
    assert_eq!(read_le(&v, 0, 8), Some((1.5f64.to_bits(), 8)));
}
