use wrpc_verified::leb128::{
    read_i16, read_i32, read_i64, read_u16, read_u32, read_u64, read_u8, write_i16, write_i32,
    write_i64, write_u32, write_u64, Svarint, Varint,
};

fn u32_bytes(x: u32) -> Vec<u8> {
    let mut v = Vec::new();
    write_u32(x, &mut v);
    v
}

fn i64_bytes(x: i64) -> Vec<u8> {
    let mut v = Vec::new();
    write_i64(x, &mut v);
    v
}

#[test]
fn leb_unsigned_examples() {
    assert_eq!(u32_bytes(0), vec![0x00]);
    assert_eq!(u32_bytes(0x7f), vec![0x7f]);
    assert_eq!(u32_bytes(0x80), vec![0x80, 0x01]);
    assert_eq!(u32_bytes(624485), vec![0xe5, 0x8e, 0x26]);
    assert_eq!(u32_bytes(u32::MAX), vec![0xff, 0xff, 0xff, 0xff, 0x0f]);
    let mut v = Vec::new();
    write_u64(u64::MAX, &mut v);
    assert_eq!(v, vec![0xff, 0xff, 0xff, 0xff, 0xff, 0xff, 0xff, 0xff, 0xff, 0x01]);
}

#[test]
fn leb_unsigned_roundtrip() {
    for x in [0u32, 1, 127, 128, 300, 16384, 0xdead_beef, u32::MAX] {
        let mut v = vec![0xaa];
        write_u32(x, &mut v);
        v.push(0x55);
        let len = v.len();
        assert_eq!(read_u32(&v, 1), Varint::Value { value: x as u64, end: len - 1 });
    }
    for x in [0u64, 1, 1 << 35, u64::MAX] {
        let mut v = Vec::new();
        write_u64(x, &mut v);
        assert_eq!(read_u64(&v, 0), Varint::Value { value: x, end: v.len() });
    }
}

#[test]
fn leb_unsigned_edges() {
    assert_eq!(read_u8(&[0xff, 0x01], 0), Varint::Value { value: 255, end: 2 });
    assert_eq!(read_u8(&[0xff, 0x02], 0), Varint::Overflow);
    assert_eq!(read_u16(&[0xff, 0xff, 0x03], 0), Varint::Value { value: 0xffff, end: 3 });
    assert_eq!(read_u16(&[0xff, 0xff, 0x04], 0), Varint::Overflow);
    assert_eq!(read_u32(&[0x80, 0x80], 0), Varint::Incomplete);
    assert_eq!(read_u32(&[], 0), Varint::Incomplete);
    assert_eq!(read_u32(&[0xff, 0xff, 0xff, 0xff, 0x10], 0), Varint::Overflow);
    assert_eq!(read_u32(&[0x80, 0x80, 0x80, 0x80, 0x80, 0x00], 0), Varint::Overflow);
    assert_eq!(read_u64(&[0xff, 0xff, 0xff, 0xff, 0xff, 0xff, 0xff, 0xff, 0xff, 0x02], 0), Varint::Overflow);
}

#[test]
fn leb_signed_examples() {
    assert_eq!(i64_bytes(0), vec![0x00]);
    assert_eq!(i64_bytes(-1), vec![0x7f]);
    assert_eq!(i64_bytes(-64), vec![0x40]);
    assert_eq!(i64_bytes(63), vec![0x3f]);
    assert_eq!(i64_bytes(64), vec![0xc0, 0x00]);
    assert_eq!(i64_bytes(-65), vec![0xbf, 0x7f]);
    assert_eq!(i64_bytes(-123456), vec![0xc0, 0xbb, 0x78]);
    let mut v = Vec::new();
    write_i16(i16::MIN, &mut v);
    assert_eq!(v, vec![0x80, 0x80, 0x7e]);
    let mut v = Vec::new();
    write_i32(i32::MAX, &mut v);
    assert_eq!(v, vec![0xff, 0xff, 0xff, 0xff, 0x07]);
}

#[test]
fn leb_signed_roundtrip() {
    for x in [0i16, 1, -1, 63, -64, 64, -65, i16::MIN, i16::MAX] {
        let mut v = Vec::new();
        write_i16(x, &mut v);
        assert_eq!(read_i16(&v, 0), Svarint::Value { value: x as i64, end: v.len() });
    }
    for x in [0i32, -1, 1000, -1000, i32::MIN, i32::MAX] {
        let mut v = vec![1, 2];
        write_i32(x, &mut v);
        assert_eq!(read_i32(&v, 2), Svarint::Value { value: x as i64, end: v.len() });
    }
    for x in [0i64, -1, i64::MIN, i64::MAX, -123456789012] {
        let mut v = Vec::new();
        write_i64(x, &mut v);
        assert_eq!(read_i64(&v, 0), Svarint::Value { value: x, end: v.len() });
    }
}

#[test]
fn leb_signed_edges() {
    assert_eq!(read_i16(&[0x80], 0), Svarint::Incomplete);
    assert_eq!(read_i16(&[0x80, 0x80, 0x02], 0), Svarint::Overflow);
    assert_eq!(read_i32(&[0x80, 0x80, 0x80, 0x80, 0x80, 0x00], 0), Svarint::Overflow);
    assert_eq!(read_i64(&[0x7f], 0), Svarint::Value { value: -1, end: 1 });
}
