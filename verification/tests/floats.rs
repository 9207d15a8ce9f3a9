use wrpc_verified::codecs::{
    CanonicalNanF32Codec, CanonicalNanF64Codec, Deferred, CANONICAL_NAN_F32, CANONICAL_NAN_F64,
};

#[test]
fn canonical_nan_f32() {
    let mut enc = CanonicalNanF32Codec::default();

    // A non-canonical (e.g. signalling) `NaN` is canonicalized on encode.
    let mut buf = Vec::new();
    enc.encode(f32::from_bits(0x7f80_0001).to_bits(), &mut buf).unwrap();
    assert_eq!(buf.as_slice(), CANONICAL_NAN_F32.to_le_bytes());

    // A negative `NaN` is canonicalized to the (positive) canonical `NaN`.
    let mut buf = Vec::new();
    enc.encode(f32::from_bits(0xffc0_0000).to_bits(), &mut buf).unwrap();
    assert_eq!(buf.as_slice(), CANONICAL_NAN_F32.to_le_bytes());

    // Non-`NaN` values are encoded unchanged.
    let mut buf = Vec::new();
    enc.encode(1.5_f32.to_bits(), &mut buf).unwrap();
    assert_eq!(buf.as_slice(), 1.5_f32.to_bits().to_le_bytes());
}

#[test]
fn canonical_nan_f64() {
    let mut enc = CanonicalNanF64Codec::default();

    let mut buf = Vec::new();
    enc.encode(f64::from_bits(0x7ff0_0000_0000_0001).to_bits(), &mut buf).unwrap();
    assert_eq!(buf.as_slice(), CANONICAL_NAN_F64.to_le_bytes());

    let mut buf = Vec::new();
    enc.encode(f64::from_bits(0xfff8_0000_0000_0000).to_bits(), &mut buf).unwrap();
    assert_eq!(buf.as_slice(), CANONICAL_NAN_F64.to_le_bytes());

    let mut buf = Vec::new();
    enc.encode(1.5_f64.to_bits(), &mut buf).unwrap();
    assert_eq!(buf.as_slice(), 1.5_f64.to_bits().to_le_bytes());
}

#[test]
fn canonical_nan_edges() {
    let mut enc = CanonicalNanF32Codec;
    for bits in [0x7f80_0000u32, 0xff80_0000, 0, 0x8000_0000, 0x7f7f_ffff] {
        let mut buf = Vec::new();
        enc.encode(bits, &mut buf).unwrap();
        assert_eq!(buf.as_slice(), bits.to_le_bytes(), "{bits:#x} is no NaN");
        assert_eq!(enc.decode(&buf, 0), Ok(Some((bits, 4))));
    }
    assert_eq!(enc.decode(&[1, 2, 3], 0), Ok(None));
    let nan = f32::NAN.to_bits() | 1;
    assert_eq!(enc.decode(&nan.to_le_bytes(), 0), Ok(Some((nan, 4))));
    assert_eq!(enc.take_deferred(), None);
    let mut enc = CanonicalNanF64Codec;
    let mut buf = Vec::new();
    enc.encode(f64::INFINITY.to_bits(), &mut buf).unwrap();
    assert_eq!(enc.decode(&buf, 0), Ok(Some((f64::INFINITY.to_bits(), 8))));
    assert_eq!(enc.take_deferred(), None);
}
