use wrpc_verified::codec::{read_value, ValEncoder};
use wrpc_verified::codecs::{Deferred, ResourceEncoder, SyncCodec, UnitCodec};
use wrpc_verified::value::{Resource, ResourceKind, Ty, Val};
use wrpc_verified::wire::CodecError;

fn encode(ty: &Ty, v: &Val) -> Result<Vec<u8>, CodecError> {
    let mut enc = ValEncoder::new(ty);
    let mut buf = Vec::new();
    enc.encode(v, &mut buf)?;
    Ok(buf)
}

fn roundtrip(ty: &Ty, v: Val) {
    let mut buf = vec![0xee];
    let mut enc = ValEncoder::new(ty);
    enc.encode(&v, &mut buf).unwrap();
    buf.push(0x99);
    let len = buf.len();
    assert_eq!(read_value(&buf, 1, ty), Ok(Some((v, len - 1))));
}

#[test]
fn value_codec() {
    let ty = Ty::Tuple(vec![Ty::U8, Ty::U32]);
    let mut buf = Vec::new();
    let mut enc = ValEncoder::new(&ty);
    enc.encode(&Val::Tuple(vec![Val::U8(0x42), Val::U32(0x42)]), &mut buf).unwrap();
    assert!(Deferred::take_deferred(&mut enc).is_none(), "no deferred write should have been returned");
    assert_eq!(buf.as_slice(), b"\x42\x42");
}

#[test]
fn value_scalar_bytes() {
    assert_eq!(encode(&Ty::Bool, &Val::Bool(true)), Ok(vec![1]));
    assert_eq!(encode(&Ty::S8, &Val::S8(-1)), Ok(vec![0xff]));
    assert_eq!(encode(&Ty::S16, &Val::S16(-64)), Ok(vec![0x40]));
    assert_eq!(encode(&Ty::U16, &Val::U16(300)), Ok(vec![0xac, 0x02]));
    assert_eq!(encode(&Ty::S64, &Val::S64(64)), Ok(vec![0xc0, 0x00]));
    assert_eq!(encode(&Ty::Float32, &Val::Float32(1.5f32.to_bits())), Ok(1.5f32.to_le_bytes().to_vec()));
    assert_eq!(encode(&Ty::Float64, &Val::Float64(2.0f64.to_bits())), Ok(2.0f64.to_le_bytes().to_vec()));
    assert_eq!(encode(&Ty::Char, &Val::Char('é')), Ok(vec![0xc3, 0xa9]));
    assert_eq!(encode(&Ty::String, &Val::String("hi".to_string())), Ok(vec![2, b'h', b'i']));
    assert_eq!(encode(&Ty::U8, &Val::Bool(true)), Err(CodecError::TypeMismatch));
}

#[test]
fn value_compound_bytes() {
    let list = Ty::List(Box::new(Ty::U16));
    assert_eq!(encode(&list, &Val::List(vec![Val::U16(1), Val::U16(128)])), Ok(vec![2, 1, 0x80, 0x01]));
    let opt = Ty::Option(Box::new(Ty::Bool));
    assert_eq!(encode(&opt, &Val::Option(None)), Ok(vec![0]));
    assert_eq!(encode(&opt, &Val::Option(Some(Box::new(Val::Bool(false))))), Ok(vec![1, 0]));
    let res = Ty::Result(Some(Box::new(Ty::U8)), None);
    assert_eq!(encode(&res, &Val::Result(Ok(Some(Box::new(Val::U8(7)))))), Ok(vec![0, 7]));
    assert_eq!(encode(&res, &Val::Result(Err(None))), Ok(vec![1]));
    assert_eq!(encode(&res, &Val::Result(Ok(None))), Err(CodecError::TypeMismatch));
    let var = Ty::Variant(vec![("a".to_string(), None), ("b".to_string(), Some(Ty::U8))]);
    assert_eq!(encode(&var, &Val::Variant("b".to_string(), Some(Box::new(Val::U8(3))))), Ok(vec![1, 3]));
    assert_eq!(encode(&var, &Val::Variant("c".to_string(), None)), Err(CodecError::UnknownName));
    assert_eq!(encode(&var, &Val::Variant("a".to_string(), Some(Box::new(Val::U8(3))))), Err(CodecError::TypeMismatch));
    let en = Ty::Enum(vec!["x".to_string(), "y".to_string(), "z".to_string()]);
    assert_eq!(encode(&en, &Val::Enum("z".to_string())), Ok(vec![2]));
    assert_eq!(encode(&en, &Val::Enum("w".to_string())), Err(CodecError::UnknownName));
    let rec = Ty::Record(vec![("f".to_string(), Ty::String), ("g".to_string(), Ty::U8)]);
    assert_eq!(
        encode(&rec, &Val::Record(vec![("f".to_string(), Val::String("".to_string())), ("g".to_string(), Val::U8(5))])),
        Ok(vec![0, 5])
    );
}

#[test]
fn value_flags_bytes() {
    let names: Vec<String> = (0..10).map(|i| format!("f{i}")).collect();
    let ty = Ty::Flags(names);
    assert_eq!(encode(&ty, &Val::Flags(vec![])), Ok(vec![0, 0]));
    assert_eq!(
        encode(&ty, &Val::Flags(vec!["f0".to_string(), "f3".to_string(), "f9".to_string()])),
        Ok(vec![0b0000_1001, 0b0000_0010])
    );
    let small = Ty::Flags(vec!["a".to_string(), "b".to_string()]);
    assert_eq!(encode(&small, &Val::Flags(vec!["b".to_string()])), Ok(vec![2]));
    roundtrip(&ty, Val::Flags(vec!["f1".to_string(), "f8".to_string()]));
}

#[test]
fn value_resources() {
    let guest = Ty::Own(ResourceKind::Guest);
    let handle: Vec<u8> = (0..16).collect();
    let bytes = encode(&guest, &Val::Resource(Resource::Handle(handle.clone()))).unwrap();
    assert_eq!(bytes[0], 16);
    assert_eq!(&bytes[1..], handle.as_slice());
    roundtrip(&guest, Val::Resource(Resource::Handle(handle)));
    assert_eq!(read_value(&[3, 1, 2, 3], 0, &guest), Err(CodecError::InvalidHandle));

    let remote = Ty::Borrow(ResourceKind::Remote);
    assert_eq!(
        read_value(&[2, 9, 8, 7], 0, &remote),
        Ok(Some((Val::Resource(Resource::Handle(vec![9, 8, 7])), 4)))
    );

    let borrowed = Ty::Borrow(ResourceKind::InputStream);
    assert_eq!(encode(&borrowed, &Val::Resource(Resource::InputStream)), Err(CodecError::Unsupported));
    let borrowed_guest = Ty::Borrow(ResourceKind::Guest);
    assert_eq!(encode(&borrowed_guest, &Val::Resource(Resource::Handle(vec![7; 16]))).map(|b| b.len()), Ok(17));
    let stream = Ty::Own(ResourceKind::InputStream);
    assert_eq!(encode(&stream, &Val::Resource(Resource::InputStream)), Ok(vec![]));
    assert_eq!(encode(&stream, &Val::Resource(Resource::Handle(vec![1]))), Err(CodecError::TypeMismatch));
}

#[test]
fn value_input_stream_paths_are_deferred() {
    let ty = Ty::Tuple(vec![
        Ty::U8,
        Ty::List(Box::new(Ty::Own(ResourceKind::InputStream))),
    ]);
    let v = Val::Tuple(vec![
        Val::U8(1),
        Val::List(vec![Val::Resource(Resource::InputStream), Val::Resource(Resource::InputStream)]),
    ]);
    let mut enc = ValEncoder::new(&ty);
    let mut buf = Vec::new();
    enc.encode(&v, &mut buf).unwrap();
    assert_eq!(buf, vec![1, 2]);
    assert_eq!(enc.take_deferred(), Some(vec![vec![1, 0], vec![1, 1]]));
    assert_eq!(enc.take_deferred(), None);
}

#[test]
fn value_failed_encode_keeps_earlier_parts() {
    let ty = Ty::Tuple(vec![Ty::U8, Ty::Bool]);
    let mut enc = ValEncoder::new(&ty);
    let mut buf = vec![5];
    assert_eq!(enc.encode(&Val::Tuple(vec![Val::U8(1), Val::U8(2)]), &mut buf), Err(CodecError::TypeMismatch));
    assert_eq!(buf, vec![5, 1]);
    assert!(enc.deferred.is_none());

    let ty = Ty::List(Box::new(Ty::U8));
    let mut enc = ValEncoder::new(&ty);
    let mut buf = Vec::new();
    let v = Val::List(vec![Val::U8(7), Val::Bool(true), Val::U8(9)]);
    assert_eq!(enc.encode(&v, &mut buf), Err(CodecError::TypeMismatch));
    assert_eq!(buf, vec![3, 7]);

    let ty = Ty::Variant(vec![("a".to_string(), None), ("b".to_string(), None)]);
    let mut enc = ValEncoder::new(&ty);
    let mut buf = Vec::new();
    let v = Val::Variant("b".to_string(), Some(Box::new(Val::U8(1))));
    assert_eq!(enc.encode(&v, &mut buf), Err(CodecError::TypeMismatch));
    assert_eq!(buf, vec![1]);

    let ty = Ty::Option(Box::new(Ty::String));
    let mut enc = ValEncoder::new(&ty);
    let mut buf = Vec::new();
    assert_eq!(enc.encode(&Val::Option(Some(Box::new(Val::U8(1)))), &mut buf), Err(CodecError::TypeMismatch));
    assert_eq!(buf, vec![1]);

    let ty = Ty::Result(Some(Box::new(Ty::U8)), None);
    let mut enc = ValEncoder::new(&ty);
    let mut buf = Vec::new();
    assert_eq!(enc.encode(&Val::Result(Ok(None)), &mut buf), Err(CodecError::TypeMismatch));
    assert_eq!(buf, Vec::<u8>::new());
    assert_eq!(enc.encode(&Val::U8(1), &mut buf), Err(CodecError::TypeMismatch));
    assert_eq!(buf, Vec::<u8>::new());
}

#[test]
fn value_nested_roundtrips() {
    let ty = Ty::Record(vec![
        ("name".to_string(), Ty::String),
        ("tags".to_string(), Ty::List(Box::new(Ty::Char))),
        ("score".to_string(), Ty::Option(Box::new(Ty::S32))),
        ("state".to_string(), Ty::Result(Some(Box::new(Ty::U64)), Some(Box::new(Ty::Enum(vec!["bad".to_string()]))))),
    ]);
    roundtrip(&ty, Val::Record(vec![
        ("name".to_string(), Val::String("wrpc".to_string())),
        ("tags".to_string(), Val::List(vec![Val::Char('a'), Val::Char('𐍈')])),
        ("score".to_string(), Val::Option(Some(Box::new(Val::S32(-70000))))),
        ("state".to_string(), Val::Result(Err(Some(Box::new(Val::Enum("bad".to_string())))))),
    ]));
    roundtrip(&Ty::Float64, Val::Float64(f64::NAN.to_bits()));
    roundtrip(&Ty::S8, Val::S8(-128));
}

#[test]
fn value_read_errors() {
    assert_eq!(read_value(&[2], 0, &Ty::Bool), Err(CodecError::InvalidByte(2)));
    assert_eq!(read_value(&[1], 0, &Ty::Enum(vec!["a".to_string()])), Err(CodecError::UnknownDiscriminant(1)));
    assert_eq!(read_value(&[3, b'a'], 0, &Ty::String), Ok(None));
    assert_eq!(read_value(&[], 0, &Ty::Tuple(vec![])), Ok(Some((Val::Tuple(vec![]), 0))));
}

#[test]
fn value_fixed_codecs() {
    let mut u = UnitCodec;
    let mut buf = vec![1];
    assert_eq!(u.encode((), &mut buf), Ok(()));
    assert_eq!(buf, vec![1]);
    assert_eq!(u.decode(&buf, 1), Ok(Some(((), 1))));
    assert_eq!(u.take_deferred(), None);
    let mut r = ResourceEncoder;
    let mut buf = Vec::new();
    r.encode(b"abc", &mut buf).unwrap();
    assert_eq!(buf, b"\x03abc".to_vec());
    assert_eq!(r.take_deferred(), None);
    let mut s = SyncCodec(7u8);
    assert_eq!(s.take_deferred(), None);
}
