use wrpc_verified::pack::{has_input_stream, pack, unpack, PackError};
use wrpc_verified::value::{Resource, ResourceKind, Ty, Val};
use wrpc_verified::wire::CodecError;

#[test]
fn pack_and_unpack() {
    let ty = Ty::Tuple(vec![Ty::String, Ty::Option(Box::new(Ty::U32))]);
    let v = Val::Tuple(vec![Val::String("hi".to_string()), Val::Option(Some(Box::new(Val::U32(300))))]);
    let mut buf = Vec::new();
    pack(&ty, &v, &mut buf).unwrap();
    assert_eq!(buf, vec![2, b'h', b'i', 1, 0xac, 0x02]);
    buf.push(0xff);
    assert_eq!(unpack(&ty, &buf), Ok((v, 6)));
    assert_eq!(unpack(&ty, &buf[..3]), Err(PackError::Incomplete));
    assert_eq!(unpack(&Ty::Bool, &[7]), Err(PackError::Codec(CodecError::InvalidByte(7))));
}

#[test]
fn pack_refuses_streams() {
    let ty = Ty::List(Box::new(Ty::Own(ResourceKind::InputStream)));
    let v = Val::List(vec![Val::Resource(Resource::InputStream)]);
    assert!(has_input_stream(&v));
    let mut buf = Vec::new();
    assert_eq!(pack(&ty, &v, &mut buf), Err(PackError::Pending));
    assert_eq!(buf, vec![1]);
    assert_eq!(unpack(&ty, &buf), Err(PackError::Pending));
    let mut buf = vec![9];
    assert_eq!(pack(&Ty::U8, &Val::Bool(true), &mut buf), Err(PackError::Codec(CodecError::TypeMismatch)));
    assert_eq!(buf, vec![9]);
    let ty = Ty::Option(Box::new(Ty::U8));
    assert_eq!(pack(&ty, &Val::Option(Some(Box::new(Val::Bool(true)))), &mut buf), Err(PackError::Codec(CodecError::TypeMismatch)));
    assert_eq!(buf, vec![9, 1]);
    assert!(!has_input_stream(&Val::Record(vec![("a".to_string(), Val::Resource(Resource::Handle(vec![])))])));
    assert!(has_input_stream(&Val::Record(vec![("a".to_string(), Val::Resource(Resource::InputStream))])));
    assert!(has_input_stream(&Val::Result(Err(Some(Box::new(Val::Tuple(vec![Val::Resource(Resource::InputStream)])))))));
}
