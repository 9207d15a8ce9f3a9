use wrpc_verified::blobstore::{ContainerMetadata, ObjectId, ObjectMetadata};
use wrpc_verified::http::{
    DnsErrorPayload, ErrorCode, FieldSizePayload, Method, RequestOptions, Scheme,
    TlsAlertReceivedPayload,
};
use wrpc_verified::wire::CodecError;

fn error_code_bytes(e: ErrorCode) -> Vec<u8> {
    let mut v = Vec::new();
    e.encode_sync(&mut v).unwrap();
    v
}

fn error_code_roundtrip(e: ErrorCode) {
    let v = error_code_bytes(e.clone());
    assert_eq!(ErrorCode::receive(&v, 0), Ok(Some((e, v.len()))));
}

#[test]
fn http_method_encoding() {
    let mut v = Vec::new();
    Method::Get.encode_sync(&mut v).unwrap();
    Method::Patch.encode_sync(&mut v).unwrap();
    Method::Other("PURGE".to_string()).encode_sync(&mut v).unwrap();
    assert_eq!(v, b"\x00\x08\x09\x05PURGE".to_vec());
    assert_eq!(Method::receive(&v, 0), Ok(Some((Method::Get, 1))));
    assert_eq!(Method::receive(&v, 1), Ok(Some((Method::Patch, 2))));
    assert_eq!(Method::receive(&v, 2), Ok(Some((Method::Other("PURGE".to_string()), v.len()))));
    assert_eq!(Method::receive(&[10], 0), Err(CodecError::UnknownDiscriminant(10)));
    assert_eq!(Method::receive(&[9, 5, b'P'], 0), Ok(None));
}

#[test]
fn http_scheme_encoding() {
    let mut v = Vec::new();
    Scheme::HTTP.encode_sync(&mut v).unwrap();
    Scheme::HTTPS.encode_sync(&mut v).unwrap();
    Scheme::Other("ws".to_string()).encode_sync(&mut v).unwrap();
    assert_eq!(v, b"\x00\x01\x02\x02ws".to_vec());
    assert_eq!(Scheme::receive(&v, 2), Ok(Some((Scheme::Other("ws".to_string()), v.len()))));
    assert_eq!(Scheme::receive(&[3], 0), Err(CodecError::UnknownDiscriminant(3)));
}

#[test]
fn http_error_code_exact_bytes() {
    assert_eq!(error_code_bytes(ErrorCode::DnsTimeout), vec![0]);
    assert_eq!(
        error_code_bytes(ErrorCode::DnsError(DnsErrorPayload {
            rcode: Some("x".to_string()),
            info_code: None,
        })),
        vec![1, 1, 1, b'x', 0]
    );
    assert_eq!(error_code_bytes(ErrorCode::HttpRequestBodySize(Some(5))), vec![17, 1, 5]);
    assert_eq!(error_code_bytes(ErrorCode::HttpRequestBodySize(None)), vec![17, 0]);
    assert_eq!(error_code_bytes(ErrorCode::InternalError(Some("e".to_string()))), vec![38, 1, 1, b'e']);
    assert_eq!(ErrorCode::receive(&[39], 0), Err(CodecError::UnknownDiscriminant(39)));
    assert_eq!(ErrorCode::receive(&[17, 2], 0), Err(CodecError::InvalidByte(2)));
    assert_eq!(ErrorCode::receive(&[17, 1], 0), Ok(None));
}

#[test]
fn http_error_code_roundtrips() {
    error_code_roundtrip(ErrorCode::ConnectionRefused);
    error_code_roundtrip(ErrorCode::TlsAlertReceived(TlsAlertReceivedPayload {
        alert_id: Some(40),
        alert_message: Some("handshake".to_string()),
    }));
    error_code_roundtrip(ErrorCode::HttpRequestHeaderSize(Some(FieldSizePayload {
        field_name: Some("cookie".to_string()),
        field_size: Some(70000),
    })));
    error_code_roundtrip(ErrorCode::HttpRequestHeaderSize(None));
    error_code_roundtrip(ErrorCode::HttpResponseTrailerSize(FieldSizePayload {
        field_name: None,
        field_size: None,
    }));
    error_code_roundtrip(ErrorCode::HttpResponseContentCoding(Some("gzip".to_string())));
    error_code_roundtrip(ErrorCode::ConfigurationError);
}

#[test]
fn http_request_options() {
    let o = RequestOptions {
        connect_timeout: Some(1_000_000_000),
        first_byte_timeout: None,
        between_bytes_timeout: Some(0),
    };
    let mut v = Vec::new();
    o.encode_sync(&mut v).unwrap();
    assert_eq!(v, vec![1, 0x80, 0x94, 0xeb, 0xdc, 0x03, 0, 1, 0]);
    assert_eq!(RequestOptions::receive(&v, 0), Ok(Some((o, v.len()))));
    assert_eq!(RequestOptions::default(), RequestOptions {
        connect_timeout: None,
        first_byte_timeout: None,
        between_bytes_timeout: None,
    });
}

#[test]
fn blobstore_metadata() {
    let mut v = Vec::new();
    ContainerMetadata { created_at: 300 }.encode(&mut v).unwrap();
    assert_eq!(v, vec![0xac, 0x02]);
    assert_eq!(ContainerMetadata::receive(&v, 0), Ok(Some((ContainerMetadata { created_at: 300 }, 2))));
    let m = ObjectMetadata { created_at: 1, size: 128 };
    let mut v = Vec::new();
    m.encode(&mut v).unwrap();
    assert_eq!(v, vec![1, 0x80, 0x01]);
    assert_eq!(ObjectMetadata::receive(&v, 0), Ok(Some((m, 3))));
    assert_eq!(ObjectMetadata::receive(&v[..2], 0), Ok(None));
}

#[test]
fn blobstore_object_id() {
    let id = ObjectId { container: "box".to_string(), object: "a.txt".to_string() };
    let mut v = Vec::new();
    id.clone().encode(&mut v).unwrap();
    assert_eq!(v, b"\x03box\x05a.txt".to_vec());
    assert_eq!(ObjectId::receive(&v, 0), Ok(Some((id, v.len()))));
    assert_eq!(ObjectId::receive(&[1, 0xff, 0], 0), Err(CodecError::InvalidUtf8));
}

#[test]
fn http_names() {
    assert_eq!(Method::from_name("GET"), Method::Get);
    assert_eq!(Method::from_name("PATCH"), Method::Patch);
    assert_eq!(Method::from_name("OPTIONS"), Method::Options);
    assert_eq!(Method::from_name("get"), Method::Other("get".to_string()));
    assert_eq!(Method::from_name("PURGE"), Method::Other("PURGE".to_string()));
    assert_eq!(Scheme::from_name("http"), Scheme::HTTP);
    assert_eq!(Scheme::from_name("https"), Scheme::HTTPS);
    assert_eq!(Scheme::from_name("HTTPS"), Scheme::Other("HTTPS".to_string()));
}
