use wrpc_verified::fields::{read_fields, try_header_map_to_fields, write_fields};
use wrpc_verified::http::{Method, Scheme};
use wrpc_verified::message::{RequestHead, ResponseHead};
use wrpc_verified::wire::CodecError;

fn fields() -> Vec<(String, Vec<Vec<u8>>)> {
    vec![
        ("content-type".to_string(), vec![b"text/plain".to_vec()]),
        ("x-multi".to_string(), vec![b"a".to_vec(), vec![], vec![0xff, 0x00]]),
        ("empty".to_string(), vec![]),
    ]
}

#[test]
fn fields_bytes_and_roundtrip() {
    let mut v = Vec::new();
    write_fields(&vec![("k".to_string(), vec![b"v".to_vec(), b"w".to_vec()])], &mut v).unwrap();
    assert_eq!(v, vec![1, 1, b'k', 2, 1, b'v', 1, b'w']);
    let mut v = vec![7];
    write_fields(&fields(), &mut v).unwrap();
    v.push(9);
    assert_eq!(read_fields(&v, 1), Ok(Some((fields(), v.len() - 1))));
    assert_eq!(read_fields(&v[..v.len() - 3], 1), Ok(None));
    assert_eq!(read_fields(&[0], 0), Ok(Some((vec![], 1))));
    assert_eq!(read_fields(&[1, 1, 0xff, 0], 0), Err(CodecError::InvalidUtf8));
}

#[test]
fn request_head_bytes() {
    let head = RequestHead {
        method: Method::Get,
        path_with_query: Some("/a".to_string()),
        scheme: Some(Scheme::HTTPS),
        authority: None,
        headers: vec![("host".to_string(), vec![b"x".to_vec()])],
    };
    let mut v = vec![0xaa];
    head.encode(&mut v).unwrap();
    assert_eq!(
        v,
        vec![0xaa, 0, 0, 0, 1, 2, b'/', b'a', 1, 1, 0, 1, 4, b'h', b'o', b's', b't', 1, 1, b'x']
    );
    let head = RequestHead {
        method: Method::Other("BREW".to_string()),
        path_with_query: None,
        scheme: Some(Scheme::Other("coap".to_string())),
        authority: Some("pot".to_string()),
        headers: vec![],
    };
    let mut v = Vec::new();
    head.encode(&mut v).unwrap();
    assert_eq!(v, b"\x00\x00\x09\x04BREW\x00\x01\x02\x04coap\x01\x03pot\x00".to_vec());
}

#[test]
fn response_head_bytes() {
    let mut v = Vec::new();
    ResponseHead { status: 200, headers: vec![] }.encode(&mut v).unwrap();
    assert_eq!(v, vec![0, 0, 0xc8, 0x01, 0]);
    let mut v = Vec::new();
    ResponseHead { status: 404, headers: fields() }.encode(&mut v).unwrap();
    assert_eq!(&v[..4], &[0, 0, 0x94, 0x03]);
    assert_eq!(read_fields(&v, 4), Ok(Some((fields(), v.len()))));
}

#[test]
fn header_map_entries_to_fields() {
    let items = vec![
        (Some("accept".to_string()), b"a".to_vec()),
        (None, b"b".to_vec()),
        (Some("host".to_string()), b"h".to_vec()),
        (None, b"i".to_vec()),
        (None, vec![]),
    ];
    assert_eq!(
        try_header_map_to_fields(items),
        Some(vec![
            ("accept".to_string(), vec![b"a".to_vec(), b"b".to_vec()]),
            ("host".to_string(), vec![b"h".to_vec(), b"i".to_vec(), vec![]]),
        ])
    );
    assert_eq!(try_header_map_to_fields(vec![(None, b"x".to_vec())]), None);
    assert_eq!(try_header_map_to_fields(vec![]), Some(vec![]));
}
