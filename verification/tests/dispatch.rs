use wrpc_verified::codec::input_stream_paths;
use wrpc_verified::nats::handshake_payload_len;
use wrpc_verified::oneshot::{Oneshot, OneshotError};
use wrpc_verified::server::{Handlers, ServeError};
use wrpc_verified::value::{Resource, ResourceKind, Ty, Val};

#[test]
fn handlers_refuse_duplicates() {
    let mut h: Handlers<u32> = Handlers::new();
    assert_eq!(h.get("foo", "bar"), None);
    assert_eq!(h.serve("foo", "bar", 1), Ok(()));
    assert_eq!(h.serve("foo", "baz", 2), Ok(()));
    assert_eq!(h.serve("qux", "bar", 3), Ok(()));
    assert_eq!(h.serve("foo", "bar", 4), Err(ServeError::AlreadyExists));
    assert_eq!(h.get("foo", "bar"), Some(&1));
    assert_eq!(h.get("foo", "baz"), Some(&2));
    assert_eq!(h.get("qux", "bar"), Some(&3));
    assert_eq!(h.get("qux", "baz"), None);
}

#[test]
fn oneshot_is_taken_once() {
    let mut o = Oneshot::from((1u8, "tx"));
    assert_eq!(o.try_take_inner(), Ok((1u8, "tx")));
    assert_eq!(o.try_take_inner(), Err(OneshotError::AlreadyUsed));
    assert_eq!(o.try_take_inner(), Err(OneshotError::AlreadyUsed));
}

#[test]
fn handshake_payload_budget() {
    assert_eq!(handshake_payload_len(100, 20, None, 200), 80);
    assert_eq!(handshake_payload_len(100, 20, None, 30), 30);
    assert_eq!(handshake_payload_len(10, 20, None, 30), 0);
    let headers = vec![("a".to_string(), vec!["bc".to_string(), "d".to_string()])];
    assert_eq!(handshake_payload_len(100, 20, Some(&headers), 200), 55);
    assert_eq!(handshake_payload_len(100, 20, Some(&headers), 40), 40);
    assert_eq!(handshake_payload_len(30, 20, Some(&headers), 40), 0);
    let empty: Vec<(String, Vec<String>)> = vec![];
    assert_eq!(handshake_payload_len(100, 0, Some(&empty), 200), 88);
}

#[test]
fn read_stream_paths() {
    let ty = Ty::Tuple(vec![Ty::U8, Ty::Own(ResourceKind::InputStream)]);
    let v = Val::Tuple(vec![Val::U8(1), Val::Resource(Resource::InputStream)]);
    assert_eq!(input_stream_paths(&[3], &v, &ty), Some(vec![vec![3, 1]]));
    let ty = Ty::List(Box::new(Ty::Option(Box::new(Ty::Own(ResourceKind::InputStream)))));
    let some = || Val::Option(Some(Box::new(Val::Resource(Resource::InputStream))));
    let v = Val::List(vec![some(), Val::Option(None), some()]);
    assert_eq!(input_stream_paths(&[], &v, &ty), Some(vec![vec![0], vec![2]]));
    assert_eq!(input_stream_paths(&[], &Val::U8(1), &ty), None);
    assert_eq!(input_stream_paths(&[0], &Val::U8(1), &Ty::U8), Some(vec![]));
}
