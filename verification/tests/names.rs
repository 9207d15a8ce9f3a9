use wrpc_verified::frame::{encode_invocation, index_path, FrameError};
use wrpc_verified::introspect::{async_paths_ty, async_paths_tyid, flag_repr, rpc_func_name, FunctionKind, Int, WitType};
use wrpc_verified::runtime;

#[test]
fn introspect_flag_repr() {
    assert_eq!(flag_repr(0), Int::U8);
    assert_eq!(flag_repr(8), Int::U8);
    assert_eq!(flag_repr(9), Int::U16);
    assert_eq!(flag_repr(16), Int::U16);
    assert_eq!(flag_repr(17), Int::U32);
    assert_eq!(flag_repr(32), Int::U32);
    assert_eq!(flag_repr(33), Int::U64);
    assert_eq!(flag_repr(200), Int::U64);
}

#[test]
fn introspect_rpc_func_name() {
    assert_eq!(rpc_func_name(FunctionKind::Constructor, "[constructor]res", "res"), "res");
    assert_eq!(rpc_func_name(FunctionKind::Static, "[static]res.make", "make"), "res.make");
    assert_eq!(rpc_func_name(FunctionKind::Method, "[method]res.get", "get"), "get");
    assert_eq!(rpc_func_name(FunctionKind::Freestanding, "hello", "hello"), "hello");
}

#[test]
fn runtime_rpc_func_name() {
    assert_eq!(runtime::rpc_func_name("[constructor]counter"), "counter");
    assert_eq!(runtime::rpc_func_name("[static]counter.zero"), "counter.zero");
    assert_eq!(runtime::rpc_func_name("[method]counter.inc"), "counter.inc");
    assert_eq!(runtime::rpc_func_name("plain"), "plain");
    assert_eq!(runtime::rpc_func_name("[method"), "[method");
}

fn sorted(mut v: Vec<Vec<Option<u32>>>) -> Vec<Vec<Option<u32>>> {
    v.sort();
    v
}

#[test]
fn introspect_async_paths() {
    let stream = WitType::Stream(Some(Box::new(WitType::Plain)));
    assert_eq!(async_paths_ty(&WitType::Plain), (vec![], false));
    assert_eq!(async_paths_ty(&stream), (vec![], true));
    let (p, f) = async_paths_tyid(&WitType::Tuple(vec![
        WitType::Plain,
        WitType::Future(None),
        WitType::List(Box::new(WitType::Stream(None))),
    ]));
    assert!(!f);
    assert_eq!(p.clone(), sorted(p.clone()));
    assert_eq!(p, vec![vec![Some(1)], vec![Some(2), None]]);
    let (p, f) = async_paths_ty(&WitType::Option(Box::new(WitType::Record(vec![WitType::Plain, WitType::Future(None)]))));
    assert!(!f);
    assert_eq!(p, vec![vec![Some(1)]]);
    let (p, _) = async_paths_ty(&WitType::Tuple(vec![
        WitType::Stream(Some(Box::new(WitType::Future(None)))),
        WitType::Future(None),
        WitType::List(Box::new(WitType::Future(None))),
    ]));
    assert_eq!(p, vec![vec![Some(0)], vec![Some(0), None], vec![Some(1)], vec![Some(2), None]]);
    let (p, f) = async_paths_ty(&WitType::Variant(vec![None, Some(stream)]));
    assert!(f);
    assert_eq!(p, Vec::<Vec<Option<u32>>>::new());
}

#[test]
fn frame_invocation_bytes() {
    let mut buf = vec![0xff];
    encode_invocation(&mut buf, "foo", "bar", b"\x01\x02").unwrap();
    assert_eq!(buf, b"\xff\x00\x03foo\x03bar\x00\x02\x01\x02".to_vec());
}

#[test]
fn frame_index_path() {
    assert_eq!(index_path(&[1], &[2, 300]), Ok((vec![1, 2, 300], vec![3, 1, 2, 0xac, 0x02])));
    assert_eq!(index_path(&[], &[42]), Ok((vec![42], vec![1, 42])));
    assert_eq!(index_path(&[1], &[]), Err(FrameError::EmptyPath));
}
