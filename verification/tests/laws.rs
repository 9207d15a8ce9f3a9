use wrpc_verified::conn::IndexTrie;
use wrpc_verified::frame::{Decoder, Encoder, Frame};
use wrpc_verified::handshake::ErrorKind;
use wrpc_verified::{nats, nats_next, zenoh};

#[test]
fn subscribe_definite_path_is_index_path() {
    let path = [3usize, 0, 17];
    let opt: Vec<Option<usize>> = path.iter().map(|&i| Some(i)).collect();
    assert_eq!(nats::subscribe_path("p.results", &opt), nats::index_path("p.results", &path));
    assert_eq!(nats::subscribe_path("", &opt), nats::index_path("", &path));
    assert_eq!(zenoh::subscribe_path("p/results", &opt), zenoh::index_path("p/results", &path));
    assert_eq!(zenoh::subscribe_path("p/results", &[Some(1), None]), "p/results/1/*");
    assert_eq!(nats_next::subsribe_path("p", &opt), nats_next::index_path("p", &path));
}

#[test]
fn index_twice_is_index_once() {
    let a = [1usize, 22];
    let b = [0usize, 5];
    let ab = [a, b].concat();
    assert_eq!(nats::index_path(&nats::index_path("x", &a), &b), nats::index_path("x", &ab));
    assert_eq!(nats::index_path(&nats::index_path("", &a), &b), nats::index_path("", &ab));
    assert_eq!(zenoh::index_path(&zenoh::index_path("k", &a), &b), zenoh::index_path("k", &ab));
    assert_eq!(nats::index_path(&nats::index_path("x", &[]), &b), nats::index_path("x", &b));
}

#[test]
fn distinct_definite_paths_all_insert() {
    let paths: [&[usize]; 5] = [&[], &[0], &[0, 1], &[2, 0], &[1]];
    let mut t: IndexTrie<usize, ()> = IndexTrie::Empty;
    for (i, p) in paths.iter().enumerate() {
        let q: Vec<Option<usize>> = p.iter().map(|&x| Some(x)).collect();
        assert!(t.insert(&q, i, None));
    }
    for (i, p) in paths.iter().enumerate() {
        assert_eq!(t.get_tx(p), Some(i));
        let q: Vec<Option<usize>> = p.iter().map(|&x| Some(x)).collect();
        assert!(!t.insert(&q, 9, None));
    }
}

#[test]
fn decoder_reads_frames_cut_anywhere() {
    let frames = vec![
        Frame { path: vec![], data: b"hello".to_vec() },
        Frame { path: vec![1, 300], data: vec![] },
        Frame { path: vec![7], data: vec![0xff; 200] },
    ];
    let mut stream = Vec::new();
    for f in &frames {
        Encoder.encode_frame(f, &mut stream).unwrap();
    }
    for chunk in [1usize, 2, 3, 7, 64, stream.len()] {
        let mut dec = Decoder::new(32, 1024);
        let mut src = Vec::new();
        let mut out = Vec::new();
        for piece in stream.chunks(chunk) {
            src.extend_from_slice(piece);
            while let Some(f) = dec.decode(&mut src).unwrap() {
                out.push(f);
            }
        }
        assert_eq!(out, frames);
        assert!(src.is_empty());
    }
}

#[test]
fn zenoh_status_kinds() {
    assert_eq!(zenoh::map_status_to_error_kind(" no_responders\n"), Some(ErrorKind::NotConnected));
    assert_eq!(zenoh::map_status_to_error_kind("503"), Some(ErrorKind::NotConnected));
    assert_eq!(zenoh::map_status_to_error_kind("Timeout"), Some(ErrorKind::TimedOut));
    assert_eq!(zenoh::map_status_to_error_kind("\t408 "), Some(ErrorKind::TimedOut));
    assert_eq!(zenoh::map_status_to_error_kind("REQUEST_TERMINATED"), Some(ErrorKind::UnexpectedEof));
    assert_eq!(zenoh::map_status_to_error_kind("409"), None);
    assert_eq!(zenoh::map_status_to_error_kind("5 03"), None);
    assert_eq!(zenoh::trimmed_error_kind(" 503"), None);
}

#[test]
fn subject_byte_lengths_bounded() {
    let path = [usize::MAX, 0, 42];
    let s = nats::index_path("pre", &path);
    assert_eq!(s, format!("pre.{}.0.42", usize::MAX));
    assert!(s.len() <= 3 + 21 * path.len());
    let z = zenoh::subscribe_path("k", &[Some(usize::MAX), None]);
    assert!(z.len() <= 1 + 21 * 2);
    let i = nats::invocation_subject("lattice", "wasi:http/handler", "handle");
    assert!(i.len() <= 7 + 10 + 17 + 6 + 3);
    assert_eq!(nats::index_path(&nats::index_path("x", &path), &[7]), nats::index_path("x", &[usize::MAX, 0, 42, 7]));
}
