use wrpc_verified::reader::{chunk_len, ReadBuffer};

#[test]
fn reader_serves_buffer_then_messages() {
    let mut r = ReadBuffer::new(b"hello".to_vec());
    assert_eq!(r.read_buffered(0), Some(vec![]));
    assert_eq!(r.read_buffered(3), Some(b"hel".to_vec()));
    assert_eq!(r.read_buffered(10), Some(b"lo".to_vec()));
    assert_eq!(r.read_buffered(10), None);
    assert_eq!(r.read_message(b"world!".to_vec(), 4), b"worl".to_vec());
    assert_eq!(r.buffer, b"d!".to_vec());
    assert_eq!(r.read_buffered(4), Some(b"d!".to_vec()));
    assert_eq!(r.read_message(vec![], 4), Vec::<u8>::new());
    assert_eq!(r.read_buffered(1), None);
}

#[test]
fn writer_chunks() {
    assert_eq!(chunk_len(10, 0), None);
    assert_eq!(chunk_len(10, 4), Some(4));
    assert_eq!(chunk_len(3, 4), Some(3));
    assert_eq!(chunk_len(0, 4), Some(0));
}

#[test]
fn reader_next_keeps_fitting_buffer() {
    let mut r = ReadBuffer::new(b"hello".to_vec());
    assert_eq!(r.read_buffered_kept(0), Some(vec![]));
    assert_eq!(r.read_buffered_kept(3), Some(b"hel".to_vec()));
    assert_eq!(r.buffer, b"lo".to_vec());
    assert_eq!(r.read_buffered_kept(10), Some(b"lo".to_vec()));
    assert_eq!(r.buffer, b"lo".to_vec());
    assert_eq!(r.read_buffered_kept(2), Some(b"lo".to_vec()));
    let mut e = ReadBuffer::new(vec![]);
    assert_eq!(e.read_buffered_kept(4), None);
}
