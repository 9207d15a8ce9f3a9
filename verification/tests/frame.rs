use wrpc_verified::frame::{Decoder, Encoder, Frame, FrameError, FrameRef};

fn frame(path: &[usize], data: &[u8]) -> Frame {
    Frame {
        path: path.to_vec(),
        data: data.to_vec(),
    }
}

#[test]
fn frame_codec() {
    let mut tx = vec![];
    let mut enc = Encoder;
    enc.encode_frame(&frame(&[0, 1, 2], b"test"), &mut tx).unwrap();
    enc.encode(
        FrameRef {
            path: &[],
            data: b"",
        },
        &mut tx,
    )
    .unwrap();
    enc.encode(
        FrameRef {
            path: &[0x42],
            data: "\x7fƒ𐍈Ő".as_bytes(),
        },
        &mut tx,
    )
    .unwrap();
    let mut expected: Vec<u8> = vec![];
    expected.extend_from_slice(b"\x03\x00\x01\x02\x04test");
    expected.extend_from_slice(b"\x00\x00");
    expected.extend_from_slice(b"\x01\x42\x09");
    expected.extend_from_slice("\x7fƒ𐍈Ő".as_bytes());
    assert_eq!(tx, expected);

    let mut rx = Decoder::default();
    let mut src = tx.clone();
    let s = rx.decode(&mut src).unwrap();
    assert_eq!(s, Some(frame(&[0, 1, 2], b"test")));
    let s = rx.decode(&mut src).unwrap();
    assert_eq!(s, Some(frame(&[], b"")));
    let s = rx.decode(&mut src).unwrap();
    assert_eq!(s, Some(frame(&[0x42], "\x7fƒ𐍈Ő".as_bytes())));
    let s = rx.decode(&mut src).unwrap();
    assert_eq!(s, None);
    assert!(src.is_empty());
}

#[test]
fn frame_decode_byte_by_byte() {
    let mut tx = vec![];
    Encoder
        .encode_frame(&frame(&[300, 7], &[1, 2, 3, 4, 5]), &mut tx)
        .unwrap();
    let mut rx = Decoder::new(32, 1024);
    let mut src = vec![];
    let mut out = None;
    for b in tx {
        assert!(out.is_none());
        src.push(b);
        out = rx.decode(&mut src).unwrap();
    }
    assert_eq!(out, Some(frame(&[300, 7], &[1, 2, 3, 4, 5])));
    assert!(src.is_empty());
}

#[test]
fn frame_decode_leaves_following_bytes() {
    let mut tx = vec![];
    Encoder.encode_frame(&frame(&[1], b"ab"), &mut tx).unwrap();
    tx.extend_from_slice(&[0xff, 0xee]);
    let mut rx = Decoder::default();
    let f = rx.decode(&mut tx).unwrap();
    assert_eq!(f, Some(frame(&[1], b"ab")));
    assert_eq!(tx, vec![0xff, 0xee]);
}

#[test]
fn frame_decode_rejects_deep_path() {
    let mut tx = vec![];
    Encoder.encode_frame(&frame(&[1, 2, 3], b""), &mut tx).unwrap();
    let mut rx = Decoder::new(2, 1024);
    assert_eq!(
        rx.decode(&mut tx),
        Err(FrameError::PathTooDeep { depth: 3, max: 2 })
    );
}

#[test]
fn frame_decode_rejects_large_payload() {
    let mut tx = vec![];
    Encoder.encode_frame(&frame(&[], b"abcdef"), &mut tx).unwrap();
    let mut rx = Decoder::new(2, 5);
    assert_eq!(
        rx.decode(&mut tx),
        Err(FrameError::PayloadTooLarge { size: 6, max: 5 })
    );
}

#[test]
fn frame_decode_rejects_overflowing_varint() {
    let mut rx = Decoder::default();
    let mut src = vec![0xff, 0xff, 0xff, 0xff, 0x10];
    assert_eq!(rx.decode(&mut src), Err(FrameError::Overflow));
}

#[test]
fn frame_decode_stalls_on_short_path() {
    // a path of three elements announced with only two bytes behind it,
    // the second of which already overflows: the decoder waits for more input
    let mut rx = Decoder::default();
    let mut src = vec![0x03, 0x01, 0xff];
    assert_eq!(rx.decode(&mut src), Ok(None));
    assert_eq!(src, vec![0x01, 0xff]);
}

#[test]
fn frame_encode_rejects_wide_element() {
    if usize::BITS > 32 {
        let mut dst = vec![9];
        let big = (u32::MAX as usize) + 1;
        let r = Encoder.encode(
            FrameRef {
                path: &[5, big, 6],
                data: b"",
            },
            &mut dst,
        );
        assert_eq!(r, Err(FrameError::InvalidInput));
        assert_eq!(dst, vec![9, 3, 5]);
    }
}
