use wrpc_verified::handshake::{
    ErrorKind, HandshakeAction, HandshakeError, HandshakeEvent, HandshakeState,
};
use wrpc_verified::{nats, nats_next, zenoh};

fn waiting(buffer: &[u8]) -> HandshakeState {
    HandshakeState::Handshaking { buffer: buffer.to_vec() }
}

fn failed(a: &HandshakeAction) -> &HandshakeError {
    match a {
        HandshakeAction::Fail(e) => e,
        other => panic!("expected a failure, got {other:?}"),
    }
}

#[test]
fn handshake_status_errors() {
    let cases = [
        (HandshakeEvent::NoResponders, ErrorKind::NotConnected),
        (HandshakeEvent::Timeout, ErrorKind::TimedOut),
        (HandshakeEvent::RequestTerminated, ErrorKind::UnexpectedEof),
    ];
    for (event, kind) in cases {
        let (s, a) = nats::handshake_step(waiting(b"ab"), event.clone());
        assert!(matches!(s, HandshakeState::Handshaking { ref buffer } if buffer == b"ab"));
        assert_eq!(failed(&a).kind, kind);
        assert_eq!(failed(&a).message, None);
        let (s, a) = nats_next::handshake_step(waiting(b""), event);
        assert!(matches!(s, HandshakeState::Handshaking { .. }));
        assert_eq!(failed(&a).kind, kind);
    }
}

#[test]
fn handshake_other_status() {
    let event = HandshakeEvent::Failure { code: "404".to_string(), description: Some("no such thing".to_string()) };
    let (_, a) = nats::handshake_step(waiting(b""), event);
    assert_eq!(failed(&a).kind, ErrorKind::Other);
    assert_eq!(failed(&a).message.as_deref(), Some("received a response with code `404` (no such thing)"));
    let event = HandshakeEvent::Failure { code: "500".to_string(), description: None };
    let (_, a) = nats_next::handshake_step(waiting(b""), event);
    assert_eq!(failed(&a).message.as_deref(), Some("received a response with code `500`"));
}

#[test]
fn handshake_reply_connects() {
    let event = HandshakeEvent::Response { reply: Some("_INBOX.abc".to_string()) };
    let (s, a) = nats::handshake_step(waiting(b""), event.clone());
    assert!(matches!(s, HandshakeState::Active { ref params } if params == "_INBOX.abc.params"));
    assert!(matches!(a, HandshakeAction::Connect { ref params, errors: None } if params == "_INBOX.abc.params"));

    let (s, a) = nats_next::handshake_step(waiting(b"xyz"), event);
    assert!(matches!(s, HandshakeState::Draining { ref params, ref buffer } if params == "_INBOX.abc.params" && buffer == b"xyz"));
    match a {
        HandshakeAction::Connect { params, errors } => {
            assert_eq!(params, "_INBOX.abc.params");
            assert_eq!(errors.as_deref(), Some("_INBOX.abc.error"));
        },
        other => panic!("expected a connection, got {other:?}"),
    }
}

#[test]
fn handshake_without_reply_or_stream() {
    let (s, a) = nats::handshake_step(waiting(b"q"), HandshakeEvent::Response { reply: None });
    assert!(matches!(s, HandshakeState::Handshaking { .. }));
    assert_eq!(failed(&a).kind, ErrorKind::InvalidInput);
    assert_eq!(failed(&a).message.as_deref(), Some("peer did not specify a reply subject"));
    let (s, a) = nats::handshake_step(waiting(b"q"), HandshakeEvent::Closed);
    assert!(matches!(s, HandshakeState::Corrupted));
    assert_eq!(failed(&a).kind, ErrorKind::BrokenPipe);
    let (s, a) = nats::handshake_step(HandshakeState::Corrupted, HandshakeEvent::Closed);
    assert!(matches!(s, HandshakeState::Corrupted));
    assert_eq!(failed(&a).message.as_deref(), Some("corrupted memory state"));
    let (s, a) = nats::handshake_step(HandshakeState::Active { params: "p".to_string() }, HandshakeEvent::Timeout);
    assert!(matches!(s, HandshakeState::Active { ref params } if params == "p"));
    assert!(matches!(a, HandshakeAction::Done));
}

#[test]
fn handshake_zenoh_samples() {
    let (s, a) = zenoh::handshake_step(waiting(b"12"), Some(Some("inbox/7".to_string())));
    assert!(matches!(s, HandshakeState::Draining { ref params, ref buffer } if params == "inbox/7/params" && buffer == b"12"));
    assert!(matches!(a, HandshakeAction::Connect { ref params, errors: None } if params == "inbox/7/params"));
    let (s, a) = zenoh::handshake_step(waiting(b""), Some(None));
    assert!(matches!(s, HandshakeState::Corrupted));
    assert_eq!(failed(&a).kind, ErrorKind::InvalidInput);
    let (s, a) = zenoh::handshake_step(waiting(b""), None);
    assert!(matches!(s, HandshakeState::Corrupted));
    assert_eq!(failed(&a).kind, ErrorKind::BrokenPipe);
}
