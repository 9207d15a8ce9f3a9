//! The decisions of a root parameter writer while it waits for the peer's
//! handshake response: which error a response is answered with, and, once the
//! peer names the subject to reply on, where the parameters go next.
//!
//! The writer's I/O (polling the subscription, publishing, handing writers to
//! indexed parameters) is done by the caller, which feeds each response in
//! as an event and performs the action it gets back.

use vstd::prelude::*;
use vstd::string::StringExecFns;

verus! {

/// The kinds of I/O error a handshake fails with.
#[derive(Clone, Copy, Debug, PartialEq, Eq, Structural)]
pub enum ErrorKind {
    NotConnected,
    TimedOut,
    UnexpectedEof,
    Other,
    InvalidInput,
    BrokenPipe,
}

/// An I/O error: its kind and, where there is one, its message.
#[derive(Clone, Debug)]
pub struct HandshakeError {
    pub kind: ErrorKind,
    pub message: Option<String>,
}

/// What the writer heard while waiting for the handshake response.
#[derive(Clone, Debug)]
pub enum HandshakeEvent {
    /// A response with status `NO_RESPONDERS`.
    NoResponders,
    /// A response with status `TIMEOUT`.
    Timeout,
    /// A response with status `REQUEST_TERMINATED`.
    RequestTerminated,
    /// A response with any other status that is not a success: the status
    /// as displayed, and the response's description, if any.
    Failure { code: String, description: Option<String> },
    /// A response with a success status or none, and the subject it names
    /// for replies, if any.
    Response { reply: Option<String> },
    /// The subscription ended.
    Closed,
}

/// The state of a root parameter writer.
#[derive(Clone, Debug)]
pub enum HandshakeState {
    /// The writer's state was lost.
    Corrupted,
    /// Waiting for the handshake response, with the parameter bytes written
    /// so far.
    Handshaking { buffer: Vec<u8> },
    /// Connected to `params`, with buffered parameter bytes still to send.
    Draining { params: String, buffer: Vec<u8> },
    /// Connected to `params`, nothing buffered.
    Active { params: String },
}

/// What the caller does after a step.
#[derive(Clone, Debug)]
pub enum HandshakeAction {
    /// Fail the pending write or flush with this error.
    Fail(HandshakeError),
    /// Open a writer on `params` (and one on `errors`, where given, for the
    /// peer's error stream), hand each indexed parameter its writer, and go
    /// on writing.
    Connect { params: String, errors: Option<String> },
    /// The handshake is over: nothing to decide.
    Done,
}

/// Message of an error response whose status is `code`.
pub open spec fn failure_message(code: Seq<char>, description: Option<Seq<char>>) -> Seq<char> {
    match description {
        Some(d) => "received a response with code `"@ + code + "` ("@ + d + ")"@,
        None => "received a response with code `"@ + code + "`"@,
    }
}

/// The error a response is answered with by its status, if it is one that
/// fails the handshake.
pub open spec fn status_failure(event: HandshakeEvent) -> Option<(ErrorKind, Option<Seq<char>>)> {
    match event {
        HandshakeEvent::NoResponders => Some((ErrorKind::NotConnected, None)),
        HandshakeEvent::Timeout => Some((ErrorKind::TimedOut, None)),
        HandshakeEvent::RequestTerminated => Some((ErrorKind::UnexpectedEof, None)),
        HandshakeEvent::Failure { code, description } => Some(
            (
                ErrorKind::Other,
                Some(
                    failure_message(
                        code@,
                        match description {
                            Some(d) => Some(d@),
                            None => None,
                        },
                    ),
                ),
            ),
        ),
        _ => None,
    }
}

/// Whether `e` is an error of kind `kind` with message `message`.
pub open spec fn error_is(e: HandshakeError, kind: ErrorKind, message: Option<Seq<char>>) -> bool {
    &&& e.kind == kind
    &&& match (e.message, message) {
        (Some(m), Some(x)) => m@ == x,
        (None, None) => true,
        _ => false,
    }
}

/// Whether `a` fails with an error of kind `kind` and message `message`.
pub open spec fn fails_with(a: HandshakeAction, kind: ErrorKind, message: Option<Seq<char>>) -> bool {
    a matches HandshakeAction::Fail(e) && error_is(e, kind, message)
}

/// Whether, after the peer named `params` for the parameters, the writer
/// with `buffer` pending drains it first or is active at once.
pub open spec fn connected(s: HandshakeState, params: Seq<char>, buffer: Seq<u8>) -> bool {
    if buffer.len() == 0 {
        s matches HandshakeState::Active { params: p } && p@ == params
    } else {
        s matches HandshakeState::Draining { params: p, buffer: b } && p@ == params && b@ == buffer
    }
}

/// An error of kind `kind` without message.
pub fn plain_error(kind: ErrorKind) -> (r: HandshakeError)
    ensures
        error_is(r, kind, None),
{
    HandshakeError { kind, message: None }
}

/// An error of kind `kind` with the message `message`.
pub fn error_with(kind: ErrorKind, message: &str) -> (r: HandshakeError)
    ensures
        error_is(r, kind, Some(message@)),
{
    HandshakeError { kind, message: Some(String::from_str(message)) }
}

/// The error for a writer whose state was lost.
pub fn corrupted_error() -> (r: HandshakeError)
    ensures
        error_is(r, ErrorKind::Other, Some("corrupted memory state"@)),
{
    error_with(ErrorKind::Other, "corrupted memory state")
}

/// The message of an error response whose status is `code`.
pub fn failure_text(code: &str, description: Option<&str>) -> (r: String)
    ensures
        r@ == failure_message(
            code@,
            match description {
                Some(d) => Some(d@),
                None => None,
            },
        ),
{
    let mut s = String::from_str("received a response with code `");
    s.append(code);
    match description {
        Some(d) => {
            s.append("` (");
            s.append(d);
            s.append(")");
        },
        None => {
            s.append("`");
        },
    }
    s
}

/// The error a response is answered with by its status, or `None` when its
/// status does not fail the handshake.
pub fn response_failure(event: &HandshakeEvent) -> (r: Option<HandshakeError>)
    ensures
        match status_failure(*event) {
            Some((kind, message)) => r matches Some(e) && error_is(e, kind, message),
            None => r is None,
        },
{
    match event {
        HandshakeEvent::NoResponders => Some(plain_error(ErrorKind::NotConnected)),
        HandshakeEvent::Timeout => Some(plain_error(ErrorKind::TimedOut)),
        HandshakeEvent::RequestTerminated => Some(plain_error(ErrorKind::UnexpectedEof)),
        HandshakeEvent::Failure { code, description } => {
            let d = match description {
                Some(d) => Some(d.as_str()),
                None => None,
            };
            let m = failure_text(code.as_str(), d);
            Some(HandshakeError { kind: ErrorKind::Other, message: Some(m) })
        },
        _ => None,
    }
}

/// The state after the peer named `params`, with `buffer` pending.
pub fn connect(params: &String, buffer: Vec<u8>) -> (r: HandshakeState)
    ensures
        connected(r, params@, buffer@),
{
    if buffer.len() == 0 {
        HandshakeState::Active { params: params.clone() }
    } else {
        HandshakeState::Draining { params: params.clone(), buffer }
    }
}

} // verus!
