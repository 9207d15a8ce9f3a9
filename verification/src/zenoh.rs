//! The Zenoh transport's key expressions.

use vstd::prelude::*;
use vstd::utf8::encode_utf8;
use vstd::string::{StringExecFns, StringSliceAdditionalSpecFns};

use crate::subject::{
    lemma_invocation_bytes, lemma_join_indices_bytes, lemma_join_segments_bytes, lemma_protocol_bytes,
    concat, is_alphanumeric, index_segments, invocation, invocation_string, join_indices, join_segments,
    wildcard_segments,
};
use crate::subject::{ends_with_slash, unique_id};
use crate::codec::str_eq;
use crate::handshake::{
    connect, connected, corrupted_error, error_with, fails_with, plain_error, ErrorKind,
    HandshakeAction, HandshakeState,
};

/// Subscriptions are kept in the same trie as on NATS.
pub use crate::nats::IndexTrie;

verus! {

/// Protocol name that leads every invocation subject.
pub const PROTOCOL: &'static str = "wrpc.0.0.1";

/// Subject carrying the parameters of the invocation at `prefix`.
#[must_use]
pub fn param_subject(prefix: &str) -> (r: String)
    ensures
        r@ == prefix@ + "/params"@,
{
    proof {
        reveal_strlit("/params");
    }
    concat(prefix, "/params")
}

/// Subject carrying the results of the invocation at `prefix`.
#[must_use]
pub fn result_subject(prefix: &str) -> (r: String)
    ensures
        r@ == prefix@ + "/results"@,
{
    proof {
        reveal_strlit("/results");
    }
    concat(prefix, "/results")
}

/// `prefix` followed by the indices of `path` in decimal, separated by `/`
/// (an empty prefix is left out).
#[must_use]
pub fn index_path(prefix: &str, path: &[usize]) -> (r: String)
    requires
        prefix.spec_bytes().len() + path.len() * 2 <= usize::MAX,
    ensures
        r@ == join_indices(prefix@, path@, '/'),
        encode_utf8(r@).len() <= prefix.spec_bytes().len() + 21 * path.len(),
{
    let r = index_segments(String::from_str(prefix), path, '/');
    proof {
        lemma_join_indices_bytes(prefix@, path@, '/');
    }
    r
}

/// `prefix` followed by the segments of `path` separated by `/`: the
/// decimal index, or `*` where any index matches (an empty prefix is left
/// out).
#[must_use]
pub fn subscribe_path(prefix: &str, path: &[Option<usize>]) -> (r: String)
    requires
        prefix.spec_bytes().len() + path.len() * 2 <= usize::MAX,
    ensures
        r@ == join_segments(prefix@, path@, '/'),
        encode_utf8(r@).len() <= prefix.spec_bytes().len() + 21 * path.len(),
{
    let r = wildcard_segments(String::from_str(prefix), path, '/');
    proof {
        lemma_join_segments_bytes(prefix@, path@, '/');
    }
    r
}

/// Subject on which `func` of `instance` is invoked: the prefix, the protocol,
/// the instance and the function, separated by `/`; an empty prefix and an
/// empty instance are left out.
#[must_use]
pub fn invocation_subject(prefix: &str, instance: &str, func: &str) -> (r: String)
    requires
        prefix.spec_bytes().len() + 10 + instance.spec_bytes().len() + func.spec_bytes().len() + 3
            <= usize::MAX,
    ensures
        r@ == invocation(prefix@, PROTOCOL@, instance@, func@, '/'),
        encode_utf8(r@).len() <= prefix.spec_bytes().len() + 10 + instance.spec_bytes().len()
            + func.spec_bytes().len() + 3,
{
    let r = invocation_string(prefix, PROTOCOL, instance, func, '/');
    proof {
        lemma_invocation_bytes(prefix@, PROTOCOL@, instance@, func@, '/');
        lemma_protocol_bytes();
    }
    r
}

/// A fresh inbox key below `base`: `base`, a `/` unless `base` already ends
/// with one, and a unique identifier of 22 ASCII letters and digits.
pub fn child_inbox(base: &str) -> (r: String)
    ensures
        ({
            let b = if base@.len() > 0 && base@.last() == '/' {
                base@
            } else {
                base@.push('/')
            };
            &&& r@.len() == b.len() + 22
            &&& r@.subrange(0, b.len() as int) == b
            &&& forall|i: int| b.len() <= i < r@.len() ==> is_alphanumeric(#[trigger] r@[i])
        }),
{
    let mut s = String::from_str(base);
    if !ends_with_slash(base) {
        proof {
            reveal_strlit("/");
        }
        s.append("/");
    }
    let id = unique_id();
    let ghost b = s@;
    s.append(id.as_str());
    proof {
        assert(s@.subrange(0, b.len() as int) =~= b);
        assert forall|i: int| b.len() <= i < s@.len() implies is_alphanumeric(#[trigger] s@[i]) by {
            assert(s@[i] == id@[i - b.len()]);
        }
    }
    s
}

/// One step of the root parameter writer while it waits for the handshake
/// response, given the next sample (`None` when the subscription ended) by
/// the reply subject it carries as attachment, if any. A sample that names a
/// reply subject connects the parameters to its `/params` key, draining what
/// was buffered first; one that names none is refused, as is the end of the
/// subscription, and either leaves the writer corrupted. A writer past the
/// handshake has nothing to decide.
pub fn handshake_step(state: HandshakeState, sample: Option<Option<String>>) -> (r: (HandshakeState, HandshakeAction))
    ensures
        match state {
            HandshakeState::Handshaking { buffer } => match sample {
                Some(Some(tx)) => {
                    &&& r.1 matches HandshakeAction::Connect { params, errors } && params@ == tx@ + "/params"@
                        && errors is None
                    &&& connected(r.0, tx@ + "/params"@, buffer@)
                },
                Some(None) => r.0 is Corrupted && fails_with(
                    r.1,
                    ErrorKind::InvalidInput,
                    Some("peer did not specify a reply subject"@),
                ),
                None => r.0 is Corrupted && fails_with(r.1, ErrorKind::BrokenPipe, None),
            },
            HandshakeState::Corrupted => r.0 is Corrupted && fails_with(
                r.1,
                ErrorKind::Other,
                Some("corrupted memory state"@),
            ),
            _ => r.0 == state && r.1 is Done,
        },
{
    match state {
        HandshakeState::Handshaking { buffer } => match sample {
            Some(Some(tx)) => {
                let params = param_subject(tx.as_str());
                let s = connect(&params, buffer);
                (s, HandshakeAction::Connect { params, errors: None })
            },
            Some(None) => (
                HandshakeState::Corrupted,
                HandshakeAction::Fail(error_with(ErrorKind::InvalidInput, "peer did not specify a reply subject")),
            ),
            None => (HandshakeState::Corrupted, HandshakeAction::Fail(plain_error(ErrorKind::BrokenPipe))),
        },
        HandshakeState::Corrupted => (HandshakeState::Corrupted, HandshakeAction::Fail(corrupted_error())),
        other => (other, HandshakeAction::Done),
    }
}

/// What `str::trim` leaves of `s`: `s` without its leading and trailing
/// whitespace, as Unicode's `White_Space` property defines it.
pub uninterp spec fn trimmed(s: Seq<char>) -> Seq<char>;

/// `str::trim`: the part of `s` without leading and trailing whitespace.
#[verifier::external_body]
fn trim(s: &str) -> (r: &str)
    ensures
        r@ == trimmed(s@),
{
    s.trim()
}

/// `c` with an ASCII upper-case letter turned to lower case.
pub open spec fn ascii_lower(c: char) -> char {
    if 'A' <= c && c <= 'Z' {
        ((c as u32) + 32) as char
    } else {
        c
    }
}

/// Whether `a` and `b` are equal when ASCII letters are compared regardless
/// of case.
pub open spec fn eq_ascii_case_blind(a: Seq<char>, b: Seq<char>) -> bool {
    &&& a.len() == b.len()
    &&& forall|i: int| 0 <= i < a.len() ==> ascii_lower(#[trigger] a[i]) == ascii_lower(b[i])
}

/// `str::eq_ignore_ascii_case`: whether `a` and `b` match, ASCII letters
/// compared regardless of case and every other character exactly.
#[verifier::external_body]
fn eq_ignore_ascii_case(a: &str, b: &str) -> (r: bool)
    ensures
        r == eq_ascii_case_blind(a@, b@),
{
    a.eq_ignore_ascii_case(b)
}

/// The I/O error kind a status code stands for, the code already trimmed:
/// `NO_RESPONDERS` or `503`, `TIMEOUT` or `408`, `REQUEST_TERMINATED`, the
/// names in any case.
pub open spec fn trimmed_status_kind(c: Seq<char>) -> Option<ErrorKind> {
    if eq_ascii_case_blind(c, "NO_RESPONDERS"@) || c == "503"@ {
        Some(ErrorKind::NotConnected)
    } else if eq_ascii_case_blind(c, "TIMEOUT"@) || c == "408"@ {
        Some(ErrorKind::TimedOut)
    } else if eq_ascii_case_blind(c, "REQUEST_TERMINATED"@) {
        Some(ErrorKind::UnexpectedEof)
    } else {
        None
    }
}

/// The I/O error kind a trimmed status code stands for, if any.
pub fn trimmed_error_kind(c: &str) -> (r: Option<ErrorKind>)
    ensures
        r == trimmed_status_kind(c@),
{
    if eq_ignore_ascii_case(c, "NO_RESPONDERS") || str_eq(c, "503") {
        Some(ErrorKind::NotConnected)
    } else if eq_ignore_ascii_case(c, "TIMEOUT") || str_eq(c, "408") {
        Some(ErrorKind::TimedOut)
    } else if eq_ignore_ascii_case(c, "REQUEST_TERMINATED") {
        Some(ErrorKind::UnexpectedEof)
    } else {
        None
    }
}

/// The I/O error kind a status code stands for, once surrounding whitespace
/// is trimmed: symbolic names in any case, or their common numeric codes.
pub fn map_status_to_error_kind(code: &str) -> (r: Option<ErrorKind>)
    ensures
        r == trimmed_status_kind(trimmed(code@)),
{
    trimmed_error_kind(trim(code))
}

} // verus!
