//! Building the subjects and key paths on which the message-broker
//! transports publish and subscribe.

use vstd::prelude::*;
use vstd::string::StringExecFns;
use vstd::utf8::{encode_scalar, encode_utf8};

use crate::conn::definite;

verus! {

/// Character for a decimal digit.
pub open spec fn digit(d: nat) -> char {
    (d + 48) as char
}

/// Decimal representation of `n`, without sign or leading zeros.
pub open spec fn decimal(n: nat) -> Seq<char>
    decreases n,
{
    if n < 10 {
        seq![digit(n)]
    } else {
        decimal(n / 10).push(digit(n % 10))
    }
}

/// An ASCII letter or digit.
pub open spec fn is_alphanumeric(c: char) -> bool {
    ('0' <= c && c <= '9') || ('A' <= c && c <= 'Z') || ('a' <= c && c <= 'z')
}

/// A path segment: an index, or `None` for any index.
pub open spec fn segment(p: Option<usize>) -> Seq<char> {
    match p {
        Some(i) => decimal(i as nat),
        None => seq!['*'],
    }
}

/// `s` with `part` appended, separated by `sep` unless `s` is empty.
pub open spec fn join_one(s: Seq<char>, sep: char, part: Seq<char>) -> Seq<char> {
    if s.len() == 0 {
        part
    } else {
        s.push(sep) + part
    }
}

/// `start` followed by the decimal indices of `path`, separated by `sep`.
pub open spec fn join_indices(start: Seq<char>, path: Seq<usize>, sep: char) -> Seq<char>
    decreases path.len(),
{
    if path.len() == 0 {
        start
    } else {
        join_one(join_indices(start, path.drop_last(), sep), sep, decimal(path.last() as nat))
    }
}

/// `start` followed by the segments of `path`, separated by `sep`.
pub open spec fn join_segments(start: Seq<char>, path: Seq<Option<usize>>, sep: char) -> Seq<char>
    decreases path.len(),
{
    if path.len() == 0 {
        start
    } else {
        join_one(join_segments(start, path.drop_last(), sep), sep, segment(path.last()))
    }
}

/// Subscribing with definite indices names the subject that indexing with
/// those indices publishes to.
pub proof fn lemma_definite_segments(start: Seq<char>, path: Seq<usize>, sep: char)
    ensures
        join_segments(start, definite(path), sep) == join_indices(start, path, sep),
    decreases path.len(),
{
    if path.len() > 0 {
        assert(definite(path).drop_last() =~= definite(path.drop_last()));
        lemma_definite_segments(start, path.drop_last(), sep);
    }
}

/// Indexing with `a` and then with `b` gives the subject of indexing once
/// with `a` followed by `b`.
pub proof fn lemma_index_twice(start: Seq<char>, a: Seq<usize>, b: Seq<usize>, sep: char)
    ensures
        join_indices(join_indices(start, a, sep), b, sep) == join_indices(start, a + b, sep),
    decreases b.len(),
{
    if b.len() == 0 {
        assert(a + b =~= a);
    } else {
        assert((a + b).drop_last() =~= a + b.drop_last());
        lemma_index_twice(start, a, b.drop_last(), sep);
    }
}

/// Subject of an invocation: `prefix`, the protocol, `instance` and `func`,
/// separated by `sep`, leaving out an empty prefix and an empty instance.
pub open spec fn invocation(
    prefix: Seq<char>,
    protocol: Seq<char>,
    instance: Seq<char>,
    func: Seq<char>,
    sep: char,
) -> Seq<char> {
    (if prefix.len() == 0 {
        seq![]
    } else {
        prefix.push(sep)
    }) + protocol.push(sep) + (if instance.len() == 0 {
        seq![]
    } else {
        instance.push(sep)
    }) + func
}

/// `10` to the power `k`.
pub open spec fn ten_pow(k: nat) -> nat
    decreases k,
{
    if k == 0 {
        1
    } else {
        10 * ten_pow((k - 1) as nat)
    }
}

/// The UTF-8 encoding of two strings one after the other is the two
/// encodings one after the other.
pub proof fn lemma_utf8_concat(a: Seq<char>, b: Seq<char>)
    ensures
        encode_utf8(a + b) == encode_utf8(a) + encode_utf8(b),
    decreases a.len(),
{
    if a.len() == 0 {
        assert(a + b =~= b);
        assert(encode_utf8(a) + encode_utf8(b) =~= encode_utf8(b));
    } else {
        assert((a + b).drop_first() =~= a.drop_first() + b);
        assert((a + b)[0] == a[0]);
        lemma_utf8_concat(a.drop_first(), b);
        assert(encode_utf8(a + b) =~= encode_utf8(a) + encode_utf8(b));
    }
}

/// A character below 128 takes one byte.
proof fn lemma_utf8_ascii_char(c: char)
    requires
        (c as u32) < 128,
    ensures
        encode_utf8(seq![c]).len() == 1,
{
    let one = seq![c];
    assert(one.drop_first() =~= Seq::<char>::empty());
    assert(one[0] == c);
    assert(encode_scalar(c as u32).len() == 1);
    assert(encode_utf8(one) == encode_scalar(one[0] as u32) + encode_utf8(one.drop_first()));
}

/// A number below `10` to the power `k` has at most `k` decimal digits,
/// one byte each.
pub proof fn lemma_decimal_len(n: nat, k: nat)
    requires
        n < ten_pow(k),
        k >= 1,
    ensures
        decimal(n).len() <= k,
        encode_utf8(decimal(n)).len() == decimal(n).len(),
    decreases n,
{
    if n < 10 {
        lemma_utf8_ascii_char(digit(n));
    } else {
        let k1 = (k - 1) as nat;
        let t = ten_pow(k1);
        assert(n / 10 < t) by (nonlinear_arith)
            requires
                n < 10 * t,
        ;
        if k1 == 0 {
            assert(t == 1);
            assert(false);
        }
        lemma_decimal_len(n / 10, k1);
        lemma_utf8_ascii_char(digit(n % 10));
        lemma_utf8_concat(decimal(n / 10), seq![digit(n % 10)]);
        assert(decimal(n / 10).push(digit(n % 10)) =~= decimal(n / 10) + seq![digit(n % 10)]);
    }
}

/// A `usize` in decimal takes at most 20 bytes.
pub proof fn lemma_usize_decimal_len(n: usize)
    ensures
        encode_utf8(decimal(n as nat)).len() <= 20,
{
    reveal_with_fuel(ten_pow, 21);
    assert(ten_pow(20) == 100000000000000000000nat);
    lemma_decimal_len(n as nat, 20);
}

/// The protocol name takes ten bytes.
pub proof fn lemma_protocol_bytes()
    ensures
        encode_utf8("wrpc.0.0.1"@).len() == 10,
{
    reveal_strlit("wrpc.0.0.1");
    let p = "wrpc.0.0.1"@;
    assert forall|i: int| 0 <= i < p.len() implies (#[trigger] p[i] as u32) < 128 by {}
    lemma_ascii_bytes(p);
}

/// A string of characters below 128 takes one byte per character.
pub proof fn lemma_ascii_bytes(s: Seq<char>)
    requires
        forall|i: int| 0 <= i < s.len() ==> (#[trigger] s[i] as u32) < 128,
    ensures
        encode_utf8(s).len() == s.len(),
    decreases s.len(),
{
    if s.len() > 0 {
        assert(s =~= seq![s[0]] + s.drop_first());
        lemma_utf8_concat(seq![s[0]], s.drop_first());
        lemma_utf8_ascii_char(s[0]);
        assert forall|i: int| 0 <= i < s.drop_first().len() implies (#[trigger] s.drop_first()[i] as u32) < 128 by {
            assert(s.drop_first()[i] == s[i + 1]);
        }
        lemma_ascii_bytes(s.drop_first());
    }
}

/// `s` with `part` joined by `sep` takes, in bytes, at most the bytes of `s`
/// and of `part` and one more.
proof fn lemma_join_one_bytes(s: Seq<char>, sep: char, part: Seq<char>)
    requires
        sep == '.' || sep == '/',
    ensures
        encode_utf8(join_one(s, sep, part)).len() <= encode_utf8(s).len() + 1 + encode_utf8(part).len(),
{
    if s.len() > 0 {
        assert(s.push(sep) =~= s + seq![sep]);
        lemma_utf8_concat(s, seq![sep]);
        lemma_utf8_concat(s + seq![sep], part);
        lemma_utf8_ascii_char(sep);
    }
}

/// Indexing adds at most 21 bytes per index: up to 20 digits and a
/// separator.
pub proof fn lemma_join_indices_bytes(start: Seq<char>, path: Seq<usize>, sep: char)
    requires
        sep == '.' || sep == '/',
    ensures
        encode_utf8(join_indices(start, path, sep)).len() <= encode_utf8(start).len() + 21 * path.len(),
    decreases path.len(),
{
    if path.len() > 0 {
        lemma_join_indices_bytes(start, path.drop_last(), sep);
        lemma_usize_decimal_len(path.last());
        lemma_join_one_bytes(join_indices(start, path.drop_last(), sep), sep, decimal(path.last() as nat));
    }
}

/// Subscribing adds at most 21 bytes per segment: up to 20 digits, or `*`,
/// and a separator.
pub proof fn lemma_join_segments_bytes(start: Seq<char>, path: Seq<Option<usize>>, sep: char)
    requires
        sep == '.' || sep == '/',
    ensures
        encode_utf8(join_segments(start, path, sep)).len() <= encode_utf8(start).len() + 21 * path.len(),
    decreases path.len(),
{
    if path.len() > 0 {
        lemma_join_segments_bytes(start, path.drop_last(), sep);
        match path.last() {
            Some(i) => lemma_usize_decimal_len(i),
            None => lemma_utf8_ascii_char('*'),
        }
        lemma_join_one_bytes(join_segments(start, path.drop_last(), sep), sep, segment(path.last()));
    }
}

/// An invocation subject takes the bytes of its parts and at most three
/// separators.
pub proof fn lemma_invocation_bytes(prefix: Seq<char>, protocol: Seq<char>, instance: Seq<char>, func: Seq<char>, sep: char)
    requires
        sep == '.' || sep == '/',
    ensures
        encode_utf8(invocation(prefix, protocol, instance, func, sep)).len() <= encode_utf8(prefix).len()
            + encode_utf8(protocol).len() + encode_utf8(instance).len() + encode_utf8(func).len() + 3,
{
    let a = if prefix.len() == 0 {
        seq![]
    } else {
        prefix.push(sep)
    };
    let c = if instance.len() == 0 {
        seq![]
    } else {
        instance.push(sep)
    };
    lemma_utf8_ascii_char(sep);
    assert(prefix.push(sep) =~= prefix + seq![sep]);
    assert(protocol.push(sep) =~= protocol + seq![sep]);
    assert(instance.push(sep) =~= instance + seq![sep]);
    lemma_utf8_concat(prefix, seq![sep]);
    lemma_utf8_concat(protocol, seq![sep]);
    lemma_utf8_concat(instance, seq![sep]);
    lemma_utf8_concat(a, protocol.push(sep));
    lemma_utf8_concat(a + protocol.push(sep), c);
    lemma_utf8_concat(a + protocol.push(sep) + c, func);
}

/// `usize::to_string`, which writes `n` in decimal without sign or leading zeros.
#[verifier::external_body]
fn decimal_string(n: usize) -> (r: String)
    ensures
        r@ == decimal(n as nat),
{
    n.to_string()
}

/// A string holding the one character `c`.
pub fn char_string(c: char) -> (r: String)
    requires
        c == '.' || c == '/' || c == '*',
    ensures
        r@ == seq![c],
{
    if c == '.' {
        proof {
            reveal_strlit(".");
        }
        String::from_str(".")
    } else if c == '/' {
        proof {
            reveal_strlit("/");
        }
        String::from_str("/")
    } else {
        proof {
            reveal_strlit("*");
        }
        String::from_str("*")
    }
}

/// Appends `part` to `s`, separated by `sep` unless `s` is empty.
pub fn push_part(s: &mut String, sep: char, part: &str)
    requires
        sep == '.' || sep == '/',
    ensures
        final(s)@ == join_one(old(s)@, sep, part@),
{
    if !s.as_str().is_empty() {
        let d = char_string(sep);
        s.append(d.as_str());
    }
    s.append(part);
}

/// `start` followed by the decimal indices of `path`, separated by `sep`.
pub fn index_segments(start: String, path: &[usize], sep: char) -> (r: String)
    requires
        sep == '.' || sep == '/',
    ensures
        r@ == join_indices(start@, path@, sep),
{
    let mut s = start;
    let mut i: usize = 0;
    while i < path.len()
        invariant
            sep == '.' || sep == '/',
            i <= path.len(),
            s@ == join_indices(start@, path@.subrange(0, i as int), sep),
        decreases path.len() - i,
    {
        let d = decimal_string(path[i]);
        push_part(&mut s, sep, d.as_str());
        proof {
            assert(path@.subrange(0, i + 1).drop_last() =~= path@.subrange(0, i as int));
        }
        i = i + 1;
    }
    proof {
        assert(path@.subrange(0, path.len() as int) =~= path@);
    }
    s
}

/// `start` followed by the segments of `path`, separated by `sep`.
pub fn wildcard_segments(start: String, path: &[Option<usize>], sep: char) -> (r: String)
    requires
        sep == '.' || sep == '/',
    ensures
        r@ == join_segments(start@, path@, sep),
{
    let mut s = start;
    let mut i: usize = 0;
    while i < path.len()
        invariant
            sep == '.' || sep == '/',
            i <= path.len(),
            s@ == join_segments(start@, path@.subrange(0, i as int), sep),
        decreases path.len() - i,
    {
        let d = match path[i] {
            Some(p) => decimal_string(p),
            None => char_string('*'),
        };
        push_part(&mut s, sep, d.as_str());
        proof {
            assert(path@.subrange(0, i + 1).drop_last() =~= path@.subrange(0, i as int));
        }
        i = i + 1;
    }
    proof {
        assert(path@.subrange(0, path.len() as int) =~= path@);
    }
    s
}

/// `prefix`, `protocol`, `instance` and `func` separated by `sep`, leaving
/// out an empty prefix and an empty instance.
pub fn invocation_string(prefix: &str, protocol: &str, instance: &str, func: &str, sep: char) -> (r:
    String)
    requires
        sep == '.' || sep == '/',
    ensures
        r@ == invocation(prefix@, protocol@, instance@, func@, sep),
{
    let d = char_string(sep);
    let mut s = String::new();
    if !prefix.is_empty() {
        s.append(prefix);
        s.append(d.as_str());
    }
    s.append(protocol);
    s.append(d.as_str());
    if !instance.is_empty() {
        s.append(instance);
        s.append(d.as_str());
    }
    s.append(func);
    proof {
        assert(s@ =~= invocation(prefix@, protocol@, instance@, func@, sep));
    }
    s
}

/// `nuid::next`: a unique identifier of 22 ASCII letters and digits, drawn
/// from a random prefix and a sequence with a random increment.
#[verifier::external_body]
pub(crate) fn unique_id() -> (r: String)
    ensures
        r@.len() == 22,
        forall|i: int| 0 <= i < r@.len() ==> is_alphanumeric(#[trigger] r@[i]),
{
    nuid::next().as_str().to_string()
}

/// `str::ends_with` with the pattern `'/'`: whether the last character is a slash.
#[verifier::external_body]
pub(crate) fn ends_with_slash(s: &str) -> (r: bool)
    ensures
        r == (s@.len() > 0 && s@.last() == '/'),
{
    s.ends_with('/')
}

/// `str::strip_prefix`: the rest of `s` after `prefix`, when `s` starts
/// with it.
#[verifier::external_body]
pub(crate) fn strip_prefix<'a>(s: &'a str, prefix: &str) -> (r: Option<&'a str>)
    ensures
        r is Some <==> prefix@.is_prefix_of(s@),
        r is Some ==> r.unwrap()@ == s@.subrange(prefix@.len() as int, s@.len() as int),
{
    s.strip_prefix(prefix)
}

/// `prefix` followed by `suffix`.
pub fn concat(prefix: &str, suffix: &str) -> (r: String)
    ensures
        r@ == prefix@ + suffix@,
{
    let mut s = String::from_str(prefix);
    s.append(suffix);
    s
}

} // verus!
