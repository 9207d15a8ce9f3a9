//! The `wasi:http` types that cross the wire: request methods, URI schemes,
//! request options and the error codes of outgoing requests, with their
//! encodings.

use vstd::prelude::*;

use crate::codec::{lemma_first_unique, str_eq};
use crate::value::{case_names, is_first, val_enc, TyView, ValView};
use crate::leb128::{uleb, write_u32};
use crate::wire::{
    decoded, lemma_opt_str_roundtrip, lemma_opt_u32_roundtrip, lemma_opt_u64_roundtrip,
    lemma_opt_byte_roundtrip, lemma_opt_u16_roundtrip, lemma_str_roundtrip,
    lemma_u32_read_roundtrip, map_read, opt_byte_bytes, opt_byte_read, opt_bytes, opt_read,
    opt_str_bytes, opt_str_fits, opt_str_read, opt_u16_bytes, opt_u16_read, opt_u32_bytes,
    opt_u32_read, opt_u64_bytes, opt_u64_read, read_flag, read_opt_byte, read_opt_str,
    read_opt_u16, read_opt_u32, read_opt_u64, read_str, read_u32_at, str_bytes, str_fits,
    str_read, u32_read, write_opt_byte, write_opt_str, write_opt_u16, write_opt_u32,
    write_opt_u64, write_str, CodecError, Read,
};

verus! {

/// An HTTP request method.
#[derive(Clone, Debug, PartialEq, Eq)]
pub enum Method {
    Get,
    Head,
    Post,
    Put,
    Delete,
    Connect,
    Options,
    Trace,
    Patch,
    Other(String),
}

/// The value a `Method` stands for.
pub enum MethodView {
    Get,
    Head,
    Post,
    Put,
    Delete,
    Connect,
    Options,
    Trace,
    Patch,
    Other(Seq<char>),
}

impl DeepView for Method {
    type V = MethodView;

    open spec fn deep_view(&self) -> MethodView {
        match self {
            Method::Get => MethodView::Get,
            Method::Head => MethodView::Head,
            Method::Post => MethodView::Post,
            Method::Put => MethodView::Put,
            Method::Delete => MethodView::Delete,
            Method::Connect => MethodView::Connect,
            Method::Options => MethodView::Options,
            Method::Trace => MethodView::Trace,
            Method::Patch => MethodView::Patch,
            Method::Other(s) => MethodView::Other(s@),
        }
    }
}

/// The discriminant that precedes each case on the wire.
pub open spec fn method_discriminant(v: MethodView) -> u32 {
    match v {
        MethodView::Get => 0,
        MethodView::Head => 1,
        MethodView::Post => 2,
        MethodView::Put => 3,
        MethodView::Delete => 4,
        MethodView::Connect => 5,
        MethodView::Options => 6,
        MethodView::Trace => 7,
        MethodView::Patch => 8,
        MethodView::Other(_) => 9,
    }
}

/// The encoding of the string of `Other`, empty for the other cases.
pub open spec fn method_payload_bytes(v: MethodView) -> Seq<u8> {
    match v {
        MethodView::Other(s) => str_bytes(s),
        _ => Seq::empty(),
    }
}

/// Encoding of a `Method`: its discriminant, then the string of `Other`.
pub open spec fn method_bytes(v: MethodView) -> Seq<u8> {
    uleb(method_discriminant(v) as nat) + method_payload_bytes(v)
}

/// Whether the string of `Other` is short enough to be written.
pub open spec fn method_fits(v: MethodView) -> bool {
    match v {
        MethodView::Other(s) => str_fits(s),
        _ => true,
    }
}

/// Reading a `Method`.
pub open spec fn method_read(t: Seq<u8>, k: nat) -> Read<MethodView> {
    match u32_read(t, k) {
        Read::Done(d, e) => {
            if d == 0 {
                Read::Done(MethodView::Get, e)
            } else if d == 1 {
                Read::Done(MethodView::Head, e)
            } else if d == 2 {
                Read::Done(MethodView::Post, e)
            } else if d == 3 {
                Read::Done(MethodView::Put, e)
            } else if d == 4 {
                Read::Done(MethodView::Delete, e)
            } else if d == 5 {
                Read::Done(MethodView::Connect, e)
            } else if d == 6 {
                Read::Done(MethodView::Options, e)
            } else if d == 7 {
                Read::Done(MethodView::Trace, e)
            } else if d == 8 {
                Read::Done(MethodView::Patch, e)
            } else if d == 9 {
                map_read(str_read(t, e), |s: Seq<char>| MethodView::Other(s))
            } else {
                Read::Invalid(CodecError::UnknownDiscriminant(d))
            }
        },
        Read::Incomplete => Read::Incomplete,
        Read::Invalid(x) => Read::Invalid(x),
    }
}


/// The method that the name `s` of a request method stands for.
pub open spec fn method_named(s: Seq<char>) -> MethodView {
    if s == "GET"@ {
        MethodView::Get
    } else if s == "HEAD"@ {
        MethodView::Head
    } else if s == "POST"@ {
        MethodView::Post
    } else if s == "PUT"@ {
        MethodView::Put
    } else if s == "DELETE"@ {
        MethodView::Delete
    } else if s == "CONNECT"@ {
        MethodView::Connect
    } else if s == "OPTIONS"@ {
        MethodView::Options
    } else if s == "TRACE"@ {
        MethodView::Trace
    } else if s == "PATCH"@ {
        MethodView::Patch
    } else {
        MethodView::Other(s)
    }
}

impl Method {
    /// The method named `name`, as an HTTP library spells it: one of the
    /// standard methods, or `Other` with the name.
    pub fn from_name(name: &str) -> (r: Method)
        ensures
            r.deep_view() == method_named(name@),
    {
        if str_eq(name, "GET") {
            Method::Get
        } else if str_eq(name, "HEAD") {
            Method::Head
        } else if str_eq(name, "POST") {
            Method::Post
        } else if str_eq(name, "PUT") {
            Method::Put
        } else if str_eq(name, "DELETE") {
            Method::Delete
        } else if str_eq(name, "CONNECT") {
            Method::Connect
        } else if str_eq(name, "OPTIONS") {
            Method::Options
        } else if str_eq(name, "TRACE") {
            Method::Trace
        } else if str_eq(name, "PATCH") {
            Method::Patch
        } else {
            Method::Other(name.to_string())
        }
    }
}

impl Method {
    /// Appends the encoding to `payload`; nothing is appended when the string
    /// of `Other` is too long to be written.
    pub fn encode_sync(self, payload: &mut Vec<u8>) -> (r: Result<(), CodecError>)
        ensures
            r is Ok <==> method_fits(self.deep_view()),
            r is Ok ==> final(payload)@ == old(payload)@ + method_bytes(self.deep_view()),
            r is Err ==> r == Err::<(), CodecError>(CodecError::TooLong) && final(payload)@ == old(payload)@,
    {
        let ghost v = self.deep_view();
        match self {
            Method::Get => {
                write_u32(0, payload);
                assert(payload@ =~= old(payload)@ + method_bytes(v));
                Ok(())
            },
            Method::Head => {
                write_u32(1, payload);
                assert(payload@ =~= old(payload)@ + method_bytes(v));
                Ok(())
            },
            Method::Post => {
                write_u32(2, payload);
                assert(payload@ =~= old(payload)@ + method_bytes(v));
                Ok(())
            },
            Method::Put => {
                write_u32(3, payload);
                assert(payload@ =~= old(payload)@ + method_bytes(v));
                Ok(())
            },
            Method::Delete => {
                write_u32(4, payload);
                assert(payload@ =~= old(payload)@ + method_bytes(v));
                Ok(())
            },
            Method::Connect => {
                write_u32(5, payload);
                assert(payload@ =~= old(payload)@ + method_bytes(v));
                Ok(())
            },
            Method::Options => {
                write_u32(6, payload);
                assert(payload@ =~= old(payload)@ + method_bytes(v));
                Ok(())
            },
            Method::Trace => {
                write_u32(7, payload);
                assert(payload@ =~= old(payload)@ + method_bytes(v));
                Ok(())
            },
            Method::Patch => {
                write_u32(8, payload);
                assert(payload@ =~= old(payload)@ + method_bytes(v));
                Ok(())
            },
            Method::Other(s) => {
                if s.as_str().as_bytes().len() > u32::MAX as usize {
                    return Err(CodecError::TooLong);
                }
                write_u32(9, payload);
                let r = write_str(s.as_str(), payload);
                assert(payload@ =~= old(payload)@ + method_bytes(v));
                r
            },
        }
    }

    /// Reads a `Method` at position `k` of `src`.
    pub fn receive(src: &[u8], k: usize) -> (r: Result<Option<(Method, usize)>, CodecError>)
        ensures
            decoded(r) == method_read(src@, k as nat),
    {
        match read_u32_at(src, k) {
            Err(x) => Err(x),
            Ok(None) => Ok(None),
            Ok(Some((d, e))) => {
                if d == 0 {
                    Ok(Some((Method::Get, e)))
                } else if d == 1 {
                    Ok(Some((Method::Head, e)))
                } else if d == 2 {
                    Ok(Some((Method::Post, e)))
                } else if d == 3 {
                    Ok(Some((Method::Put, e)))
                } else if d == 4 {
                    Ok(Some((Method::Delete, e)))
                } else if d == 5 {
                    Ok(Some((Method::Connect, e)))
                } else if d == 6 {
                    Ok(Some((Method::Options, e)))
                } else if d == 7 {
                    Ok(Some((Method::Trace, e)))
                } else if d == 8 {
                    Ok(Some((Method::Patch, e)))
                } else if d == 9 {
                    match read_str(src, e) {
                        Err(x) => Err(x),
                        Ok(None) => Ok(None),
                        Ok(Some((s, e2))) => Ok(Some((Method::Other(s), e2))),
                    }
                } else {
                    Err(CodecError::UnknownDiscriminant(d))
                }
            },
        }
    }
}

/// A `Method` reads back as itself, whatever precedes or follows it.
pub proof fn lemma_method_roundtrip(p: Seq<u8>, v: MethodView, rest: Seq<u8>)
    requires
        method_fits(v),
    ensures
        method_read(p + method_bytes(v) + rest, p.len()) == Read::Done(v, p.len() + method_bytes(v).len()),
{
    let d = method_discriminant(v);
    let pl = method_payload_bytes(v);
    let t = p + method_bytes(v) + rest;
    assert(t =~= p + uleb(d as nat) + (pl + rest));
    lemma_u32_read_roundtrip(p, d, pl + rest);
    let q = p + uleb(d as nat);
    assert(t =~= q + pl + rest);
    match v {
        MethodView::Other(s) => lemma_str_roundtrip(q, s, rest),
        _ => assert(pl =~= Seq::<u8>::empty()),
    }
}

/// The cases of the `wasi:http` `method` variant, by name and payload, in
/// the order its WIT declares them.
pub open spec fn method_type() -> TyView {
    TyView::Variant(
        seq![
        ("get"@, None::<TyView>),
        ("head"@, None::<TyView>),
        ("post"@, None::<TyView>),
        ("put"@, None::<TyView>),
        ("delete"@, None::<TyView>),
        ("connect"@, None::<TyView>),
        ("options"@, None::<TyView>),
        ("trace"@, None::<TyView>),
        ("patch"@, None::<TyView>),
        ("other"@, Some(TyView::String)),
        ],
    )
}

/// A method as a value of the `method` variant: the case of its name, with
/// the method's name as the payload of `other`.
pub open spec fn method_value(v: MethodView) -> ValView {
    match v {
        MethodView::Get => ValView::Variant("get"@, None),
        MethodView::Head => ValView::Variant("head"@, None),
        MethodView::Post => ValView::Variant("post"@, None),
        MethodView::Put => ValView::Variant("put"@, None),
        MethodView::Delete => ValView::Variant("delete"@, None),
        MethodView::Connect => ValView::Variant("connect"@, None),
        MethodView::Options => ValView::Variant("options"@, None),
        MethodView::Trace => ValView::Variant("trace"@, None),
        MethodView::Patch => ValView::Variant("patch"@, None),
        MethodView::Other(s) => ValView::Variant("other"@, Some(Box::new(ValView::String(s)))),
    }
}

/// A method is written as the component value of the `method` variant that
/// it is: the position of its case in the WIT declaration, then the name of
/// an `other` method.
pub proof fn lemma_method_as_variant(v: MethodView)
    requires
        method_fits(v),
    ensures
        val_enc(method_value(v), method_type()) == Ok::<(Seq<u8>, Seq<Seq<usize>>), CodecError>(
            (method_bytes(v), Seq::<Seq<usize>>::empty()),
        ),
{
    reveal_strlit("get");
    reveal_strlit("head");
    reveal_strlit("post");
    reveal_strlit("put");
    reveal_strlit("delete");
    reveal_strlit("connect");
    reveal_strlit("options");
    reveal_strlit("trace");
    reveal_strlit("patch");
    reveal_strlit("other");
    assert("get"@.len() == 3 && "get"@[0] == 'g');
    assert("head"@.len() == 4 && "head"@[0] == 'h');
    assert("post"@.len() == 4 && "post"@[0] == 'p');
    assert("put"@.len() == 3 && "put"@[0] == 'p');
    assert("delete"@.len() == 6 && "delete"@[0] == 'd');
    assert("connect"@.len() == 7 && "connect"@[0] == 'c');
    assert("options"@.len() == 7 && "options"@[0] == 'o');
    assert("trace"@.len() == 5 && "trace"@[0] == 't');
    assert("patch"@.len() == 5 && "patch"@[0] == 'p');
    assert("other"@.len() == 5 && "other"@[0] == 'o');
    let cases = method_type()->Variant_0;
    let names = case_names(cases);
    assert(names =~= seq!["get"@, "head"@, "post"@, "put"@, "delete"@, "connect"@, "options"@, "trace"@, "patch"@, "other"@]);
    let x = method_value(v)->Variant_0;
    let i = method_discriminant(v) as int;
    assert(is_first(names, x, i));
    lemma_first_unique(names, x, i);
    assert(method_bytes(v) =~= uleb(i as nat) + method_payload_bytes(v));
    assert(cases.len() == 10);
    match v {
        MethodView::Other(s) => {
            assert(cases[9].1 == Some(TyView::String));
            assert(val_enc(ValView::String(s), TyView::String) == Ok::<(Seq<u8>, Seq<Seq<usize>>), CodecError>(
                (str_bytes(s), Seq::<Seq<usize>>::empty()),
            ));
            assert(method_bytes(v) =~= uleb(9) + str_bytes(s));
        },
        _ => {
            assert(cases[i].1 is None);
            assert(method_bytes(v) =~= uleb(i as nat));
        },
    }
}

/// The name of a method, as an HTTP library spells it.
pub open spec fn method_name(v: MethodView) -> Seq<char> {
    match v {
        MethodView::Get => "GET"@,
        MethodView::Head => "HEAD"@,
        MethodView::Post => "POST"@,
        MethodView::Put => "PUT"@,
        MethodView::Delete => "DELETE"@,
        MethodView::Connect => "CONNECT"@,
        MethodView::Options => "OPTIONS"@,
        MethodView::Trace => "TRACE"@,
        MethodView::Patch => "PATCH"@,
        MethodView::Other(s) => s,
    }
}

/// Naming and reading a name undo each other: the method a name stands for
/// has that name, and each of the nine standard methods is the one its name
/// stands for, so `from_name` maps each standard name to its own method and
/// only other names to `Other`.
pub proof fn lemma_method_names(s: Seq<char>, v: MethodView)
    ensures
        method_name(method_named(s)) == s,
        !(v is Other) ==> method_named(method_name(v)) == v,
        method_named(s) is Other <==> (forall|w: MethodView| !(w is Other) ==> method_name(w) != s),
{
    reveal_strlit("GET");
    reveal_strlit("HEAD");
    reveal_strlit("POST");
    reveal_strlit("PUT");
    reveal_strlit("DELETE");
    reveal_strlit("CONNECT");
    reveal_strlit("OPTIONS");
    reveal_strlit("TRACE");
    reveal_strlit("PATCH");
    assert("GET"@.len() == 3 && "GET"@[0] == 'G');
    assert("HEAD"@.len() == 4 && "HEAD"@[0] == 'H');
    assert("POST"@.len() == 4 && "POST"@[0] == 'P');
    assert("PUT"@.len() == 3 && "PUT"@[0] == 'P');
    assert("DELETE"@.len() == 6 && "DELETE"@[0] == 'D');
    assert("CONNECT"@.len() == 7 && "CONNECT"@[0] == 'C');
    assert("OPTIONS"@.len() == 7 && "OPTIONS"@[0] == 'O');
    assert("TRACE"@.len() == 5 && "TRACE"@[0] == 'T');
    assert("PATCH"@.len() == 5 && "PATCH"@[0] == 'P');
    if !(method_named(s) is Other) {
        let w = method_named(s);
        assert(!(w is Other) && method_name(w) == s);
    }
}

/// A URI scheme.
#[derive(Clone, Debug, PartialEq, Eq)]
pub enum Scheme {
    HTTP,
    HTTPS,
    Other(String),
}

/// The value a `Scheme` stands for.
pub enum SchemeView {
    HTTP,
    HTTPS,
    Other(Seq<char>),
}

impl DeepView for Scheme {
    type V = SchemeView;

    open spec fn deep_view(&self) -> SchemeView {
        match self {
            Scheme::HTTP => SchemeView::HTTP,
            Scheme::HTTPS => SchemeView::HTTPS,
            Scheme::Other(s) => SchemeView::Other(s@),
        }
    }
}

/// The discriminant that precedes each case on the wire.
pub open spec fn scheme_discriminant(v: SchemeView) -> u32 {
    match v {
        SchemeView::HTTP => 0,
        SchemeView::HTTPS => 1,
        SchemeView::Other(_) => 2,
    }
}

/// The encoding of the string of `Other`, empty for the other cases.
pub open spec fn scheme_payload_bytes(v: SchemeView) -> Seq<u8> {
    match v {
        SchemeView::Other(s) => str_bytes(s),
        _ => Seq::empty(),
    }
}

/// Encoding of a `Scheme`: its discriminant, then the string of `Other`.
pub open spec fn scheme_bytes(v: SchemeView) -> Seq<u8> {
    uleb(scheme_discriminant(v) as nat) + scheme_payload_bytes(v)
}

/// Whether the string of `Other` is short enough to be written.
pub open spec fn scheme_fits(v: SchemeView) -> bool {
    match v {
        SchemeView::Other(s) => str_fits(s),
        _ => true,
    }
}

/// Reading a `Scheme`.
pub open spec fn scheme_read(t: Seq<u8>, k: nat) -> Read<SchemeView> {
    match u32_read(t, k) {
        Read::Done(d, e) => {
            if d == 0 {
                Read::Done(SchemeView::HTTP, e)
            } else if d == 1 {
                Read::Done(SchemeView::HTTPS, e)
            } else if d == 2 {
                map_read(str_read(t, e), |s: Seq<char>| SchemeView::Other(s))
            } else {
                Read::Invalid(CodecError::UnknownDiscriminant(d))
            }
        },
        Read::Incomplete => Read::Incomplete,
        Read::Invalid(x) => Read::Invalid(x),
    }
}


/// The scheme that the name `s` of a URI scheme stands for.
pub open spec fn scheme_named(s: Seq<char>) -> SchemeView {
    if s == "http"@ {
        SchemeView::HTTP
    } else if s == "https"@ {
        SchemeView::HTTPS
    } else {
        SchemeView::Other(s)
    }
}

impl Scheme {
    /// The scheme named `name`, as an HTTP library spells it.
    pub fn from_name(name: &str) -> (r: Scheme)
        ensures
            r.deep_view() == scheme_named(name@),
    {
        if str_eq(name, "http") {
            Scheme::HTTP
        } else if str_eq(name, "https") {
            Scheme::HTTPS
        } else {
            Scheme::Other(name.to_string())
        }
    }
}

impl Scheme {
    /// Appends the encoding to `payload`; nothing is appended when the string
    /// of `Other` is too long to be written.
    pub fn encode_sync(self, payload: &mut Vec<u8>) -> (r: Result<(), CodecError>)
        ensures
            r is Ok <==> scheme_fits(self.deep_view()),
            r is Ok ==> final(payload)@ == old(payload)@ + scheme_bytes(self.deep_view()),
            r is Err ==> r == Err::<(), CodecError>(CodecError::TooLong) && final(payload)@ == old(payload)@,
    {
        let ghost v = self.deep_view();
        match self {
            Scheme::HTTP => {
                write_u32(0, payload);
                assert(payload@ =~= old(payload)@ + scheme_bytes(v));
                Ok(())
            },
            Scheme::HTTPS => {
                write_u32(1, payload);
                assert(payload@ =~= old(payload)@ + scheme_bytes(v));
                Ok(())
            },
            Scheme::Other(s) => {
                if s.as_str().as_bytes().len() > u32::MAX as usize {
                    return Err(CodecError::TooLong);
                }
                write_u32(2, payload);
                let r = write_str(s.as_str(), payload);
                assert(payload@ =~= old(payload)@ + scheme_bytes(v));
                r
            },
        }
    }

    /// Reads a `Scheme` at position `k` of `src`.
    pub fn receive(src: &[u8], k: usize) -> (r: Result<Option<(Scheme, usize)>, CodecError>)
        ensures
            decoded(r) == scheme_read(src@, k as nat),
    {
        match read_u32_at(src, k) {
            Err(x) => Err(x),
            Ok(None) => Ok(None),
            Ok(Some((d, e))) => {
                if d == 0 {
                    Ok(Some((Scheme::HTTP, e)))
                } else if d == 1 {
                    Ok(Some((Scheme::HTTPS, e)))
                } else if d == 2 {
                    match read_str(src, e) {
                        Err(x) => Err(x),
                        Ok(None) => Ok(None),
                        Ok(Some((s, e2))) => Ok(Some((Scheme::Other(s), e2))),
                    }
                } else {
                    Err(CodecError::UnknownDiscriminant(d))
                }
            },
        }
    }
}

/// A `Scheme` reads back as itself, whatever precedes or follows it.
pub proof fn lemma_scheme_roundtrip(p: Seq<u8>, v: SchemeView, rest: Seq<u8>)
    requires
        scheme_fits(v),
    ensures
        scheme_read(p + scheme_bytes(v) + rest, p.len()) == Read::Done(v, p.len() + scheme_bytes(v).len()),
{
    let d = scheme_discriminant(v);
    let pl = scheme_payload_bytes(v);
    let t = p + scheme_bytes(v) + rest;
    assert(t =~= p + uleb(d as nat) + (pl + rest));
    lemma_u32_read_roundtrip(p, d, pl + rest);
    let q = p + uleb(d as nat);
    assert(t =~= q + pl + rest);
    match v {
        SchemeView::Other(s) => lemma_str_roundtrip(q, s, rest),
        _ => assert(pl =~= Seq::<u8>::empty()),
    }
}

/// The cases of the `wasi:http` `scheme` variant, by name and payload, in
/// the order its WIT declares them.
pub open spec fn scheme_type() -> TyView {
    TyView::Variant(seq![("HTTP"@, None::<TyView>), ("HTTPS"@, None::<TyView>), ("other"@, Some(TyView::String))])
}

/// A scheme as a value of the `scheme` variant.
pub open spec fn scheme_value(v: SchemeView) -> ValView {
    match v {
        SchemeView::HTTP => ValView::Variant("HTTP"@, None),
        SchemeView::HTTPS => ValView::Variant("HTTPS"@, None),
        SchemeView::Other(s) => ValView::Variant("other"@, Some(Box::new(ValView::String(s)))),
    }
}

/// A scheme is written as the component value of the `scheme` variant that
/// it is: the position of its case in the WIT declaration, then the name of
/// an `other` scheme.
pub proof fn lemma_scheme_as_variant(v: SchemeView)
    requires
        scheme_fits(v),
    ensures
        val_enc(scheme_value(v), scheme_type()) == Ok::<(Seq<u8>, Seq<Seq<usize>>), CodecError>(
            (scheme_bytes(v), Seq::<Seq<usize>>::empty()),
        ),
{
    reveal_strlit("HTTP");
    reveal_strlit("HTTPS");
    reveal_strlit("other");
    assert("HTTP"@.len() == 4 && "HTTPS"@.len() == 5 && "other"@.len() == 5 && "other"@[0] == 'o' && "HTTPS"@[0] == 'H');
    let cases = scheme_type()->Variant_0;
    let names = case_names(cases);
    assert(names =~= seq!["HTTP"@, "HTTPS"@, "other"@]);
    let x = scheme_value(v)->Variant_0;
    let i = scheme_discriminant(v) as int;
    assert(is_first(names, x, i));
    lemma_first_unique(names, x, i);
    match v {
        SchemeView::Other(s) => {
            assert(cases[2].1 == Some(TyView::String));
            assert(val_enc(ValView::String(s), TyView::String) == Ok::<(Seq<u8>, Seq<Seq<usize>>), CodecError>(
                (str_bytes(s), Seq::<Seq<usize>>::empty()),
            ));
            assert(scheme_bytes(v) =~= uleb(2) + str_bytes(s));
        },
        _ => {
            assert(cases[i].1 is None);
            assert(scheme_bytes(v) =~= uleb(i as nat));
        },
    }
}

/// The name of a scheme, as a URI spells it.
pub open spec fn scheme_name(v: SchemeView) -> Seq<char> {
    match v {
        SchemeView::HTTP => "http"@,
        SchemeView::HTTPS => "https"@,
        SchemeView::Other(s) => s,
    }
}

/// Naming and reading a name undo each other: `http` and `https` stand for
/// their own schemes, and only other names for `Other`.
pub proof fn lemma_scheme_names(s: Seq<char>, v: SchemeView)
    ensures
        scheme_name(scheme_named(s)) == s,
        !(v is Other) ==> scheme_named(scheme_name(v)) == v,
        scheme_named(s) is Other <==> (forall|w: SchemeView| !(w is Other) ==> scheme_name(w) != s),
{
    reveal_strlit("http");
    reveal_strlit("https");
    assert("http"@.len() == 4 && "https"@.len() == 5);
    if !(scheme_named(s) is Other) {
        let w = scheme_named(s);
        assert(!(w is Other) && scheme_name(w) == s);
    }
}

/// Details of a DNS failure.
#[derive(Clone, Debug, PartialEq, Eq)]
pub struct DnsErrorPayload {
    pub rcode: Option<String>,
    pub info_code: Option<u16>,
}

/// The value a `DnsErrorPayload` stands for.
pub struct DnsErrorPayloadView {
    pub rcode: Option<Seq<char>>,
    pub info_code: Option<u16>,
}

impl DeepView for DnsErrorPayload {
    type V = DnsErrorPayloadView;

    open spec fn deep_view(&self) -> DnsErrorPayloadView {
        DnsErrorPayloadView { rcode: self.rcode.deep_view(), info_code: self.info_code }
    }
}

/// Encoding of a `DnsErrorPayload`: its fields in order.
pub open spec fn dns_error_bytes(v: DnsErrorPayloadView) -> Seq<u8> {
    opt_str_bytes(v.rcode) + opt_u16_bytes(v.info_code)
}

/// Whether every string of a `DnsErrorPayload` is short enough to be written.
pub open spec fn dns_error_fits(v: DnsErrorPayloadView) -> bool {
    opt_str_fits(v.rcode)
}

/// Reading a `DnsErrorPayload`.
pub open spec fn dns_error_read(t: Seq<u8>, k: nat) -> Read<DnsErrorPayloadView> {
    match opt_str_read(t, k) {
        Read::Done(rcode, e) => map_read(
            opt_u16_read(t, e),
            |info_code: Option<u16>| DnsErrorPayloadView { rcode, info_code },
        ),
        Read::Incomplete => Read::Incomplete,
        Read::Invalid(x) => Read::Invalid(x),
    }
}

fn write_dns_error(v: &DnsErrorPayload, dst: &mut Vec<u8>) -> (r: Result<(), CodecError>)
    ensures
        r is Ok <==> dns_error_fits(v.deep_view()),
        r is Ok ==> final(dst)@ == old(dst)@ + dns_error_bytes(v.deep_view()),
        r is Err ==> r == Err::<(), CodecError>(CodecError::TooLong),
{
    let r = write_opt_str(&v.rcode, dst);
    if r.is_err() {
        return r;
    }
    write_opt_u16(v.info_code, dst);
    assert(dst@ =~= old(dst)@ + dns_error_bytes(v.deep_view()));
    Ok(())
}

impl DnsErrorPayload {
    /// Appends the encoding to `payload`; nothing is appended when a string
    /// in it is too long to be written.
    pub fn encode_sync(self, payload: &mut Vec<u8>) -> (r: Result<(), CodecError>)
        ensures
            r is Ok <==> dns_error_fits(self.deep_view()),
            r is Ok ==> final(payload)@ == old(payload)@ + dns_error_bytes(self.deep_view()),
            r is Err ==> r == Err::<(), CodecError>(CodecError::TooLong) && final(payload)@ == old(payload)@,
    {
        let mut buf: Vec<u8> = Vec::new();
        let r = write_dns_error(&self, &mut buf);
        if r.is_ok() {
            payload.append(&mut buf);
        }
        r
    }

    /// Reads a `DnsErrorPayload` at position `k` of `src`.
    pub fn receive(src: &[u8], k: usize) -> (r: Result<Option<(DnsErrorPayload, usize)>, CodecError>)
        ensures
            decoded(r) == dns_error_read(src@, k as nat),
    {
        match read_opt_str(src, k) {
            Err(x) => Err(x),
            Ok(None) => Ok(None),
            Ok(Some((rcode, e))) => match read_opt_u16(src, e) {
                Err(x) => Err(x),
                Ok(None) => Ok(None),
                Ok(Some((info_code, e2))) => Ok(Some((DnsErrorPayload { rcode, info_code }, e2))),
            },
        }
    }
}

/// A `DnsErrorPayload` reads back as itself, whatever precedes or follows it.
pub proof fn lemma_dns_error_roundtrip(p: Seq<u8>, v: DnsErrorPayloadView, rest: Seq<u8>)
    requires
        dns_error_fits(v),
    ensures
        dns_error_read(p + dns_error_bytes(v) + rest, p.len()) == Read::Done(v, p.len() + dns_error_bytes(v).len()),
{
    let a = opt_str_bytes(v.rcode);
    let b = opt_u16_bytes(v.info_code);
    let t = p + dns_error_bytes(v) + rest;
    assert(t =~= p + a + (b + rest));
    lemma_opt_str_roundtrip(p, v.rcode, b + rest);
    assert(t =~= p + a + b + rest);
    lemma_opt_u16_roundtrip(p + a, v.info_code, rest);
}

/// Details of a TLS alert.
#[derive(Clone, Debug, PartialEq, Eq)]
pub struct TlsAlertReceivedPayload {
    pub alert_id: Option<u8>,
    pub alert_message: Option<String>,
}

/// The value a `TlsAlertReceivedPayload` stands for.
pub struct TlsAlertReceivedPayloadView {
    pub alert_id: Option<u8>,
    pub alert_message: Option<Seq<char>>,
}

impl DeepView for TlsAlertReceivedPayload {
    type V = TlsAlertReceivedPayloadView;

    open spec fn deep_view(&self) -> TlsAlertReceivedPayloadView {
        TlsAlertReceivedPayloadView { alert_id: self.alert_id, alert_message: self.alert_message.deep_view() }
    }
}

/// Encoding of a `TlsAlertReceivedPayload`: its fields in order.
pub open spec fn tls_alert_bytes(v: TlsAlertReceivedPayloadView) -> Seq<u8> {
    opt_byte_bytes(v.alert_id) + opt_str_bytes(v.alert_message)
}

/// Whether every string of a `TlsAlertReceivedPayload` is short enough to be written.
pub open spec fn tls_alert_fits(v: TlsAlertReceivedPayloadView) -> bool {
    opt_str_fits(v.alert_message)
}

/// Reading a `TlsAlertReceivedPayload`.
pub open spec fn tls_alert_read(t: Seq<u8>, k: nat) -> Read<TlsAlertReceivedPayloadView> {
    match opt_byte_read(t, k) {
        Read::Done(alert_id, e) => map_read(
            opt_str_read(t, e),
            |alert_message: Option<Seq<char>>| TlsAlertReceivedPayloadView { alert_id, alert_message },
        ),
        Read::Incomplete => Read::Incomplete,
        Read::Invalid(x) => Read::Invalid(x),
    }
}

fn write_tls_alert(v: &TlsAlertReceivedPayload, dst: &mut Vec<u8>) -> (r: Result<(), CodecError>)
    ensures
        r is Ok <==> tls_alert_fits(v.deep_view()),
        r is Ok ==> final(dst)@ == old(dst)@ + tls_alert_bytes(v.deep_view()),
        r is Err ==> r == Err::<(), CodecError>(CodecError::TooLong),
{
    write_opt_byte(v.alert_id, dst);
    let r = write_opt_str(&v.alert_message, dst);
    if r.is_err() {
        return r;
    }
    assert(dst@ =~= old(dst)@ + tls_alert_bytes(v.deep_view()));
    Ok(())
}

impl TlsAlertReceivedPayload {
    /// Appends the encoding to `payload`; nothing is appended when a string
    /// in it is too long to be written.
    pub fn encode_sync(self, payload: &mut Vec<u8>) -> (r: Result<(), CodecError>)
        ensures
            r is Ok <==> tls_alert_fits(self.deep_view()),
            r is Ok ==> final(payload)@ == old(payload)@ + tls_alert_bytes(self.deep_view()),
            r is Err ==> r == Err::<(), CodecError>(CodecError::TooLong) && final(payload)@ == old(payload)@,
    {
        let mut buf: Vec<u8> = Vec::new();
        let r = write_tls_alert(&self, &mut buf);
        if r.is_ok() {
            payload.append(&mut buf);
        }
        r
    }

    /// Reads a `TlsAlertReceivedPayload` at position `k` of `src`.
    pub fn receive(src: &[u8], k: usize) -> (r: Result<Option<(TlsAlertReceivedPayload, usize)>, CodecError>)
        ensures
            decoded(r) == tls_alert_read(src@, k as nat),
    {
        match read_opt_byte(src, k) {
            Err(x) => Err(x),
            Ok(None) => Ok(None),
            Ok(Some((alert_id, e))) => match read_opt_str(src, e) {
                Err(x) => Err(x),
                Ok(None) => Ok(None),
                Ok(Some((alert_message, e2))) => Ok(Some((TlsAlertReceivedPayload { alert_id, alert_message }, e2))),
            },
        }
    }
}

/// A `TlsAlertReceivedPayload` reads back as itself, whatever precedes or follows it.
pub proof fn lemma_tls_alert_roundtrip(p: Seq<u8>, v: TlsAlertReceivedPayloadView, rest: Seq<u8>)
    requires
        tls_alert_fits(v),
    ensures
        tls_alert_read(p + tls_alert_bytes(v) + rest, p.len()) == Read::Done(v, p.len() + tls_alert_bytes(v).len()),
{
    let a = opt_byte_bytes(v.alert_id);
    let b = opt_str_bytes(v.alert_message);
    let t = p + tls_alert_bytes(v) + rest;
    assert(t =~= p + a + (b + rest));
    lemma_opt_byte_roundtrip(p, v.alert_id, b + rest);
    assert(t =~= p + a + b + rest);
    lemma_opt_str_roundtrip(p + a, v.alert_message, rest);
}

/// The name and size of a header or trailer field that was too large.
#[derive(Clone, Debug, PartialEq, Eq)]
pub struct FieldSizePayload {
    pub field_name: Option<String>,
    pub field_size: Option<u32>,
}

/// The value a `FieldSizePayload` stands for.
pub struct FieldSizePayloadView {
    pub field_name: Option<Seq<char>>,
    pub field_size: Option<u32>,
}

impl DeepView for FieldSizePayload {
    type V = FieldSizePayloadView;

    open spec fn deep_view(&self) -> FieldSizePayloadView {
        FieldSizePayloadView { field_name: self.field_name.deep_view(), field_size: self.field_size }
    }
}

/// Encoding of a `FieldSizePayload`: its fields in order.
pub open spec fn field_size_bytes(v: FieldSizePayloadView) -> Seq<u8> {
    opt_str_bytes(v.field_name) + opt_u32_bytes(v.field_size)
}

/// Whether every string of a `FieldSizePayload` is short enough to be written.
pub open spec fn field_size_fits(v: FieldSizePayloadView) -> bool {
    opt_str_fits(v.field_name)
}

/// Reading a `FieldSizePayload`.
pub open spec fn field_size_read(t: Seq<u8>, k: nat) -> Read<FieldSizePayloadView> {
    match opt_str_read(t, k) {
        Read::Done(field_name, e) => map_read(
            opt_u32_read(t, e),
            |field_size: Option<u32>| FieldSizePayloadView { field_name, field_size },
        ),
        Read::Incomplete => Read::Incomplete,
        Read::Invalid(x) => Read::Invalid(x),
    }
}

fn write_field_size(v: &FieldSizePayload, dst: &mut Vec<u8>) -> (r: Result<(), CodecError>)
    ensures
        r is Ok <==> field_size_fits(v.deep_view()),
        r is Ok ==> final(dst)@ == old(dst)@ + field_size_bytes(v.deep_view()),
        r is Err ==> r == Err::<(), CodecError>(CodecError::TooLong),
{
    let r = write_opt_str(&v.field_name, dst);
    if r.is_err() {
        return r;
    }
    write_opt_u32(v.field_size, dst);
    assert(dst@ =~= old(dst)@ + field_size_bytes(v.deep_view()));
    Ok(())
}

impl FieldSizePayload {
    /// Appends the encoding to `payload`; nothing is appended when a string
    /// in it is too long to be written.
    pub fn encode_sync(self, payload: &mut Vec<u8>) -> (r: Result<(), CodecError>)
        ensures
            r is Ok <==> field_size_fits(self.deep_view()),
            r is Ok ==> final(payload)@ == old(payload)@ + field_size_bytes(self.deep_view()),
            r is Err ==> r == Err::<(), CodecError>(CodecError::TooLong) && final(payload)@ == old(payload)@,
    {
        let mut buf: Vec<u8> = Vec::new();
        let r = write_field_size(&self, &mut buf);
        if r.is_ok() {
            payload.append(&mut buf);
        }
        r
    }

    /// Reads a `FieldSizePayload` at position `k` of `src`.
    pub fn receive(src: &[u8], k: usize) -> (r: Result<Option<(FieldSizePayload, usize)>, CodecError>)
        ensures
            decoded(r) == field_size_read(src@, k as nat),
    {
        match read_opt_str(src, k) {
            Err(x) => Err(x),
            Ok(None) => Ok(None),
            Ok(Some((field_name, e))) => match read_opt_u32(src, e) {
                Err(x) => Err(x),
                Ok(None) => Ok(None),
                Ok(Some((field_size, e2))) => Ok(Some((FieldSizePayload { field_name, field_size }, e2))),
            },
        }
    }
}

/// A `FieldSizePayload` reads back as itself, whatever precedes or follows it.
pub proof fn lemma_field_size_roundtrip(p: Seq<u8>, v: FieldSizePayloadView, rest: Seq<u8>)
    requires
        field_size_fits(v),
    ensures
        field_size_read(p + field_size_bytes(v) + rest, p.len()) == Read::Done(v, p.len() + field_size_bytes(v).len()),
{
    let a = opt_str_bytes(v.field_name);
    let b = opt_u32_bytes(v.field_size);
    let t = p + field_size_bytes(v) + rest;
    assert(t =~= p + a + (b + rest));
    lemma_opt_str_roundtrip(p, v.field_name, b + rest);
    assert(t =~= p + a + b + rest);
    lemma_opt_u32_roundtrip(p + a, v.field_size, rest);
}

/// Reading an optional `FieldSizePayload`.
pub open spec fn opt_field_size_read(t: Seq<u8>, k: nat) -> Read<Option<FieldSizePayloadView>> {
    opt_read(t, k, |j: nat| field_size_read(t, j))
}

/// Encoding of an optional `FieldSizePayload`.
pub open spec fn opt_field_size_bytes(o: Option<FieldSizePayloadView>) -> Seq<u8> {
    opt_bytes(o, |f: FieldSizePayloadView| field_size_bytes(f))
}

/// Whether an optional `FieldSizePayload` can be written.
pub open spec fn opt_field_size_fits(o: Option<FieldSizePayloadView>) -> bool {
    match o {
        Some(f) => field_size_fits(f),
        None => true,
    }
}

fn read_opt_field_size(src: &[u8], k: usize) -> (r: Result<Option<(Option<FieldSizePayload>, usize)>, CodecError>)
    ensures
        decoded(r) == opt_field_size_read(src@, k as nat),
{
    match read_flag(src, k) {
        Err(e) => Err(e),
        Ok(None) => Ok(None),
        Ok(Some((false, e))) => Ok(Some((None, e))),
        Ok(Some((true, e))) => match FieldSizePayload::receive(src, e) {
            Err(x) => Err(x),
            Ok(None) => Ok(None),
            Ok(Some((v, e2))) => Ok(Some((Some(v), e2))),
        },
    }
}

fn write_opt_field_size(o: &Option<FieldSizePayload>, dst: &mut Vec<u8>) -> (r: Result<(), CodecError>)
    ensures
        r is Ok <==> opt_field_size_fits(o.deep_view()),
        r is Ok ==> final(dst)@ == old(dst)@ + opt_field_size_bytes(o.deep_view()),
        r is Err ==> r == Err::<(), CodecError>(CodecError::TooLong),
{
    match o {
        None => {
            dst.push(0);
            Ok(())
        },
        Some(f) => {
            dst.push(1);
            let r = write_field_size(f, dst);
            assert(r is Ok ==> dst@ =~= old(dst)@ + opt_field_size_bytes(o.deep_view()));
            r
        },
    }
}

/// An optional `FieldSizePayload` reads back.
pub proof fn lemma_opt_field_size_roundtrip(p: Seq<u8>, o: Option<FieldSizePayloadView>, rest: Seq<u8>)
    requires
        opt_field_size_fits(o),
    ensures
        opt_field_size_read(p + opt_field_size_bytes(o) + rest, p.len()) == Read::Done(
            o,
            p.len() + opt_field_size_bytes(o).len(),
        ),
{
    let t = p + opt_field_size_bytes(o) + rest;
    match o {
        None => {
            assert(t =~= p + seq![0u8] + rest);
            assert(t[p.len() as int] == 0);
        },
        Some(f) => {
            let q = p + seq![1u8];
            assert(t =~= q + field_size_bytes(f) + rest);
            assert(t[p.len() as int] == 1);
            lemma_field_size_roundtrip(q, f, rest);
        },
    }
}

/// Failure of an outgoing HTTP request, as `wasi:http` names it.
#[derive(Clone, Debug, PartialEq, Eq)]
pub enum ErrorCode {
    DnsTimeout,
    DnsError(DnsErrorPayload),
    DestinationNotFound,
    DestinationUnavailable,
    DestinationIpProhibited,
    DestinationIpUnroutable,
    ConnectionRefused,
    ConnectionTerminated,
    ConnectionTimeout,
    ConnectionReadTimeout,
    ConnectionWriteTimeout,
    ConnectionLimitReached,
    TlsProtocolError,
    TlsCertificateError,
    TlsAlertReceived(TlsAlertReceivedPayload),
    HttpRequestDenied,
    HttpRequestLengthRequired,
    HttpRequestBodySize(Option<u64>),
    HttpRequestMethodInvalid,
    HttpRequestUriInvalid,
    HttpRequestUriTooLong,
    HttpRequestHeaderSectionSize(Option<u32>),
    HttpRequestHeaderSize(Option<FieldSizePayload>),
    HttpRequestTrailerSectionSize(Option<u32>),
    HttpRequestTrailerSize(FieldSizePayload),
    HttpResponseIncomplete,
    HttpResponseHeaderSectionSize(Option<u32>),
    HttpResponseHeaderSize(FieldSizePayload),
    HttpResponseBodySize(Option<u64>),
    HttpResponseTrailerSectionSize(Option<u32>),
    HttpResponseTrailerSize(FieldSizePayload),
    HttpResponseTransferCoding(Option<String>),
    HttpResponseContentCoding(Option<String>),
    HttpResponseTimeout,
    HttpUpgradeFailed,
    HttpProtocolError,
    LoopDetected,
    ConfigurationError,
    InternalError(Option<String>),
}

/// The value an `ErrorCode` stands for, with strings as character sequences.
pub enum ErrorCodeView {
    DnsTimeout,
    DnsError(DnsErrorPayloadView),
    DestinationNotFound,
    DestinationUnavailable,
    DestinationIpProhibited,
    DestinationIpUnroutable,
    ConnectionRefused,
    ConnectionTerminated,
    ConnectionTimeout,
    ConnectionReadTimeout,
    ConnectionWriteTimeout,
    ConnectionLimitReached,
    TlsProtocolError,
    TlsCertificateError,
    TlsAlertReceived(TlsAlertReceivedPayloadView),
    HttpRequestDenied,
    HttpRequestLengthRequired,
    HttpRequestBodySize(Option<u64>),
    HttpRequestMethodInvalid,
    HttpRequestUriInvalid,
    HttpRequestUriTooLong,
    HttpRequestHeaderSectionSize(Option<u32>),
    HttpRequestHeaderSize(Option<FieldSizePayloadView>),
    HttpRequestTrailerSectionSize(Option<u32>),
    HttpRequestTrailerSize(FieldSizePayloadView),
    HttpResponseIncomplete,
    HttpResponseHeaderSectionSize(Option<u32>),
    HttpResponseHeaderSize(FieldSizePayloadView),
    HttpResponseBodySize(Option<u64>),
    HttpResponseTrailerSectionSize(Option<u32>),
    HttpResponseTrailerSize(FieldSizePayloadView),
    HttpResponseTransferCoding(Option<Seq<char>>),
    HttpResponseContentCoding(Option<Seq<char>>),
    HttpResponseTimeout,
    HttpUpgradeFailed,
    HttpProtocolError,
    LoopDetected,
    ConfigurationError,
    InternalError(Option<Seq<char>>),
}

impl DeepView for ErrorCode {
    type V = ErrorCodeView;

    open spec fn deep_view(&self) -> ErrorCodeView {
        match self {
            ErrorCode::DnsTimeout => ErrorCodeView::DnsTimeout,
            ErrorCode::DnsError(v) => ErrorCodeView::DnsError(v.deep_view()),
            ErrorCode::DestinationNotFound => ErrorCodeView::DestinationNotFound,
            ErrorCode::DestinationUnavailable => ErrorCodeView::DestinationUnavailable,
            ErrorCode::DestinationIpProhibited => ErrorCodeView::DestinationIpProhibited,
            ErrorCode::DestinationIpUnroutable => ErrorCodeView::DestinationIpUnroutable,
            ErrorCode::ConnectionRefused => ErrorCodeView::ConnectionRefused,
            ErrorCode::ConnectionTerminated => ErrorCodeView::ConnectionTerminated,
            ErrorCode::ConnectionTimeout => ErrorCodeView::ConnectionTimeout,
            ErrorCode::ConnectionReadTimeout => ErrorCodeView::ConnectionReadTimeout,
            ErrorCode::ConnectionWriteTimeout => ErrorCodeView::ConnectionWriteTimeout,
            ErrorCode::ConnectionLimitReached => ErrorCodeView::ConnectionLimitReached,
            ErrorCode::TlsProtocolError => ErrorCodeView::TlsProtocolError,
            ErrorCode::TlsCertificateError => ErrorCodeView::TlsCertificateError,
            ErrorCode::TlsAlertReceived(v) => ErrorCodeView::TlsAlertReceived(v.deep_view()),
            ErrorCode::HttpRequestDenied => ErrorCodeView::HttpRequestDenied,
            ErrorCode::HttpRequestLengthRequired => ErrorCodeView::HttpRequestLengthRequired,
            ErrorCode::HttpRequestBodySize(v) => ErrorCodeView::HttpRequestBodySize(v.deep_view()),
            ErrorCode::HttpRequestMethodInvalid => ErrorCodeView::HttpRequestMethodInvalid,
            ErrorCode::HttpRequestUriInvalid => ErrorCodeView::HttpRequestUriInvalid,
            ErrorCode::HttpRequestUriTooLong => ErrorCodeView::HttpRequestUriTooLong,
            ErrorCode::HttpRequestHeaderSectionSize(v) => ErrorCodeView::HttpRequestHeaderSectionSize(v.deep_view()),
            ErrorCode::HttpRequestHeaderSize(v) => ErrorCodeView::HttpRequestHeaderSize(v.deep_view()),
            ErrorCode::HttpRequestTrailerSectionSize(v) => ErrorCodeView::HttpRequestTrailerSectionSize(v.deep_view()),
            ErrorCode::HttpRequestTrailerSize(v) => ErrorCodeView::HttpRequestTrailerSize(v.deep_view()),
            ErrorCode::HttpResponseIncomplete => ErrorCodeView::HttpResponseIncomplete,
            ErrorCode::HttpResponseHeaderSectionSize(v) => ErrorCodeView::HttpResponseHeaderSectionSize(v.deep_view()),
            ErrorCode::HttpResponseHeaderSize(v) => ErrorCodeView::HttpResponseHeaderSize(v.deep_view()),
            ErrorCode::HttpResponseBodySize(v) => ErrorCodeView::HttpResponseBodySize(v.deep_view()),
            ErrorCode::HttpResponseTrailerSectionSize(v) => ErrorCodeView::HttpResponseTrailerSectionSize(v.deep_view()),
            ErrorCode::HttpResponseTrailerSize(v) => ErrorCodeView::HttpResponseTrailerSize(v.deep_view()),
            ErrorCode::HttpResponseTransferCoding(v) => ErrorCodeView::HttpResponseTransferCoding(v.deep_view()),
            ErrorCode::HttpResponseContentCoding(v) => ErrorCodeView::HttpResponseContentCoding(v.deep_view()),
            ErrorCode::HttpResponseTimeout => ErrorCodeView::HttpResponseTimeout,
            ErrorCode::HttpUpgradeFailed => ErrorCodeView::HttpUpgradeFailed,
            ErrorCode::HttpProtocolError => ErrorCodeView::HttpProtocolError,
            ErrorCode::LoopDetected => ErrorCodeView::LoopDetected,
            ErrorCode::ConfigurationError => ErrorCodeView::ConfigurationError,
            ErrorCode::InternalError(v) => ErrorCodeView::InternalError(v.deep_view()),
        }
    }
}

/// The discriminant that precedes each case on the wire.
pub open spec fn error_code_discriminant(v: ErrorCodeView) -> u32 {
    match v {
        ErrorCodeView::DnsTimeout => 0,
        ErrorCodeView::DnsError(_) => 1,
        ErrorCodeView::DestinationNotFound => 2,
        ErrorCodeView::DestinationUnavailable => 3,
        ErrorCodeView::DestinationIpProhibited => 4,
        ErrorCodeView::DestinationIpUnroutable => 5,
        ErrorCodeView::ConnectionRefused => 6,
        ErrorCodeView::ConnectionTerminated => 7,
        ErrorCodeView::ConnectionTimeout => 8,
        ErrorCodeView::ConnectionReadTimeout => 9,
        ErrorCodeView::ConnectionWriteTimeout => 10,
        ErrorCodeView::ConnectionLimitReached => 11,
        ErrorCodeView::TlsProtocolError => 12,
        ErrorCodeView::TlsCertificateError => 13,
        ErrorCodeView::TlsAlertReceived(_) => 14,
        ErrorCodeView::HttpRequestDenied => 15,
        ErrorCodeView::HttpRequestLengthRequired => 16,
        ErrorCodeView::HttpRequestBodySize(_) => 17,
        ErrorCodeView::HttpRequestMethodInvalid => 18,
        ErrorCodeView::HttpRequestUriInvalid => 19,
        ErrorCodeView::HttpRequestUriTooLong => 20,
        ErrorCodeView::HttpRequestHeaderSectionSize(_) => 21,
        ErrorCodeView::HttpRequestHeaderSize(_) => 22,
        ErrorCodeView::HttpRequestTrailerSectionSize(_) => 23,
        ErrorCodeView::HttpRequestTrailerSize(_) => 24,
        ErrorCodeView::HttpResponseIncomplete => 25,
        ErrorCodeView::HttpResponseHeaderSectionSize(_) => 26,
        ErrorCodeView::HttpResponseHeaderSize(_) => 27,
        ErrorCodeView::HttpResponseBodySize(_) => 28,
        ErrorCodeView::HttpResponseTrailerSectionSize(_) => 29,
        ErrorCodeView::HttpResponseTrailerSize(_) => 30,
        ErrorCodeView::HttpResponseTransferCoding(_) => 31,
        ErrorCodeView::HttpResponseContentCoding(_) => 32,
        ErrorCodeView::HttpResponseTimeout => 33,
        ErrorCodeView::HttpUpgradeFailed => 34,
        ErrorCodeView::HttpProtocolError => 35,
        ErrorCodeView::LoopDetected => 36,
        ErrorCodeView::ConfigurationError => 37,
        ErrorCodeView::InternalError(_) => 38,
    }
}

/// The encoding of a case's payload, empty for a case without one.
pub open spec fn error_code_payload_bytes(v: ErrorCodeView) -> Seq<u8> {
    match v {
        ErrorCodeView::DnsError(p) => dns_error_bytes(p),
        ErrorCodeView::TlsAlertReceived(p) => tls_alert_bytes(p),
        ErrorCodeView::HttpRequestBodySize(p) => opt_u64_bytes(p),
        ErrorCodeView::HttpRequestHeaderSectionSize(p) => opt_u32_bytes(p),
        ErrorCodeView::HttpRequestHeaderSize(p) => opt_field_size_bytes(p),
        ErrorCodeView::HttpRequestTrailerSectionSize(p) => opt_u32_bytes(p),
        ErrorCodeView::HttpRequestTrailerSize(p) => field_size_bytes(p),
        ErrorCodeView::HttpResponseHeaderSectionSize(p) => opt_u32_bytes(p),
        ErrorCodeView::HttpResponseHeaderSize(p) => field_size_bytes(p),
        ErrorCodeView::HttpResponseBodySize(p) => opt_u64_bytes(p),
        ErrorCodeView::HttpResponseTrailerSectionSize(p) => opt_u32_bytes(p),
        ErrorCodeView::HttpResponseTrailerSize(p) => field_size_bytes(p),
        ErrorCodeView::HttpResponseTransferCoding(p) => opt_str_bytes(p),
        ErrorCodeView::HttpResponseContentCoding(p) => opt_str_bytes(p),
        ErrorCodeView::InternalError(p) => opt_str_bytes(p),
        _ => Seq::empty(),
    }
}

/// Encoding of an error code: its discriminant, then its payload.
pub open spec fn error_code_bytes(v: ErrorCodeView) -> Seq<u8> {
    uleb(error_code_discriminant(v) as nat) + error_code_payload_bytes(v)
}

/// Whether every string in an error code is short enough to be written.
pub open spec fn error_code_fits(v: ErrorCodeView) -> bool {
    match v {
        ErrorCodeView::DnsError(p) => dns_error_fits(p),
        ErrorCodeView::TlsAlertReceived(p) => tls_alert_fits(p),
        ErrorCodeView::HttpRequestHeaderSize(p) => opt_field_size_fits(p),
        ErrorCodeView::HttpRequestTrailerSize(p) => field_size_fits(p),
        ErrorCodeView::HttpResponseHeaderSize(p) => field_size_fits(p),
        ErrorCodeView::HttpResponseTrailerSize(p) => field_size_fits(p),
        ErrorCodeView::HttpResponseTransferCoding(p) => opt_str_fits(p),
        ErrorCodeView::HttpResponseContentCoding(p) => opt_str_fits(p),
        ErrorCodeView::InternalError(p) => opt_str_fits(p),
        _ => true,
    }
}

/// Reading the case named by discriminant `d`, whose payload starts at `e`.
pub open spec fn error_code_case_read(t: Seq<u8>, d: u32, e: nat) -> Read<ErrorCodeView> {
    if d == 0 {
        Read::Done(ErrorCodeView::DnsTimeout, e)
    } else if d == 1 {
        map_read(dns_error_read(t, e), |p: DnsErrorPayloadView| ErrorCodeView::DnsError(p))
    } else if d == 2 {
        Read::Done(ErrorCodeView::DestinationNotFound, e)
    } else if d == 3 {
        Read::Done(ErrorCodeView::DestinationUnavailable, e)
    } else if d == 4 {
        Read::Done(ErrorCodeView::DestinationIpProhibited, e)
    } else if d == 5 {
        Read::Done(ErrorCodeView::DestinationIpUnroutable, e)
    } else if d == 6 {
        Read::Done(ErrorCodeView::ConnectionRefused, e)
    } else if d == 7 {
        Read::Done(ErrorCodeView::ConnectionTerminated, e)
    } else if d == 8 {
        Read::Done(ErrorCodeView::ConnectionTimeout, e)
    } else if d == 9 {
        Read::Done(ErrorCodeView::ConnectionReadTimeout, e)
    } else if d == 10 {
        Read::Done(ErrorCodeView::ConnectionWriteTimeout, e)
    } else if d == 11 {
        Read::Done(ErrorCodeView::ConnectionLimitReached, e)
    } else if d == 12 {
        Read::Done(ErrorCodeView::TlsProtocolError, e)
    } else if d == 13 {
        Read::Done(ErrorCodeView::TlsCertificateError, e)
    } else if d == 14 {
        map_read(tls_alert_read(t, e), |p: TlsAlertReceivedPayloadView| ErrorCodeView::TlsAlertReceived(p))
    } else if d == 15 {
        Read::Done(ErrorCodeView::HttpRequestDenied, e)
    } else if d == 16 {
        Read::Done(ErrorCodeView::HttpRequestLengthRequired, e)
    } else if d == 17 {
        map_read(opt_u64_read(t, e), |p: Option<u64>| ErrorCodeView::HttpRequestBodySize(p))
    } else if d == 18 {
        Read::Done(ErrorCodeView::HttpRequestMethodInvalid, e)
    } else if d == 19 {
        Read::Done(ErrorCodeView::HttpRequestUriInvalid, e)
    } else if d == 20 {
        Read::Done(ErrorCodeView::HttpRequestUriTooLong, e)
    } else if d == 21 {
        map_read(opt_u32_read(t, e), |p: Option<u32>| ErrorCodeView::HttpRequestHeaderSectionSize(p))
    } else if d == 22 {
        map_read(opt_field_size_read(t, e), |p: Option<FieldSizePayloadView>| ErrorCodeView::HttpRequestHeaderSize(p))
    } else if d == 23 {
        map_read(opt_u32_read(t, e), |p: Option<u32>| ErrorCodeView::HttpRequestTrailerSectionSize(p))
    } else if d == 24 {
        map_read(field_size_read(t, e), |p: FieldSizePayloadView| ErrorCodeView::HttpRequestTrailerSize(p))
    } else if d == 25 {
        Read::Done(ErrorCodeView::HttpResponseIncomplete, e)
    } else if d == 26 {
        map_read(opt_u32_read(t, e), |p: Option<u32>| ErrorCodeView::HttpResponseHeaderSectionSize(p))
    } else if d == 27 {
        map_read(field_size_read(t, e), |p: FieldSizePayloadView| ErrorCodeView::HttpResponseHeaderSize(p))
    } else if d == 28 {
        map_read(opt_u64_read(t, e), |p: Option<u64>| ErrorCodeView::HttpResponseBodySize(p))
    } else if d == 29 {
        map_read(opt_u32_read(t, e), |p: Option<u32>| ErrorCodeView::HttpResponseTrailerSectionSize(p))
    } else if d == 30 {
        map_read(field_size_read(t, e), |p: FieldSizePayloadView| ErrorCodeView::HttpResponseTrailerSize(p))
    } else if d == 31 {
        map_read(opt_str_read(t, e), |p: Option<Seq<char>>| ErrorCodeView::HttpResponseTransferCoding(p))
    } else if d == 32 {
        map_read(opt_str_read(t, e), |p: Option<Seq<char>>| ErrorCodeView::HttpResponseContentCoding(p))
    } else if d == 33 {
        Read::Done(ErrorCodeView::HttpResponseTimeout, e)
    } else if d == 34 {
        Read::Done(ErrorCodeView::HttpUpgradeFailed, e)
    } else if d == 35 {
        Read::Done(ErrorCodeView::HttpProtocolError, e)
    } else if d == 36 {
        Read::Done(ErrorCodeView::LoopDetected, e)
    } else if d == 37 {
        Read::Done(ErrorCodeView::ConfigurationError, e)
    } else if d == 38 {
        map_read(opt_str_read(t, e), |p: Option<Seq<char>>| ErrorCodeView::InternalError(p))
    } else {
        Read::Invalid(CodecError::UnknownDiscriminant(d))
    }
}

/// Reading an error code: its discriminant, then the payload of that case.
pub open spec fn error_code_read(t: Seq<u8>, k: nat) -> Read<ErrorCodeView> {
    match u32_read(t, k) {
        Read::Done(d, e) => error_code_case_read(t, d, e),
        Read::Incomplete => Read::Incomplete,
        Read::Invalid(x) => Read::Invalid(x),
    }
}

fn write_error_code(v: &ErrorCode, dst: &mut Vec<u8>) -> (r: Result<(), CodecError>)
    ensures
        r is Ok <==> error_code_fits(v.deep_view()),
        r is Ok ==> final(dst)@ == old(dst)@ + error_code_bytes(v.deep_view()),
        r is Err ==> r == Err::<(), CodecError>(CodecError::TooLong),
{
    match v {
        ErrorCode::DnsTimeout => {
            write_u32(0, dst);
            assert(dst@ =~= old(dst)@ + error_code_bytes(v.deep_view()));
            Ok(())
        },
        ErrorCode::DnsError(p) => {
            write_u32(1, dst);
            let r = write_dns_error(p, dst);
            assert(r is Ok ==> dst@ =~= old(dst)@ + error_code_bytes(v.deep_view()));
            r
        },
        ErrorCode::DestinationNotFound => {
            write_u32(2, dst);
            assert(dst@ =~= old(dst)@ + error_code_bytes(v.deep_view()));
            Ok(())
        },
        ErrorCode::DestinationUnavailable => {
            write_u32(3, dst);
            assert(dst@ =~= old(dst)@ + error_code_bytes(v.deep_view()));
            Ok(())
        },
        ErrorCode::DestinationIpProhibited => {
            write_u32(4, dst);
            assert(dst@ =~= old(dst)@ + error_code_bytes(v.deep_view()));
            Ok(())
        },
        ErrorCode::DestinationIpUnroutable => {
            write_u32(5, dst);
            assert(dst@ =~= old(dst)@ + error_code_bytes(v.deep_view()));
            Ok(())
        },
        ErrorCode::ConnectionRefused => {
            write_u32(6, dst);
            assert(dst@ =~= old(dst)@ + error_code_bytes(v.deep_view()));
            Ok(())
        },
        ErrorCode::ConnectionTerminated => {
            write_u32(7, dst);
            assert(dst@ =~= old(dst)@ + error_code_bytes(v.deep_view()));
            Ok(())
        },
        ErrorCode::ConnectionTimeout => {
            write_u32(8, dst);
            assert(dst@ =~= old(dst)@ + error_code_bytes(v.deep_view()));
            Ok(())
        },
        ErrorCode::ConnectionReadTimeout => {
            write_u32(9, dst);
            assert(dst@ =~= old(dst)@ + error_code_bytes(v.deep_view()));
            Ok(())
        },
        ErrorCode::ConnectionWriteTimeout => {
            write_u32(10, dst);
            assert(dst@ =~= old(dst)@ + error_code_bytes(v.deep_view()));
            Ok(())
        },
        ErrorCode::ConnectionLimitReached => {
            write_u32(11, dst);
            assert(dst@ =~= old(dst)@ + error_code_bytes(v.deep_view()));
            Ok(())
        },
        ErrorCode::TlsProtocolError => {
            write_u32(12, dst);
            assert(dst@ =~= old(dst)@ + error_code_bytes(v.deep_view()));
            Ok(())
        },
        ErrorCode::TlsCertificateError => {
            write_u32(13, dst);
            assert(dst@ =~= old(dst)@ + error_code_bytes(v.deep_view()));
            Ok(())
        },
        ErrorCode::TlsAlertReceived(p) => {
            write_u32(14, dst);
            let r = write_tls_alert(p, dst);
            assert(r is Ok ==> dst@ =~= old(dst)@ + error_code_bytes(v.deep_view()));
            r
        },
        ErrorCode::HttpRequestDenied => {
            write_u32(15, dst);
            assert(dst@ =~= old(dst)@ + error_code_bytes(v.deep_view()));
            Ok(())
        },
        ErrorCode::HttpRequestLengthRequired => {
            write_u32(16, dst);
            assert(dst@ =~= old(dst)@ + error_code_bytes(v.deep_view()));
            Ok(())
        },
        ErrorCode::HttpRequestBodySize(p) => {
            write_u32(17, dst);
            let r = { write_opt_u64(*p, dst); Ok(()) };
            assert(r is Ok ==> dst@ =~= old(dst)@ + error_code_bytes(v.deep_view()));
            r
        },
        ErrorCode::HttpRequestMethodInvalid => {
            write_u32(18, dst);
            assert(dst@ =~= old(dst)@ + error_code_bytes(v.deep_view()));
            Ok(())
        },
        ErrorCode::HttpRequestUriInvalid => {
            write_u32(19, dst);
            assert(dst@ =~= old(dst)@ + error_code_bytes(v.deep_view()));
            Ok(())
        },
        ErrorCode::HttpRequestUriTooLong => {
            write_u32(20, dst);
            assert(dst@ =~= old(dst)@ + error_code_bytes(v.deep_view()));
            Ok(())
        },
        ErrorCode::HttpRequestHeaderSectionSize(p) => {
            write_u32(21, dst);
            let r = { write_opt_u32(*p, dst); Ok(()) };
            assert(r is Ok ==> dst@ =~= old(dst)@ + error_code_bytes(v.deep_view()));
            r
        },
        ErrorCode::HttpRequestHeaderSize(p) => {
            write_u32(22, dst);
            let r = write_opt_field_size(p, dst);
            assert(r is Ok ==> dst@ =~= old(dst)@ + error_code_bytes(v.deep_view()));
            r
        },
        ErrorCode::HttpRequestTrailerSectionSize(p) => {
            write_u32(23, dst);
            let r = { write_opt_u32(*p, dst); Ok(()) };
            assert(r is Ok ==> dst@ =~= old(dst)@ + error_code_bytes(v.deep_view()));
            r
        },
        ErrorCode::HttpRequestTrailerSize(p) => {
            write_u32(24, dst);
            let r = write_field_size(p, dst);
            assert(r is Ok ==> dst@ =~= old(dst)@ + error_code_bytes(v.deep_view()));
            r
        },
        ErrorCode::HttpResponseIncomplete => {
            write_u32(25, dst);
            assert(dst@ =~= old(dst)@ + error_code_bytes(v.deep_view()));
            Ok(())
        },
        ErrorCode::HttpResponseHeaderSectionSize(p) => {
            write_u32(26, dst);
            let r = { write_opt_u32(*p, dst); Ok(()) };
            assert(r is Ok ==> dst@ =~= old(dst)@ + error_code_bytes(v.deep_view()));
            r
        },
        ErrorCode::HttpResponseHeaderSize(p) => {
            write_u32(27, dst);
            let r = write_field_size(p, dst);
            assert(r is Ok ==> dst@ =~= old(dst)@ + error_code_bytes(v.deep_view()));
            r
        },
        ErrorCode::HttpResponseBodySize(p) => {
            write_u32(28, dst);
            let r = { write_opt_u64(*p, dst); Ok(()) };
            assert(r is Ok ==> dst@ =~= old(dst)@ + error_code_bytes(v.deep_view()));
            r
        },
        ErrorCode::HttpResponseTrailerSectionSize(p) => {
            write_u32(29, dst);
            let r = { write_opt_u32(*p, dst); Ok(()) };
            assert(r is Ok ==> dst@ =~= old(dst)@ + error_code_bytes(v.deep_view()));
            r
        },
        ErrorCode::HttpResponseTrailerSize(p) => {
            write_u32(30, dst);
            let r = write_field_size(p, dst);
            assert(r is Ok ==> dst@ =~= old(dst)@ + error_code_bytes(v.deep_view()));
            r
        },
        ErrorCode::HttpResponseTransferCoding(p) => {
            write_u32(31, dst);
            let r = write_opt_str(p, dst);
            assert(r is Ok ==> dst@ =~= old(dst)@ + error_code_bytes(v.deep_view()));
            r
        },
        ErrorCode::HttpResponseContentCoding(p) => {
            write_u32(32, dst);
            let r = write_opt_str(p, dst);
            assert(r is Ok ==> dst@ =~= old(dst)@ + error_code_bytes(v.deep_view()));
            r
        },
        ErrorCode::HttpResponseTimeout => {
            write_u32(33, dst);
            assert(dst@ =~= old(dst)@ + error_code_bytes(v.deep_view()));
            Ok(())
        },
        ErrorCode::HttpUpgradeFailed => {
            write_u32(34, dst);
            assert(dst@ =~= old(dst)@ + error_code_bytes(v.deep_view()));
            Ok(())
        },
        ErrorCode::HttpProtocolError => {
            write_u32(35, dst);
            assert(dst@ =~= old(dst)@ + error_code_bytes(v.deep_view()));
            Ok(())
        },
        ErrorCode::LoopDetected => {
            write_u32(36, dst);
            assert(dst@ =~= old(dst)@ + error_code_bytes(v.deep_view()));
            Ok(())
        },
        ErrorCode::ConfigurationError => {
            write_u32(37, dst);
            assert(dst@ =~= old(dst)@ + error_code_bytes(v.deep_view()));
            Ok(())
        },
        ErrorCode::InternalError(p) => {
            write_u32(38, dst);
            let r = write_opt_str(p, dst);
            assert(r is Ok ==> dst@ =~= old(dst)@ + error_code_bytes(v.deep_view()));
            r
        },
    }
}

impl ErrorCode {
    /// Appends the encoding of the error code to `payload`; nothing is
    /// appended when a string in it is too long to be written.
    pub fn encode_sync(self, payload: &mut Vec<u8>) -> (r: Result<(), CodecError>)
        ensures
            r is Ok <==> error_code_fits(self.deep_view()),
            r is Ok ==> final(payload)@ == old(payload)@ + error_code_bytes(self.deep_view()),
            r is Err ==> r == Err::<(), CodecError>(CodecError::TooLong) && final(payload)@ == old(payload)@,
    {
        let mut buf: Vec<u8> = Vec::new();
        let r = write_error_code(&self, &mut buf);
        if r.is_ok() {
            payload.append(&mut buf);
        }
        r
    }

    /// Reads an error code at position `k` of `src`.
    #[verifier::rlimit(40)]
    pub fn receive(src: &[u8], k: usize) -> (r: Result<Option<(ErrorCode, usize)>, CodecError>)
        ensures
            decoded(r) == error_code_read(src@, k as nat),
    {
        match read_u32_at(src, k) {
            Err(x) => Err(x),
            Ok(None) => Ok(None),
            Ok(Some((d, e))) => {
                if d == 0 {
                    Ok(Some((ErrorCode::DnsTimeout, e)))
                } else if d == 1 {
                    match DnsErrorPayload::receive(src, e) {
                        Err(x) => Err(x),
                        Ok(None) => Ok(None),
                        Ok(Some((p, e2))) => Ok(Some((ErrorCode::DnsError(p), e2))),
                    }
                } else if d == 2 {
                    Ok(Some((ErrorCode::DestinationNotFound, e)))
                } else if d == 3 {
                    Ok(Some((ErrorCode::DestinationUnavailable, e)))
                } else if d == 4 {
                    Ok(Some((ErrorCode::DestinationIpProhibited, e)))
                } else if d == 5 {
                    Ok(Some((ErrorCode::DestinationIpUnroutable, e)))
                } else if d == 6 {
                    Ok(Some((ErrorCode::ConnectionRefused, e)))
                } else if d == 7 {
                    Ok(Some((ErrorCode::ConnectionTerminated, e)))
                } else if d == 8 {
                    Ok(Some((ErrorCode::ConnectionTimeout, e)))
                } else if d == 9 {
                    Ok(Some((ErrorCode::ConnectionReadTimeout, e)))
                } else if d == 10 {
                    Ok(Some((ErrorCode::ConnectionWriteTimeout, e)))
                } else if d == 11 {
                    Ok(Some((ErrorCode::ConnectionLimitReached, e)))
                } else if d == 12 {
                    Ok(Some((ErrorCode::TlsProtocolError, e)))
                } else if d == 13 {
                    Ok(Some((ErrorCode::TlsCertificateError, e)))
                } else if d == 14 {
                    match TlsAlertReceivedPayload::receive(src, e) {
                        Err(x) => Err(x),
                        Ok(None) => Ok(None),
                        Ok(Some((p, e2))) => Ok(Some((ErrorCode::TlsAlertReceived(p), e2))),
                    }
                } else if d == 15 {
                    Ok(Some((ErrorCode::HttpRequestDenied, e)))
                } else if d == 16 {
                    Ok(Some((ErrorCode::HttpRequestLengthRequired, e)))
                } else if d == 17 {
                    match read_opt_u64(src, e) {
                        Err(x) => Err(x),
                        Ok(None) => Ok(None),
                        Ok(Some((p, e2))) => Ok(Some((ErrorCode::HttpRequestBodySize(p), e2))),
                    }
                } else if d == 18 {
                    Ok(Some((ErrorCode::HttpRequestMethodInvalid, e)))
                } else if d == 19 {
                    Ok(Some((ErrorCode::HttpRequestUriInvalid, e)))
                } else if d == 20 {
                    Ok(Some((ErrorCode::HttpRequestUriTooLong, e)))
                } else if d == 21 {
                    match read_opt_u32(src, e) {
                        Err(x) => Err(x),
                        Ok(None) => Ok(None),
                        Ok(Some((p, e2))) => Ok(Some((ErrorCode::HttpRequestHeaderSectionSize(p), e2))),
                    }
                } else if d == 22 {
                    match read_opt_field_size(src, e) {
                        Err(x) => Err(x),
                        Ok(None) => Ok(None),
                        Ok(Some((p, e2))) => Ok(Some((ErrorCode::HttpRequestHeaderSize(p), e2))),
                    }
                } else if d == 23 {
                    match read_opt_u32(src, e) {
                        Err(x) => Err(x),
                        Ok(None) => Ok(None),
                        Ok(Some((p, e2))) => Ok(Some((ErrorCode::HttpRequestTrailerSectionSize(p), e2))),
                    }
                } else if d == 24 {
                    match FieldSizePayload::receive(src, e) {
                        Err(x) => Err(x),
                        Ok(None) => Ok(None),
                        Ok(Some((p, e2))) => Ok(Some((ErrorCode::HttpRequestTrailerSize(p), e2))),
                    }
                } else if d == 25 {
                    Ok(Some((ErrorCode::HttpResponseIncomplete, e)))
                } else if d == 26 {
                    match read_opt_u32(src, e) {
                        Err(x) => Err(x),
                        Ok(None) => Ok(None),
                        Ok(Some((p, e2))) => Ok(Some((ErrorCode::HttpResponseHeaderSectionSize(p), e2))),
                    }
                } else if d == 27 {
                    match FieldSizePayload::receive(src, e) {
                        Err(x) => Err(x),
                        Ok(None) => Ok(None),
                        Ok(Some((p, e2))) => Ok(Some((ErrorCode::HttpResponseHeaderSize(p), e2))),
                    }
                } else if d == 28 {
                    match read_opt_u64(src, e) {
                        Err(x) => Err(x),
                        Ok(None) => Ok(None),
                        Ok(Some((p, e2))) => Ok(Some((ErrorCode::HttpResponseBodySize(p), e2))),
                    }
                } else if d == 29 {
                    match read_opt_u32(src, e) {
                        Err(x) => Err(x),
                        Ok(None) => Ok(None),
                        Ok(Some((p, e2))) => Ok(Some((ErrorCode::HttpResponseTrailerSectionSize(p), e2))),
                    }
                } else if d == 30 {
                    match FieldSizePayload::receive(src, e) {
                        Err(x) => Err(x),
                        Ok(None) => Ok(None),
                        Ok(Some((p, e2))) => Ok(Some((ErrorCode::HttpResponseTrailerSize(p), e2))),
                    }
                } else if d == 31 {
                    match read_opt_str(src, e) {
                        Err(x) => Err(x),
                        Ok(None) => Ok(None),
                        Ok(Some((p, e2))) => Ok(Some((ErrorCode::HttpResponseTransferCoding(p), e2))),
                    }
                } else if d == 32 {
                    match read_opt_str(src, e) {
                        Err(x) => Err(x),
                        Ok(None) => Ok(None),
                        Ok(Some((p, e2))) => Ok(Some((ErrorCode::HttpResponseContentCoding(p), e2))),
                    }
                } else if d == 33 {
                    Ok(Some((ErrorCode::HttpResponseTimeout, e)))
                } else if d == 34 {
                    Ok(Some((ErrorCode::HttpUpgradeFailed, e)))
                } else if d == 35 {
                    Ok(Some((ErrorCode::HttpProtocolError, e)))
                } else if d == 36 {
                    Ok(Some((ErrorCode::LoopDetected, e)))
                } else if d == 37 {
                    Ok(Some((ErrorCode::ConfigurationError, e)))
                } else if d == 38 {
                    match read_opt_str(src, e) {
                        Err(x) => Err(x),
                        Ok(None) => Ok(None),
                        Ok(Some((p, e2))) => Ok(Some((ErrorCode::InternalError(p), e2))),
                    }
                } else {
                    Err(CodecError::UnknownDiscriminant(d))
                }
            },
        }
    }
}

/// An error code reads back as itself, whatever precedes or follows it.
pub proof fn lemma_error_code_roundtrip(p: Seq<u8>, v: ErrorCodeView, rest: Seq<u8>)
    requires
        error_code_fits(v),
    ensures
        error_code_read(p + error_code_bytes(v) + rest, p.len()) == Read::Done(
            v,
            p.len() + error_code_bytes(v).len(),
        ),
{
    let d = error_code_discriminant(v);
    let pl = error_code_payload_bytes(v);
    let t = p + error_code_bytes(v) + rest;
    assert(t =~= p + uleb(d as nat) + (pl + rest));
    lemma_u32_read_roundtrip(p, d, pl + rest);
    let q = p + uleb(d as nat);
    assert(t =~= q + pl + rest);
    lemma_error_code_case(q, v, rest);
}

/// The payload of a case reads back as that case.
#[verifier::rlimit(60)]
#[verifier::spinoff_prover]
proof fn lemma_error_code_case(q: Seq<u8>, v: ErrorCodeView, rest: Seq<u8>)
    requires
        error_code_fits(v),
    ensures
        error_code_case_read(q + error_code_payload_bytes(v) + rest, error_code_discriminant(v), q.len())
            == Read::Done(v, q.len() + error_code_payload_bytes(v).len()),
{
    match v {
        ErrorCodeView::DnsError(x) => lemma_dns_error_roundtrip(q, x, rest),
        ErrorCodeView::TlsAlertReceived(x) => lemma_tls_alert_roundtrip(q, x, rest),
        ErrorCodeView::HttpRequestBodySize(x) => lemma_opt_u64_roundtrip(q, x, rest),
        ErrorCodeView::HttpRequestHeaderSectionSize(x) => lemma_opt_u32_roundtrip(q, x, rest),
        ErrorCodeView::HttpRequestHeaderSize(x) => lemma_opt_field_size_roundtrip(q, x, rest),
        ErrorCodeView::HttpRequestTrailerSectionSize(x) => lemma_opt_u32_roundtrip(q, x, rest),
        ErrorCodeView::HttpRequestTrailerSize(x) => lemma_field_size_roundtrip(q, x, rest),
        ErrorCodeView::HttpResponseHeaderSectionSize(x) => lemma_opt_u32_roundtrip(q, x, rest),
        ErrorCodeView::HttpResponseHeaderSize(x) => lemma_field_size_roundtrip(q, x, rest),
        ErrorCodeView::HttpResponseBodySize(x) => lemma_opt_u64_roundtrip(q, x, rest),
        ErrorCodeView::HttpResponseTrailerSectionSize(x) => lemma_opt_u32_roundtrip(q, x, rest),
        ErrorCodeView::HttpResponseTrailerSize(x) => lemma_field_size_roundtrip(q, x, rest),
        ErrorCodeView::HttpResponseTransferCoding(x) => lemma_opt_str_roundtrip(q, x, rest),
        ErrorCodeView::HttpResponseContentCoding(x) => lemma_opt_str_roundtrip(q, x, rest),
        ErrorCodeView::InternalError(x) => lemma_opt_str_roundtrip(q, x, rest),
        _ => {
            assert(error_code_payload_bytes(v) =~= Seq::<u8>::empty());
        },
    }
}

/// Timeouts of an outgoing request, in nanoseconds.
#[derive(Clone, Copy, Debug, PartialEq, Eq)]
pub struct RequestOptions {
    pub connect_timeout: Option<u64>,
    pub first_byte_timeout: Option<u64>,
    pub between_bytes_timeout: Option<u64>,
}

impl DeepView for RequestOptions {
    type V = RequestOptions;

    open spec fn deep_view(&self) -> RequestOptions {
        *self
    }
}

impl Default for RequestOptions {
    fn default() -> (r: Self)
        ensures
            r == (RequestOptions { connect_timeout: None, first_byte_timeout: None, between_bytes_timeout: None }),
    {
        RequestOptions { connect_timeout: None, first_byte_timeout: None, between_bytes_timeout: None }
    }
}

/// Encoding of request options: the three timeouts in order.
pub open spec fn request_options_bytes(v: RequestOptions) -> Seq<u8> {
    opt_u64_bytes(v.connect_timeout) + opt_u64_bytes(v.first_byte_timeout) + opt_u64_bytes(
        v.between_bytes_timeout,
    )
}

/// Reading request options.
pub open spec fn request_options_read(t: Seq<u8>, k: nat) -> Read<RequestOptions> {
    match opt_u64_read(t, k) {
        Read::Done(connect_timeout, e1) => match opt_u64_read(t, e1) {
            Read::Done(first_byte_timeout, e2) => map_read(
                opt_u64_read(t, e2),
                |between_bytes_timeout: Option<u64>|
                    RequestOptions { connect_timeout, first_byte_timeout, between_bytes_timeout },
            ),
            Read::Incomplete => Read::Incomplete,
            Read::Invalid(x) => Read::Invalid(x),
        },
        Read::Incomplete => Read::Incomplete,
        Read::Invalid(x) => Read::Invalid(x),
    }
}

impl RequestOptions {
    /// Appends the encoding to `payload`.
    pub fn encode_sync(self, payload: &mut Vec<u8>) -> (r: Result<(), CodecError>)
        ensures
            r is Ok,
            final(payload)@ == old(payload)@ + request_options_bytes(self),
    {
        write_opt_u64(self.connect_timeout, payload);
        write_opt_u64(self.first_byte_timeout, payload);
        write_opt_u64(self.between_bytes_timeout, payload);
        assert(payload@ =~= old(payload)@ + request_options_bytes(self));
        Ok(())
    }

    /// Reads request options at position `k` of `src`.
    pub fn receive(src: &[u8], k: usize) -> (r: Result<Option<(RequestOptions, usize)>, CodecError>)
        ensures
            decoded(r) == request_options_read(src@, k as nat),
    {
        match read_opt_u64(src, k) {
            Err(x) => Err(x),
            Ok(None) => Ok(None),
            Ok(Some((connect_timeout, e1))) => match read_opt_u64(src, e1) {
                Err(x) => Err(x),
                Ok(None) => Ok(None),
                Ok(Some((first_byte_timeout, e2))) => match read_opt_u64(src, e2) {
                    Err(x) => Err(x),
                    Ok(None) => Ok(None),
                    Ok(Some((between_bytes_timeout, e3))) => Ok(
                        Some(
                            (
                                RequestOptions {
                                    connect_timeout,
                                    first_byte_timeout,
                                    between_bytes_timeout,
                                },
                                e3,
                            ),
                        ),
                    ),
                },
            },
        }
    }
}

/// Request options read back as themselves, whatever precedes or follows them.
pub proof fn lemma_request_options_roundtrip(p: Seq<u8>, v: RequestOptions, rest: Seq<u8>)
    ensures
        request_options_read(p + request_options_bytes(v) + rest, p.len()) == Read::Done(
            v,
            p.len() + request_options_bytes(v).len(),
        ),
{
    let a = opt_u64_bytes(v.connect_timeout);
    let b = opt_u64_bytes(v.first_byte_timeout);
    let c = opt_u64_bytes(v.between_bytes_timeout);
    let t = p + request_options_bytes(v) + rest;
    assert(t =~= p + a + (b + c + rest));
    lemma_opt_u64_roundtrip(p, v.connect_timeout, b + c + rest);
    assert(t =~= p + a + b + (c + rest));
    lemma_opt_u64_roundtrip(p + a, v.first_byte_timeout, c + rest);
    assert(t =~= p + a + b + c + rest);
    lemma_opt_u64_roundtrip(p + a + b, v.between_bytes_timeout, rest);
}

} // verus!
