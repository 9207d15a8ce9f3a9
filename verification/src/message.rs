//! The synchronous head of an HTTP request and of an HTTP response: what is
//! written before their bodies and trailers, which follow as asynchronous
//! values on nested streams.

use vstd::prelude::*;

use crate::fields::{fields_bytes, fields_fit, write_fields, FieldView};
use crate::http::{
    method_bytes, method_fits, scheme_bytes, scheme_fits, Method, MethodView, Scheme, SchemeView,
};
use crate::leb128::{uleb, write_u32};
use crate::wire::{opt_bytes, opt_str_bytes, opt_str_fits, write_opt_str, CodecError};

verus! {

/// The head of an HTTP request.
pub struct RequestHead {
    pub method: Method,
    pub path_with_query: Option<String>,
    pub scheme: Option<Scheme>,
    pub authority: Option<String>,
    pub headers: Vec<(String, Vec<Vec<u8>>)>,
}

/// What a `RequestHead` stands for.
pub struct RequestHeadView {
    pub method: MethodView,
    pub path_with_query: Option<Seq<char>>,
    pub scheme: Option<SchemeView>,
    pub authority: Option<Seq<char>>,
    pub headers: Seq<FieldView>,
}

impl DeepView for RequestHead {
    type V = RequestHeadView;

    open spec fn deep_view(&self) -> RequestHeadView {
        RequestHeadView {
            method: self.method.deep_view(),
            path_with_query: self.path_with_query.deep_view(),
            scheme: self.scheme.deep_view(),
            authority: self.authority.deep_view(),
            headers: self.headers.deep_view(),
        }
    }
}

/// Encoding of an optional scheme.
pub open spec fn opt_scheme_bytes(o: Option<SchemeView>) -> Seq<u8> {
    opt_bytes(o, |s: SchemeView| scheme_bytes(s))
}

/// Whether an optional scheme can be written.
pub open spec fn opt_scheme_fits(o: Option<SchemeView>) -> bool {
    match o {
        Some(s) => scheme_fits(s),
        None => true,
    }
}

/// Encoding of a request head: the body and the trailers marked as pending,
/// then the method, the path with its query, the scheme, the authority and
/// the header fields.
pub open spec fn request_head_bytes(v: RequestHeadView) -> Seq<u8> {
    seq![0u8, 0u8] + method_bytes(v.method) + opt_str_bytes(v.path_with_query) + opt_scheme_bytes(
        v.scheme,
    ) + opt_str_bytes(v.authority) + fields_bytes(v.headers)
}

/// Whether every string and list of a request head is short enough to be
/// written.
pub open spec fn request_head_fits(v: RequestHeadView) -> bool {
    &&& method_fits(v.method)
    &&& opt_str_fits(v.path_with_query)
    &&& opt_scheme_fits(v.scheme)
    &&& opt_str_fits(v.authority)
    &&& fields_fit(v.headers)
}

impl RequestHead {
    /// Appends the head of the request to `payload`; nothing is appended when
    /// a string or a list is too long to be written.
    pub fn encode(self, payload: &mut Vec<u8>) -> (r: Result<(), CodecError>)
        ensures
            r is Ok <==> request_head_fits(self.deep_view()),
            r is Ok ==> final(payload)@ == old(payload)@ + request_head_bytes(self.deep_view()),
            r is Err ==> r == Err::<(), CodecError>(CodecError::TooLong) && final(payload)@ == old(payload)@,
    {
        let ghost v = self.deep_view();
        let RequestHead { method, path_with_query, scheme, authority, headers } = self;
        let mut b: Vec<u8> = Vec::new();
        b.push(0);
        b.push(0);
        if method.encode_sync(&mut b).is_err() {
            return Err(CodecError::TooLong);
        }
        if write_opt_str(&path_with_query, &mut b).is_err() {
            return Err(CodecError::TooLong);
        }
        let ghost b2 = b@;
        match scheme {
            None => {
                b.push(0);
            },
            Some(s) => {
                b.push(1);
                if s.encode_sync(&mut b).is_err() {
                    return Err(CodecError::TooLong);
                }
            },
        }
        assert(b@ == b2 + opt_scheme_bytes(v.scheme));
        if write_opt_str(&authority, &mut b).is_err() {
            return Err(CodecError::TooLong);
        }
        if write_fields(&headers, &mut b).is_err() {
            return Err(CodecError::TooLong);
        }
        assert(b@ =~= request_head_bytes(v));
        payload.append(&mut b);
        Ok(())
    }
}

/// The head of an HTTP response.
pub struct ResponseHead {
    pub status: u16,
    pub headers: Vec<(String, Vec<Vec<u8>>)>,
}

/// Encoding of a response head: the body and the trailers marked as
/// pending, then the status as a `u16` varint and the header fields.
pub open spec fn response_head_bytes(status: u16, headers: Seq<FieldView>) -> Seq<u8> {
    seq![0u8, 0u8] + uleb(status as nat) + fields_bytes(headers)
}

impl ResponseHead {
    /// Appends the head of the response to `payload`; nothing is appended
    /// when a header field is too long to be written.
    pub fn encode(self, payload: &mut Vec<u8>) -> (r: Result<(), CodecError>)
        ensures
            r is Ok <==> fields_fit(self.headers.deep_view()),
            r is Ok ==> final(payload)@ == old(payload)@ + response_head_bytes(
                self.status,
                self.headers.deep_view(),
            ),
            r is Err ==> r == Err::<(), CodecError>(CodecError::TooLong) && final(payload)@ == old(payload)@,
    {
        let mut b: Vec<u8> = Vec::new();
        b.push(0);
        b.push(0);
        write_u32(self.status as u32, &mut b);
        if write_fields(&self.headers, &mut b).is_err() {
            return Err(CodecError::TooLong);
        }
        assert(b@ =~= response_head_bytes(self.status, self.headers.deep_view()));
        payload.append(&mut b);
        Ok(())
    }
}

} // verus!
