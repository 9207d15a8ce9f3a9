//! Encoding of the primitive component-model values that wRPC messages are
//! made of: bytes, flags, unsigned varints, options and strings.
//!
//! Readers take the whole input and a position, and report whether the value
//! there is complete, invalid, or needs more input.

use vstd::prelude::*;
use vstd::utf8::{
    decode_first_scalar, decode_utf8, encode_utf8, encode_utf8_decode_utf8, encode_utf8_first_scalar,
    encode_utf8_valid_utf8, is_continuation_byte, length_of_first_scalar, valid_first_scalar,
    valid_utf8,
};
use vstd::string::StringSliceAdditionalSpecFns;

use crate::leb128::{
    lemma_u16_roundtrip, lemma_u32_roundtrip, lemma_u64_roundtrip, lemma_uleb_read_bound,
    read_u16, read_u16_spec, read_u32, read_u32_spec, read_u64, read_u64_spec, uleb, write_u32,
    write_u64, UlebRead, Varint,
};

verus! {

/// Errors of the value codec.
#[derive(Clone, Copy, Debug, PartialEq, Eq)]
pub enum CodecError {
    /// A varint on the wire does not fit in its integer type.
    Overflow,
    /// A byte that must be 0 or 1 (a `bool`, an option or result status) is not.
    InvalidByte(u8),
    /// String bytes that are not UTF-8.
    InvalidUtf8,
    /// A discriminant that names no case.
    UnknownDiscriminant(u32),
    /// A length that does not fit in a `u32` on encode.
    TooLong,
    /// A value that does not have the type it is encoded as.
    TypeMismatch,
    /// A resource handle of the wrong length.
    InvalidHandle,
    /// A case or enum name that the type does not have.
    UnknownName,
    /// A borrowed input stream, whose contents cannot follow the value.
    Unsupported,
}

/// What reading a value at some position of the input gives.
pub enum Read<T> {
    /// The input ends before the value does.
    Incomplete,
    /// The bytes are not an encoding of a value of the type read.
    Invalid(CodecError),
    /// The value, and the position just after it.
    Done(T, nat),
}

/// The outcome of an executable reader, seen as a `Read`.
pub open spec fn decoded<T: DeepView>(r: Result<Option<(T, usize)>, CodecError>) -> Read<T::V> {
    match r {
        Ok(None) => Read::Incomplete,
        Err(e) => Read::Invalid(e),
        Ok(Some((x, e))) => Read::Done(x.deep_view(), e as nat),
    }
}

/// Reading a byte.
pub open spec fn byte_read(t: Seq<u8>, k: nat) -> Read<u8> {
    if k < t.len() {
        Read::Done(t[k as int], k + 1)
    } else {
        Read::Incomplete
    }
}

/// Reading a byte that must be 0 (false) or 1 (true).
pub open spec fn flag_read(t: Seq<u8>, k: nat) -> Read<bool> {
    if k < t.len() {
        if t[k as int] == 0 {
            Read::Done(false, k + 1)
        } else if t[k as int] == 1 {
            Read::Done(true, k + 1)
        } else {
            Read::Invalid(CodecError::InvalidByte(t[k as int]))
        }
    } else {
        Read::Incomplete
    }
}

/// A varint read, with overflow as an error.
pub open spec fn varint_read(r: UlebRead) -> Read<nat> {
    match r {
        UlebRead::Incomplete => Read::Incomplete,
        UlebRead::Overflow => Read::Invalid(CodecError::Overflow),
        UlebRead::Done(v, e) => Read::Done(v, e),
    }
}

pub open spec fn u16_read(t: Seq<u8>, k: nat) -> Read<u16> {
    match varint_read(read_u16_spec(t, k)) {
        Read::Done(v, e) => Read::Done(v as u16, e),
        Read::Incomplete => Read::Incomplete,
        Read::Invalid(x) => Read::Invalid(x),
    }
}

pub open spec fn u32_read(t: Seq<u8>, k: nat) -> Read<u32> {
    match varint_read(read_u32_spec(t, k)) {
        Read::Done(v, e) => Read::Done(v as u32, e),
        Read::Incomplete => Read::Incomplete,
        Read::Invalid(x) => Read::Invalid(x),
    }
}

pub open spec fn u64_read(t: Seq<u8>, k: nat) -> Read<u64> {
    match varint_read(read_u64_spec(t, k)) {
        Read::Done(v, e) => Read::Done(v as u64, e),
        Read::Incomplete => Read::Incomplete,
        Read::Invalid(x) => Read::Invalid(x),
    }
}

/// Reading a string: its length in bytes as a `u32` varint, then its UTF-8 bytes.
pub open spec fn str_read(t: Seq<u8>, k: nat) -> Read<Seq<char>> {
    match read_u32_spec(t, k) {
        UlebRead::Incomplete => Read::Incomplete,
        UlebRead::Overflow => Read::Invalid(CodecError::Overflow),
        UlebRead::Done(n, e) => if e + n > t.len() {
            Read::Incomplete
        } else if valid_utf8(t.subrange(e as int, (e + n) as int)) {
            Read::Done(decode_utf8(t.subrange(e as int, (e + n) as int)), e + n)
        } else {
            Read::Invalid(CodecError::InvalidUtf8)
        },
    }
}

/// Reading an option whose payload, if present, is read by `some` from the
/// position given to it.
pub open spec fn opt_read<V>(t: Seq<u8>, k: nat, some: spec_fn(nat) -> Read<V>) -> Read<Option<V>> {
    match flag_read(t, k) {
        Read::Incomplete => Read::Incomplete,
        Read::Invalid(x) => Read::Invalid(x),
        Read::Done(false, e) => Read::Done(None, e),
        Read::Done(true, e) => match some(e) {
            Read::Done(v, e2) => Read::Done(Some(v), e2),
            Read::Incomplete => Read::Incomplete,
            Read::Invalid(x) => Read::Invalid(x),
        },
    }
}

/// A read whose value, if there is one, is passed through `f`.
pub open spec fn map_read<A, B>(r: Read<A>, f: spec_fn(A) -> B) -> Read<B> {
    match r {
        Read::Done(a, e) => Read::Done(f(a), e),
        Read::Incomplete => Read::Incomplete,
        Read::Invalid(x) => Read::Invalid(x),
    }
}

/// Encoding of a string.
pub open spec fn str_bytes(s: Seq<char>) -> Seq<u8> {
    uleb(encode_utf8(s).len()) + encode_utf8(s)
}

/// Encoding of an option whose payload is encoded by `some`.
pub open spec fn opt_bytes<V>(o: Option<V>, some: spec_fn(V) -> Seq<u8>) -> Seq<u8> {
    match o {
        None => seq![0u8],
        Some(v) => seq![1u8] + some(v),
    }
}

/// Whether a string's UTF-8 encoding is short enough to be written.
pub open spec fn str_fits(s: Seq<char>) -> bool {
    encode_utf8(s).len() <= u32::MAX
}

/// Reads a byte.
pub fn read_byte(src: &[u8], k: usize) -> (r: Result<Option<(u8, usize)>, CodecError>)
    ensures
        decoded(r) == byte_read(src@, k as nat),
{
    if k < src.len() {
        Ok(Some((src[k], k + 1)))
    } else {
        Ok(None)
    }
}

/// Reads a byte that must be 0 or 1.
pub fn read_flag(src: &[u8], k: usize) -> (r: Result<Option<(bool, usize)>, CodecError>)
    ensures
        decoded(r) == flag_read(src@, k as nat),
{
    if k < src.len() {
        let b = src[k];
        if b == 0 {
            Ok(Some((false, k + 1)))
        } else if b == 1 {
            Ok(Some((true, k + 1)))
        } else {
            Err(CodecError::InvalidByte(b))
        }
    } else {
        Ok(None)
    }
}

/// Reads a `u16` varint.
pub fn read_u16_at(src: &[u8], k: usize) -> (r: Result<Option<(u16, usize)>, CodecError>)
    ensures
        decoded(r) == u16_read(src@, k as nat),
{
    match read_u16(src, k) {
        Varint::Incomplete => Ok(None),
        Varint::Overflow => Err(CodecError::Overflow),
        Varint::Value { value, end } => Ok(Some((value as u16, end))),
    }
}

/// Reads a `u32` varint.
pub fn read_u32_at(src: &[u8], k: usize) -> (r: Result<Option<(u32, usize)>, CodecError>)
    ensures
        decoded(r) == u32_read(src@, k as nat),
{
    match read_u32(src, k) {
        Varint::Incomplete => Ok(None),
        Varint::Overflow => Err(CodecError::Overflow),
        Varint::Value { value, end } => Ok(Some((value as u32, end))),
    }
}

/// Reads a `u64` varint.
pub fn read_u64_at(src: &[u8], k: usize) -> (r: Result<Option<(u64, usize)>, CodecError>)
    ensures
        decoded(r) == u64_read(src@, k as nat),
{
    match read_u64(src, k) {
        Varint::Incomplete => Ok(None),
        Varint::Overflow => Err(CodecError::Overflow),
        Varint::Value { value, end } => Ok(Some((value, end))),
    }
}

/// `str::from_utf8`: the string that `bytes` encode, when they are UTF-8.
#[verifier::external_body]
fn utf8_string(bytes: &[u8]) -> (r: Option<String>)
    ensures
        r is Some <==> valid_utf8(bytes@),
        r matches Some(s) ==> s@ == decode_utf8(bytes@),
{
    match std::str::from_utf8(bytes) {
        Ok(s) => Some(s.to_string()),
        Err(_) => None,
    }
}

/// Reads a string.
pub fn read_str(src: &[u8], k: usize) -> (r: Result<Option<(String, usize)>, CodecError>)
    ensures
        decoded(r) == str_read(src@, k as nat),
{
    match read_u32(src, k) {
        Varint::Incomplete => Ok(None),
        Varint::Overflow => Err(CodecError::Overflow),
        Varint::Value { value, end } => {
            proof {
                lemma_uleb_read_bound(src@, k as nat, 0, 5, 15);
            }
            if value > (src.len() - end) as u64 {
                return Ok(None);
            }
            let n = value as usize;
            let bytes = vstd::slice::slice_subrange(src, end, end + n);
            match utf8_string(bytes) {
                Some(s) => Ok(Some((s, end + n))),
                None => Err(CodecError::InvalidUtf8),
            }
        },
    }
}

/// Appends a byte.
pub fn write_byte(x: u8, dst: &mut Vec<u8>)
    ensures
        final(dst)@ == old(dst)@ + seq![x],
{
    dst.push(x);
}

/// Appends a string: its length in bytes, then its bytes.
pub fn write_str(s: &str, dst: &mut Vec<u8>) -> (r: Result<(), CodecError>)
    ensures
        r is Ok <==> str_fits(s@),
        r is Ok ==> final(dst)@ == old(dst)@ + str_bytes(s@),
        r is Err ==> r == Err::<(), CodecError>(CodecError::TooLong) && final(dst)@ == old(dst)@,
{
    let b = s.as_bytes();
    if b.len() > u32::MAX as usize {
        return Err(CodecError::TooLong);
    }
    write_u32(b.len() as u32, dst);
    let mut v = vstd::slice::slice_to_vec(b);
    dst.append(&mut v);
    Ok(())
}

/// The encoding of a string reads back as the string.
pub proof fn lemma_str_roundtrip(p: Seq<u8>, s: Seq<char>, rest: Seq<u8>)
    requires
        str_fits(s),
    ensures
        str_read(p + str_bytes(s) + rest, p.len()) == Read::Done(s, p.len() + str_bytes(s).len()),
{
    let b = encode_utf8(s);
    let t = p + str_bytes(s) + rest;
    assert(t =~= p + uleb(b.len() as u32 as nat) + (b + rest));
    lemma_u32_roundtrip(p, b.len() as u32, b + rest);
    let e = p.len() + uleb(b.len()).len();
    assert(t.subrange(e as int, (e + b.len()) as int) =~= b);
    encode_utf8_valid_utf8(s);
    encode_utf8_decode_utf8(s);
}

/// A byte reads back as itself.
pub proof fn lemma_byte_roundtrip(p: Seq<u8>, x: u8, rest: Seq<u8>)
    ensures
        byte_read(p + seq![x] + rest, p.len()) == Read::Done(x, p.len() + 1),
        flag_read(p + seq![x] + rest, p.len()) == (if x == 0 {
            Read::Done(false, p.len() + 1)
        } else if x == 1 {
            Read::Done(true, p.len() + 1)
        } else {
            Read::Invalid(CodecError::InvalidByte(x))
        }),
{
    assert((p + seq![x] + rest)[p.len() as int] == x);
}

/// A `u16` written reads back.
pub proof fn lemma_u16_read_roundtrip(p: Seq<u8>, x: u16, rest: Seq<u8>)
    ensures
        u16_read(p + uleb(x as nat) + rest, p.len()) == Read::Done(x, p.len() + uleb(x as nat).len()),
{
    lemma_u16_roundtrip(p, x, rest);
}

/// A `u32` written reads back.
pub proof fn lemma_u32_read_roundtrip(p: Seq<u8>, x: u32, rest: Seq<u8>)
    ensures
        u32_read(p + uleb(x as nat) + rest, p.len()) == Read::Done(x, p.len() + uleb(x as nat).len()),
{
    lemma_u32_roundtrip(p, x, rest);
}

/// A `u64` written reads back.
pub proof fn lemma_u64_read_roundtrip(p: Seq<u8>, x: u64, rest: Seq<u8>)
    ensures
        u64_read(p + uleb(x as nat) + rest, p.len()) == Read::Done(x, p.len() + uleb(x as nat).len()),
{
    lemma_u64_roundtrip(p, x, rest);
}

/// Reading an optional string.
pub open spec fn opt_str_read(t: Seq<u8>, k: nat) -> Read<Option<Seq<char>>> {
    opt_read(t, k, |j: nat| str_read(t, j))
}

/// Reading an optional byte.
pub open spec fn opt_byte_read(t: Seq<u8>, k: nat) -> Read<Option<u8>> {
    opt_read(t, k, |j: nat| byte_read(t, j))
}

/// Reading an optional `u16` varint.
pub open spec fn opt_u16_read(t: Seq<u8>, k: nat) -> Read<Option<u16>> {
    opt_read(t, k, |j: nat| u16_read(t, j))
}

/// Reading an optional `u32` varint.
pub open spec fn opt_u32_read(t: Seq<u8>, k: nat) -> Read<Option<u32>> {
    opt_read(t, k, |j: nat| u32_read(t, j))
}

/// Reading an optional `u64` varint.
pub open spec fn opt_u64_read(t: Seq<u8>, k: nat) -> Read<Option<u64>> {
    opt_read(t, k, |j: nat| u64_read(t, j))
}

/// Encoding of an optional string.
pub open spec fn opt_str_bytes(o: Option<Seq<char>>) -> Seq<u8> {
    opt_bytes(o, |s: Seq<char>| str_bytes(s))
}

/// Encoding of an optional byte.
pub open spec fn opt_byte_bytes(o: Option<u8>) -> Seq<u8> {
    opt_bytes(o, |x: u8| seq![x])
}

/// Encoding of an optional `u16`.
pub open spec fn opt_u16_bytes(o: Option<u16>) -> Seq<u8> {
    opt_bytes(o, |x: u16| uleb(x as nat))
}

/// Encoding of an optional `u32`.
pub open spec fn opt_u32_bytes(o: Option<u32>) -> Seq<u8> {
    opt_bytes(o, |x: u32| uleb(x as nat))
}

/// Encoding of an optional `u64`.
pub open spec fn opt_u64_bytes(o: Option<u64>) -> Seq<u8> {
    opt_bytes(o, |x: u64| uleb(x as nat))
}

/// Whether an optional string is short enough to be written.
pub open spec fn opt_str_fits(o: Option<Seq<char>>) -> bool {
    match o {
        Some(s) => str_fits(s),
        None => true,
    }
}

/// Reads an optional string.
pub fn read_opt_str(src: &[u8], k: usize) -> (r: Result<Option<(Option<String>, usize)>, CodecError>)
    ensures
        decoded(r) == opt_str_read(src@, k as nat),
{
    match read_flag(src, k) {
        Err(e) => Err(e),
        Ok(None) => Ok(None),
        Ok(Some((false, e))) => Ok(Some((None, e))),
        Ok(Some((true, e))) => match read_str(src, e) {
            Err(x) => Err(x),
            Ok(None) => Ok(None),
            Ok(Some((v, e2))) => Ok(Some((Some(v), e2))),
        },
    }
}

/// Reads an optional byte.
pub fn read_opt_byte(src: &[u8], k: usize) -> (r: Result<Option<(Option<u8>, usize)>, CodecError>)
    ensures
        decoded(r) == opt_byte_read(src@, k as nat),
{
    match read_flag(src, k) {
        Err(e) => Err(e),
        Ok(None) => Ok(None),
        Ok(Some((false, e))) => Ok(Some((None, e))),
        Ok(Some((true, e))) => match read_byte(src, e) {
            Err(x) => Err(x),
            Ok(None) => Ok(None),
            Ok(Some((v, e2))) => Ok(Some((Some(v), e2))),
        },
    }
}

/// Reads an optional `u16` varint.
pub fn read_opt_u16(src: &[u8], k: usize) -> (r: Result<Option<(Option<u16>, usize)>, CodecError>)
    ensures
        decoded(r) == opt_u16_read(src@, k as nat),
{
    match read_flag(src, k) {
        Err(e) => Err(e),
        Ok(None) => Ok(None),
        Ok(Some((false, e))) => Ok(Some((None, e))),
        Ok(Some((true, e))) => match read_u16_at(src, e) {
            Err(x) => Err(x),
            Ok(None) => Ok(None),
            Ok(Some((v, e2))) => Ok(Some((Some(v), e2))),
        },
    }
}

/// Reads an optional `u32` varint.
pub fn read_opt_u32(src: &[u8], k: usize) -> (r: Result<Option<(Option<u32>, usize)>, CodecError>)
    ensures
        decoded(r) == opt_u32_read(src@, k as nat),
{
    match read_flag(src, k) {
        Err(e) => Err(e),
        Ok(None) => Ok(None),
        Ok(Some((false, e))) => Ok(Some((None, e))),
        Ok(Some((true, e))) => match read_u32_at(src, e) {
            Err(x) => Err(x),
            Ok(None) => Ok(None),
            Ok(Some((v, e2))) => Ok(Some((Some(v), e2))),
        },
    }
}

/// Reads an optional `u64` varint.
pub fn read_opt_u64(src: &[u8], k: usize) -> (r: Result<Option<(Option<u64>, usize)>, CodecError>)
    ensures
        decoded(r) == opt_u64_read(src@, k as nat),
{
    match read_flag(src, k) {
        Err(e) => Err(e),
        Ok(None) => Ok(None),
        Ok(Some((false, e))) => Ok(Some((None, e))),
        Ok(Some((true, e))) => match read_u64_at(src, e) {
            Err(x) => Err(x),
            Ok(None) => Ok(None),
            Ok(Some((v, e2))) => Ok(Some((Some(v), e2))),
        },
    }
}

/// Appends an optional string.
pub fn write_opt_str(o: &Option<String>, dst: &mut Vec<u8>) -> (r: Result<(), CodecError>)
    ensures
        r is Ok <==> opt_str_fits(o.deep_view()),
        r is Ok ==> final(dst)@ == old(dst)@ + opt_str_bytes(o.deep_view()),
        r is Err ==> r == Err::<(), CodecError>(CodecError::TooLong),
{
    match o {
        None => {
            dst.push(0);
            Ok(())
        },
        Some(s) => {
            if s.as_str().as_bytes().len() > u32::MAX as usize {
                return Err(CodecError::TooLong);
            }
            dst.push(1);
            let r = write_str(s.as_str(), dst);
            assert(dst@ =~= old(dst)@ + opt_str_bytes(o.deep_view()));
            r
        },
    }
}

/// Appends an optional byte.
pub fn write_opt_byte(o: Option<u8>, dst: &mut Vec<u8>)
    ensures
        final(dst)@ == old(dst)@ + opt_byte_bytes(o),
{
    match o {
        None => dst.push(0),
        Some(x) => {
            dst.push(1);
            dst.push(x);
            assert(dst@ =~= old(dst)@ + opt_byte_bytes(o));
        },
    }
}

/// Appends an optional `u16`.
pub fn write_opt_u16(o: Option<u16>, dst: &mut Vec<u8>)
    ensures
        final(dst)@ == old(dst)@ + opt_u16_bytes(o),
{
    match o {
        None => dst.push(0),
        Some(x) => {
            dst.push(1);
            write_u32(x as u32, dst);
            assert(dst@ =~= old(dst)@ + opt_u16_bytes(o));
        },
    }
}

/// Appends an optional `u32`.
pub fn write_opt_u32(o: Option<u32>, dst: &mut Vec<u8>)
    ensures
        final(dst)@ == old(dst)@ + opt_u32_bytes(o),
{
    match o {
        None => dst.push(0),
        Some(x) => {
            dst.push(1);
            write_u32(x, dst);
            assert(dst@ =~= old(dst)@ + opt_u32_bytes(o));
        },
    }
}

/// Appends an optional `u64`.
pub fn write_opt_u64(o: Option<u64>, dst: &mut Vec<u8>)
    ensures
        final(dst)@ == old(dst)@ + opt_u64_bytes(o),
{
    match o {
        None => dst.push(0),
        Some(x) => {
            dst.push(1);
            write_u64(x, dst);
            assert(dst@ =~= old(dst)@ + opt_u64_bytes(o));
        },
    }
}

/// An optional string reads back.
pub proof fn lemma_opt_str_roundtrip(p: Seq<u8>, o: Option<Seq<char>>, rest: Seq<u8>)
    requires
        opt_str_fits(o),
    ensures
        opt_str_read(p + opt_str_bytes(o) + rest, p.len()) == Read::Done(o, p.len() + opt_str_bytes(o).len()),
{
    let t = p + opt_str_bytes(o) + rest;
    match o {
        None => {
            assert(t =~= p + seq![0u8] + rest);
            lemma_byte_roundtrip(p, 0, rest);
        },
        Some(s) => {
            let q = p + seq![1u8];
            assert(t =~= p + seq![1u8] + (str_bytes(s) + rest));
            lemma_byte_roundtrip(p, 1, str_bytes(s) + rest);
            assert(t =~= q + str_bytes(s) + rest);
            lemma_str_roundtrip(q, s, rest);
        },
    }
}

/// An optional byte reads back.
pub proof fn lemma_opt_byte_roundtrip(p: Seq<u8>, o: Option<u8>, rest: Seq<u8>)
    ensures
        opt_byte_read(p + opt_byte_bytes(o) + rest, p.len()) == Read::Done(o, p.len() + opt_byte_bytes(o).len()),
{
    let t = p + opt_byte_bytes(o) + rest;
    match o {
        None => {
            assert(t =~= p + seq![0u8] + rest);
            lemma_byte_roundtrip(p, 0, rest);
        },
        Some(x) => {
            let q = p + seq![1u8];
            assert(t =~= p + seq![1u8] + (seq![x] + rest));
            lemma_byte_roundtrip(p, 1, seq![x] + rest);
            assert(t =~= q + seq![x] + rest);
            lemma_byte_roundtrip(q, x, rest);
        },
    }
}

/// An optional `u16` reads back.
pub proof fn lemma_opt_u16_roundtrip(p: Seq<u8>, o: Option<u16>, rest: Seq<u8>)
    ensures
        opt_u16_read(p + opt_u16_bytes(o) + rest, p.len()) == Read::Done(o, p.len() + opt_u16_bytes(o).len()),
{
    let t = p + opt_u16_bytes(o) + rest;
    match o {
        None => {
            assert(t =~= p + seq![0u8] + rest);
            lemma_byte_roundtrip(p, 0, rest);
        },
        Some(x) => {
            let q = p + seq![1u8];
            assert(t =~= p + seq![1u8] + (uleb(x as nat) + rest));
            lemma_byte_roundtrip(p, 1, uleb(x as nat) + rest);
            assert(t =~= q + uleb(x as nat) + rest);
            lemma_u16_roundtrip(q, x, rest);
        },
    }
}

/// An optional `u32` reads back.
pub proof fn lemma_opt_u32_roundtrip(p: Seq<u8>, o: Option<u32>, rest: Seq<u8>)
    ensures
        opt_u32_read(p + opt_u32_bytes(o) + rest, p.len()) == Read::Done(o, p.len() + opt_u32_bytes(o).len()),
{
    let t = p + opt_u32_bytes(o) + rest;
    match o {
        None => {
            assert(t =~= p + seq![0u8] + rest);
            lemma_byte_roundtrip(p, 0, rest);
        },
        Some(x) => {
            let q = p + seq![1u8];
            assert(t =~= p + seq![1u8] + (uleb(x as nat) + rest));
            lemma_byte_roundtrip(p, 1, uleb(x as nat) + rest);
            assert(t =~= q + uleb(x as nat) + rest);
            lemma_u32_roundtrip(q, x, rest);
        },
    }
}

/// An optional `u64` reads back.
pub proof fn lemma_opt_u64_roundtrip(p: Seq<u8>, o: Option<u64>, rest: Seq<u8>)
    ensures
        opt_u64_read(p + opt_u64_bytes(o) + rest, p.len()) == Read::Done(o, p.len() + opt_u64_bytes(o).len()),
{
    let t = p + opt_u64_bytes(o) + rest;
    match o {
        None => {
            assert(t =~= p + seq![0u8] + rest);
            lemma_byte_roundtrip(p, 0, rest);
        },
        Some(x) => {
            let q = p + seq![1u8];
            assert(t =~= p + seq![1u8] + (uleb(x as nat) + rest));
            lemma_byte_roundtrip(p, 1, uleb(x as nat) + rest);
            assert(t =~= q + uleb(x as nat) + rest);
            lemma_u64_roundtrip(q, x, rest);
        },
    }
}

/// Whether `wasm_tokio`'s UTF-8 character decoder, given `s`, waits for more
/// input: the bytes so far are the start of a well-formed encoding that needs
/// more of them.
pub open spec fn utf8_char_pending(s: Seq<u8>) -> bool {
    ||| s.len() == 0
    ||| (0xc2 <= s[0] <= 0xdf && s.len() == 1)
    ||| (0xe0 <= s[0] <= 0xef && (s.len() == 1 || (s.len() == 2 && is_continuation_byte(s[1])
        && !(s[0] == 0xe0 && s[1] < 0xa0))))
    ||| (0xf0 <= s[0] <= 0xf7 && (s.len() == 1 || (is_continuation_byte(s[1]) && !(s[0] == 0xf0
        && s[1] < 0x90) && (s.len() == 2 || (s.len() == 3 && is_continuation_byte(s[2]))))))
}

/// Reading a character: its UTF-8 encoding, one to four bytes.
pub open spec fn char_read(t: Seq<u8>, k: nat) -> Read<char> {
    let s = t.subrange(k as int, t.len() as int);
    if k <= t.len() && valid_first_scalar(s) {
        Read::Done(decode_first_scalar(s) as char, k + length_of_first_scalar(s) as nat)
    } else if k > t.len() || utf8_char_pending(s) {
        Read::Incomplete
    } else {
        Read::Invalid(CodecError::InvalidUtf8)
    }
}

/// Decoding one character with `wasm_tokio::Utf8Codec`: `None` when the
/// decoder fails, `Some(None)` when it waits for more input. A well-formed
/// encoding at the start of `src` gives its character; otherwise the decoder
/// waits for more input exactly when `utf8_char_pending` says so, and fails
/// else.
#[verifier::external_body]
fn decode_char(src: &[u8]) -> (r: Option<Option<char>>)
    ensures
        valid_first_scalar(src@) ==> r == Some(Some(decode_first_scalar(src@) as char)),
        !valid_first_scalar(src@) ==> r == (if utf8_char_pending(src@) {
            Some(None::<char>)
        } else {
            None
        }),
{
    let mut buf = bytes::BytesMut::from(src);
    tokio_util::codec::Decoder::decode(&mut wasm_tokio::Utf8Codec, &mut buf).ok()
}

/// Reads a character.
pub fn read_char(src: &[u8], k: usize) -> (r: Result<Option<(char, usize)>, CodecError>)
    ensures
        decoded(r) == char_read(src@, k as nat),
{
    if k > src.len() {
        return Ok(None);
    }
    let s = vstd::slice::slice_subrange(src, k, src.len());
    assert(s@ =~= src@.subrange(k as int, src@.len() as int));
    match decode_char(s) {
        None => Err(CodecError::InvalidUtf8),
        Some(None) => Ok(None),
        Some(Some(c)) => {
            let b = s[0];
            let w: usize = if b < 0x80 {
                1
            } else if b < 0xe0 {
                2
            } else if b < 0xf0 {
                3
            } else {
                4
            };
            Ok(Some((c, k + w)))
        },
    }
}

/// `wasm_tokio::Utf8Codec` as an encoder: the UTF-8 encoding of `c`, which it
/// always gives.
#[verifier::external_body]
fn char_utf8(c: char) -> (r: Option<Vec<u8>>)
    ensures
        r is Some,
        r.unwrap()@ == encode_utf8(seq![c]),
{
    let mut buf = bytes::BytesMut::new();
    match tokio_util::codec::Encoder::encode(&mut wasm_tokio::Utf8Codec, c, &mut buf) {
        Ok(()) => Some(buf.to_vec()),
        Err(_) => None,
    }
}

/// Appends the UTF-8 encoding of a character.
pub fn write_char(c: char, dst: &mut Vec<u8>)
    ensures
        final(dst)@ == old(dst)@ + encode_utf8(seq![c]),
{
    if let Some(mut b) = char_utf8(c) {
        dst.append(&mut b);
    }
}

/// A well-formed encoding of a character at the start of `s` stays one, of
/// the same character, whatever follows it.
proof fn lemma_first_scalar_extend(s: Seq<u8>, u: Seq<u8>)
    requires
        valid_first_scalar(s),
        s.len() <= u.len(),
        u.subrange(0, s.len() as int) == s,
    ensures
        valid_first_scalar(u),
        decode_first_scalar(u) == decode_first_scalar(s),
        length_of_first_scalar(u) == length_of_first_scalar(s),
{
    assert(s[0] == u[0]);
    if s.len() >= 2 {
        assert(s[1] == u[1]);
    }
    if s.len() >= 3 {
        assert(s[2] == u[2]);
    }
    if s.len() >= 4 {
        assert(s[3] == u[3]);
    }
}

/// A character reads back as itself, whatever precedes or follows it.
pub proof fn lemma_char_roundtrip(p: Seq<u8>, c: char, rest: Seq<u8>)
    ensures
        char_read(p + encode_utf8(seq![c]) + rest, p.len()) == Read::Done(
            c,
            p.len() + encode_utf8(seq![c]).len(),
        ),
{
    let e = encode_utf8(seq![c]);
    let t = p + e + rest;
    let u = t.subrange(p.len() as int, t.len() as int);
    encode_utf8_first_scalar(seq![c]);
    assert(encode_utf8(seq![c].drop_first()) =~= Seq::<u8>::empty());
    assert(u.subrange(0, e.len() as int) =~= e);
    lemma_first_scalar_extend(e, u);
    vstd::utf8::char_u32_cast(c, decode_first_scalar(e));
    assert(e =~= vstd::utf8::encode_scalar(c as u32));
}

/// Little-endian value of a byte sequence.
pub open spec fn le_value(b: Seq<u8>) -> nat
    decreases b.len(),
{
    if b.len() == 0 {
        0
    } else {
        b[0] as nat + 256 * le_value(b.drop_first())
    }
}

/// The `n` least significant bytes of `x`, least significant first.
pub open spec fn le_bytes(x: nat, n: nat) -> Seq<u8>
    decreases n,
{
    if n == 0 {
        seq![]
    } else {
        seq![(x % 256) as u8] + le_bytes(x / 256, (n - 1) as nat)
    }
}

/// `256^n`
pub open spec fn pow256(n: nat) -> nat
    decreases n,
{
    if n == 0 {
        1
    } else {
        256 * pow256((n - 1) as nat)
    }
}

/// The little-endian bytes of a value that fits in them give the value back.
pub proof fn lemma_le_roundtrip(x: nat, n: nat)
    requires
        x < pow256(n),
    ensures
        le_bytes(x, n).len() == n,
        le_value(le_bytes(x, n)) == x,
    decreases n,
{
    if n > 0 {
        assert(x / 256 < pow256((n - 1) as nat)) by (nonlinear_arith)
            requires
                x < 256 * pow256((n - 1) as nat),
        ;
        lemma_le_roundtrip(x / 256, (n - 1) as nat);
        assert(le_bytes(x, n).drop_first() =~= le_bytes(x / 256, (n - 1) as nat));
    }
}

/// The value of `n` bytes is below `256^n`.
pub proof fn lemma_le_value_bound(b: Seq<u8>)
    ensures
        le_value(b) < pow256(b.len()),
    decreases b.len(),
{
    if b.len() > 0 {
        lemma_le_value_bound(b.drop_first());
        assert(b[0] as nat + 256 * le_value(b.drop_first()) < 256 * pow256((b.len() - 1) as nat))
            by (nonlinear_arith)
            requires
                le_value(b.drop_first()) < pow256((b.len() - 1) as nat),
                b[0] < 256,
        ;
    }
}

/// Appends the `n` least significant bytes of `x`, least significant first.
pub fn write_le(x: u64, n: usize, dst: &mut Vec<u8>)
    ensures
        final(dst)@ == old(dst)@ + le_bytes(x as nat, n as nat),
{
    let mut v = x;
    let mut i: usize = 0;
    while i < n
        invariant
            i <= n,
            dst@ + le_bytes(v as nat, (n - i) as nat) == old(dst)@ + le_bytes(x as nat, n as nat),
        decreases n - i,
    {
        let ghost w = v;
        let ghost d = dst@;
        dst.push((v % 256) as u8);
        v = v / 256;
        i = i + 1;
        assert(le_bytes(w as nat, (n - i + 1) as nat) =~= seq![(w % 256) as u8] + le_bytes(
            v as nat,
            (n - i) as nat,
        ));
        assert(dst@ + le_bytes(v as nat, (n - i) as nat) =~= d + le_bytes(w as nat, (n - i + 1) as nat));
    }
    assert(le_bytes(v as nat, 0) =~= Seq::<u8>::empty());
    assert(dst@ =~= dst@ + le_bytes(v as nat, 0));
}

/// Reads `n` bytes as a little-endian value.
pub fn read_le(src: &[u8], k: usize, n: usize) -> (r: Option<(u64, usize)>)
    requires
        n <= 8,
    ensures
        k + n <= src.len() <==> r is Some,
        r matches Some((v, e)) ==> e == k + n && v as nat == le_value(src@.subrange(k as int, k + n)),
{
    if k > src.len() || n > src.len() - k {
        return None;
    }
    let ghost b = src@.subrange(k as int, k + n);
    let mut v: u64 = 0;
    let mut i: usize = n;
    proof {
        lemma_le_value_bound(b);
    }
    while i > 0
        invariant
            i <= n <= 8,
            k + n <= src.len(),
            b == src@.subrange(k as int, k + n),
            v as nat == le_value(b.subrange(i as int, n as int)),
            v < pow256((n - i) as nat),
        decreases i,
    {
        let ghost old_v = v;
        i = i - 1;
        proof {
            assert(b.subrange(i as int, n as int).drop_first() =~= b.subrange(i + 1, n as int));
            lemma_pow256_le8((n - i - 1) as nat);
            assert(256 * old_v + 255 < 0x1_0000_0000_0000_0000) by (nonlinear_arith)
                requires
                    old_v < pow256((n - i - 1) as nat),
                    pow256((n - i - 1) as nat) <= 0x100_0000_0000_0000,
            ;
            assert(src[(k + i) as int] == b[i as int]);
        }
        v = src[k + i] as u64 + 256 * v;
        proof {
            assert(pow256((n - i) as nat) == 256 * pow256((n - i - 1) as nat));
            assert(v < pow256((n - i) as nat)) by (nonlinear_arith)
                requires
                    v == src[(k + i) as int] + 256 * old_v,
                    old_v < pow256((n - i - 1) as nat),
                    src[(k + i) as int] < 256,
                    pow256((n - i) as nat) == 256 * pow256((n - i - 1) as nat),
            ;
        }
    }
    assert(b.subrange(0, n as int) =~= b);
    Some((v, k + n))
}

/// `256^n` for the widths read here.
proof fn lemma_pow256_le8(n: nat)
    requires
        n < 8,
    ensures
        pow256(n) <= 0x100_0000_0000_0000,
{
    assert(pow256(0) == 1);
    assert(pow256(1) == 256);
    assert(pow256(2) == 0x1_0000);
    assert(pow256(3) == 0x100_0000);
    assert(pow256(4) == 0x1_0000_0000);
    assert(pow256(5) == 0x100_0000_0000);
    assert(pow256(6) == 0x1_0000_0000_0000);
    assert(pow256(7) == 0x100_0000_0000_0000);
}

} // verus!
