//! Component-model values and types, and the encoding of a value of a type
//! on the wire.
//!
//! A `Val` stands for a component value as the runtime hands it over, with
//! floats as their IEEE-754 bits and resources as what carries them on the
//! wire: a handle's bytes, or an input stream whose contents follow the value
//! as a deferred write.

use vstd::prelude::*;
use vstd::utf8::encode_utf8;

use crate::leb128::{read_i16_spec, read_i32_spec, read_i64_spec, read_u8_spec, sleb, uleb, SlebRead, UlebRead};
use crate::wire::{
    byte_read, char_read, flag_read, le_bytes, le_value, map_read, str_bytes, str_fits, str_read,
    u16_read, u32_read, u64_read, CodecError, Read,
};

verus! {

/// How values of a resource type travel.
#[derive(Clone, Copy, Debug, PartialEq, Eq)]
pub enum ResourceKind {
    /// `wasi:io/input-stream`: its bytes follow the value on a nested stream.
    InputStream,
    /// A resource of the guest, shared under a handle that the receiver looks up.
    Guest,
    /// A resource of the peer, carried back under the handle the peer gave it.
    Remote,
}

/// A component-model type.
#[derive(Debug, PartialEq)]
pub enum Ty {
    Bool,
    S8,
    U8,
    S16,
    U16,
    S32,
    U32,
    S64,
    U64,
    Float32,
    Float64,
    Char,
    String,
    List(Box<Ty>),
    Record(Vec<(String, Ty)>),
    Tuple(Vec<Ty>),
    Variant(Vec<(String, Option<Ty>)>),
    Enum(Vec<String>),
    Option(Box<Ty>),
    Result(Option<Box<Ty>>, Option<Box<Ty>>),
    Flags(Vec<String>),
    Own(ResourceKind),
    Borrow(ResourceKind),
}

/// A resource as it is carried on the wire.
#[derive(Debug, PartialEq)]
pub enum Resource {
    /// An input stream, whose contents follow the value.
    InputStream,
    /// A handle.
    Handle(Vec<u8>),
}

/// A component-model value.
#[derive(Debug, PartialEq)]
pub enum Val {
    Bool(bool),
    S8(i8),
    U8(u8),
    S16(i16),
    U16(u16),
    S32(i32),
    U32(u32),
    S64(i64),
    U64(u64),
    /// The bits of an `f32`.
    Float32(u32),
    /// The bits of an `f64`.
    Float64(u64),
    Char(char),
    String(String),
    List(Vec<Val>),
    Record(Vec<(String, Val)>),
    Tuple(Vec<Val>),
    Variant(String, Option<Box<Val>>),
    Enum(String),
    Option(Option<Box<Val>>),
    Result(Result<Option<Box<Val>>, Option<Box<Val>>>),
    Flags(Vec<String>),
    Resource(Resource),
}

/// The type a `Ty` stands for, with names as character sequences.
pub enum TyView {
    Bool,
    S8,
    U8,
    S16,
    U16,
    S32,
    U32,
    S64,
    U64,
    Float32,
    Float64,
    Char,
    String,
    List(Box<TyView>),
    Record(Seq<(Seq<char>, TyView)>),
    Tuple(Seq<TyView>),
    Variant(Seq<(Seq<char>, Option<TyView>)>),
    Enum(Seq<Seq<char>>),
    Option(Box<TyView>),
    Result(Option<Box<TyView>>, Option<Box<TyView>>),
    Flags(Seq<Seq<char>>),
    Own(ResourceKind),
    Borrow(ResourceKind),
}

/// The resource a `Resource` stands for.
pub enum ResourceView {
    InputStream,
    Handle(Seq<u8>),
}

/// The value a `Val` stands for.
pub enum ValView {
    Bool(bool),
    S8(i8),
    U8(u8),
    S16(i16),
    U16(u16),
    S32(i32),
    U32(u32),
    S64(i64),
    U64(u64),
    Float32(u32),
    Float64(u64),
    Char(char),
    String(Seq<char>),
    List(Seq<ValView>),
    Record(Seq<(Seq<char>, ValView)>),
    Tuple(Seq<ValView>),
    Variant(Seq<char>, Option<Box<ValView>>),
    Enum(Seq<char>),
    Option(Option<Box<ValView>>),
    Result(Result<Option<Box<ValView>>, Option<Box<ValView>>>),
    Flags(Seq<Seq<char>>),
    Resource(ResourceView),
}

/// The views of a sequence of names.
pub open spec fn names_view(s: Seq<String>) -> Seq<Seq<char>> {
    s.map_values(|x: String| x@)
}

impl DeepView for Ty {
    type V = TyView;

    open spec fn deep_view(&self) -> TyView {
        ty_view(*self)
    }
}

/// The type a `Ty` stands for.
pub open spec fn ty_view(t: Ty) -> TyView
    decreases t,
{
        match t {
            Ty::Bool => TyView::Bool,
            Ty::S8 => TyView::S8,
            Ty::U8 => TyView::U8,
            Ty::S16 => TyView::S16,
            Ty::U16 => TyView::U16,
            Ty::S32 => TyView::S32,
            Ty::U32 => TyView::U32,
            Ty::S64 => TyView::S64,
            Ty::U64 => TyView::U64,
            Ty::Float32 => TyView::Float32,
            Ty::Float64 => TyView::Float64,
            Ty::Char => TyView::Char,
            Ty::String => TyView::String,
            Ty::List(t) => TyView::List(Box::new(ty_view(*t))),
            Ty::Record(fs) => TyView::Record(
                Seq::new(
                    fs.len() as nat,
                    |i: int|
                        if 0 <= i < fs.len() {
                            proof {
                                assert(decreases_to!(fs@ => fs@[i]));
                                assert(decreases_to!(fs@[i] => fs@[i].1));
                            }
                            (fs@[i].0@, ty_view(fs@[i].1))
                        } else {
                            (Seq::empty(), TyView::Bool)
                        },
                ),
            ),
            Ty::Tuple(ts) => TyView::Tuple(
                Seq::new(
                    ts.len() as nat,
                    |i: int|
                        if 0 <= i < ts.len() {
                            proof {
                                assert(decreases_to!(ts@ => ts@[i]));
                            }
                            ty_view(ts@[i])
                        } else {
                            TyView::Bool
                        },
                ),
            ),
            Ty::Variant(cs) => TyView::Variant(
                Seq::new(
                    cs.len() as nat,
                    |i: int|
                        if 0 <= i < cs.len() {
                            proof {
                                assert(decreases_to!(cs@ => cs@[i]));
                                assert(decreases_to!(cs@[i] => cs@[i].1));
                            }
                            (
                                cs@[i].0@,
                                match cs@[i].1 {
                                    Some(t) => Some(ty_view(t)),
                                    None => None,
                                },
                            )
                        } else {
                            (Seq::empty(), None)
                        },
                ),
            ),
            Ty::Enum(ns) => TyView::Enum(names_view(ns@)),
            Ty::Option(t) => TyView::Option(Box::new(ty_view(*t))),
            Ty::Result(a, b) => TyView::Result(
                match a {
                    Some(t) => Some(Box::new(ty_view(*t))),
                    None => None,
                },
                match b {
                    Some(t) => Some(Box::new(ty_view(*t))),
                    None => None,
                },
            ),
            Ty::Flags(ns) => TyView::Flags(names_view(ns@)),
            Ty::Own(k) => TyView::Own(k),
            Ty::Borrow(k) => TyView::Borrow(k),
        }
}

impl DeepView for Resource {
    type V = ResourceView;

    open spec fn deep_view(&self) -> ResourceView {
        match self {
            Resource::InputStream => ResourceView::InputStream,
            Resource::Handle(h) => ResourceView::Handle(h@),
        }
    }
}

impl DeepView for Val {
    type V = ValView;

    open spec fn deep_view(&self) -> ValView {
        val_view(*self)
    }
}

/// The value a `Val` stands for.
pub open spec fn val_view(v: Val) -> ValView
    decreases v,
{
        match v {
            Val::Bool(x) => ValView::Bool(x),
            Val::S8(x) => ValView::S8(x),
            Val::U8(x) => ValView::U8(x),
            Val::S16(x) => ValView::S16(x),
            Val::U16(x) => ValView::U16(x),
            Val::S32(x) => ValView::S32(x),
            Val::U32(x) => ValView::U32(x),
            Val::S64(x) => ValView::S64(x),
            Val::U64(x) => ValView::U64(x),
            Val::Float32(x) => ValView::Float32(x),
            Val::Float64(x) => ValView::Float64(x),
            Val::Char(x) => ValView::Char(x),
            Val::String(s) => ValView::String(s@),
            Val::List(vs) => ValView::List(
                Seq::new(
                    vs.len() as nat,
                    |i: int|
                        if 0 <= i < vs.len() {
                            proof {
                                assert(decreases_to!(vs@ => vs@[i]));
                            }
                            val_view(vs@[i])
                        } else {
                            ValView::Bool(false)
                        },
                ),
            ),
            Val::Record(fs) => ValView::Record(
                Seq::new(
                    fs.len() as nat,
                    |i: int|
                        if 0 <= i < fs.len() {
                            proof {
                                assert(decreases_to!(fs@ => fs@[i]));
                                assert(decreases_to!(fs@[i] => fs@[i].1));
                            }
                            (fs@[i].0@, val_view(fs@[i].1))
                        } else {
                            (Seq::empty(), ValView::Bool(false))
                        },
                ),
            ),
            Val::Tuple(vs) => ValView::Tuple(
                Seq::new(
                    vs.len() as nat,
                    |i: int|
                        if 0 <= i < vs.len() {
                            proof {
                                assert(decreases_to!(vs@ => vs@[i]));
                            }
                            val_view(vs@[i])
                        } else {
                            ValView::Bool(false)
                        },
                ),
            ),
            Val::Variant(n, p) => ValView::Variant(
                n@,
                match p {
                    Some(x) => Some(Box::new(val_view(*x))),
                    None => None,
                },
            ),
            Val::Enum(n) => ValView::Enum(n@),
            Val::Option(p) => ValView::Option(
                match p {
                    Some(x) => Some(Box::new(val_view(*x))),
                    None => None,
                },
            ),
            Val::Result(r) => ValView::Result(
                match r {
                    Ok(Some(x)) => Ok(Some(Box::new(val_view(*x)))),
                    Ok(None) => Ok(None),
                    Err(Some(x)) => Err(Some(Box::new(val_view(*x)))),
                    Err(None) => Err(None),
                },
            ),
            Val::Flags(ns) => ValView::Flags(names_view(ns@)),
            Val::Resource(r) => ValView::Resource(r.deep_view()),
        }
}

// ---------------------------------------------------------------------------
// Names

/// `i` is the first position of `x` in `names`.
pub open spec fn is_first(names: Seq<Seq<char>>, x: Seq<char>, i: int) -> bool {
    &&& 0 <= i < names.len()
    &&& names[i] == x
    &&& forall|j: int| 0 <= j < i ==> names[j] != x
}

/// The first position of `x` in `names`, if it occurs there.
pub open spec fn first_index(names: Seq<Seq<char>>, x: Seq<char>) -> Option<int> {
    if exists|i: int| is_first(names, x, i) {
        Some(choose|i: int| is_first(names, x, i))
    } else {
        None
    }
}

/// The names of the cases of a variant.
pub open spec fn case_names(cases: Seq<(Seq<char>, Option<TyView>)>) -> Seq<Seq<char>> {
    cases.map_values(|c: (Seq<char>, Option<TyView>)| c.0)
}

// ---------------------------------------------------------------------------
// Flags

/// How many bytes the flags of a type with `n` names take: one per eight
/// names, and at least one.
pub open spec fn flag_count(n: nat) -> nat {
    if n <= 8 {
        1
    } else {
        ((n + 7) / 8) as nat
    }
}

/// Whether the flag at position `i` is set.
pub open spec fn flag_set(names: Seq<Seq<char>>, set: Seq<Seq<char>>, i: int) -> bool {
    0 <= i < names.len() && set.contains(names[i])
}

/// The first `b` bits of byte `j` of the flags.
pub open spec fn flag_byte(names: Seq<Seq<char>>, set: Seq<Seq<char>>, j: int, b: nat) -> u8
    decreases b,
{
    if b == 0 {
        0
    } else {
        let prev = flag_byte(names, set, j, (b - 1) as nat);
        if flag_set(names, set, 8 * j + b - 1) {
            prev | (1u8 << ((b - 1) as u8))
        } else {
            prev
        }
    }
}

/// Encoding of a set of flags: bit `i` of the little-endian bytes is set
/// when the name at position `i` is in the set.
pub open spec fn flags_bytes(names: Seq<Seq<char>>, set: Seq<Seq<char>>) -> Seq<u8> {
    Seq::new(flag_count(names.len()), |j: int| flag_byte(names, set, j, 8))
}

/// Whether bit `i` of the little-endian `bytes` is set.
pub open spec fn bit_set(bytes: Seq<u8>, i: int) -> bool {
    (bytes[i / 8] >> ((i % 8) as u8)) & 1 == 1
}

/// The first `n` names whose bits are set, in order.
pub open spec fn flags_of(names: Seq<Seq<char>>, bytes: Seq<u8>, n: nat) -> Seq<Seq<char>>
    decreases n,
{
    if n == 0 {
        seq![]
    } else if bit_set(bytes, n - 1) {
        flags_of(names, bytes, (n - 1) as nat).push(names[n - 1])
    } else {
        flags_of(names, bytes, (n - 1) as nat)
    }
}

// ---------------------------------------------------------------------------
// Encoding

/// An encoding: the bytes, and the paths of the input streams whose contents
/// follow as deferred writes; or the error.
pub type Enc = Result<(Seq<u8>, Seq<Seq<usize>>), CodecError>;

/// The byte of an `s8`: its two's complement.
pub open spec fn s8_byte(x: i8) -> u8 {
    if x >= 0 {
        x as u8
    } else {
        (x + 256) as u8
    }
}

/// The `s8` a byte is the two's complement of.
pub open spec fn s8_of(b: u8) -> i8 {
    if b < 128 {
        b as i8
    } else {
        (b - 256) as i8
    }
}

/// Deferred paths of the element at position `i`, seen from its container.
pub open spec fn under(d: Seq<Seq<usize>>, i: int) -> Seq<Seq<usize>> {
    d.map_values(|q: Seq<usize>| seq![i as usize] + q)
}

/// An encoding preceded by `pre`.
pub open spec fn after(pre: Seq<u8>, r: Enc) -> Enc {
    match r {
        Ok((b, d)) => Ok((pre + b, d)),
        Err(e) => Err(e),
    }
}

/// A value without deferred writes.
pub open spec fn plain(b: Seq<u8>) -> Enc {
    Ok((b, seq![]))
}

/// Encoding of value `v` as type `ty`.
pub open spec fn val_enc(v: ValView, ty: TyView) -> Enc
    decreases v, 0nat,
{
    match v {
        ValView::Bool(x) => if ty is Bool {
            plain(seq![if x { 1u8 } else { 0u8 }])
        } else {
            Err(CodecError::TypeMismatch)
        },
        ValView::S8(x) => if ty is S8 {
            plain(seq![s8_byte(x)])
        } else {
            Err(CodecError::TypeMismatch)
        },
        ValView::U8(x) => if ty is U8 {
            plain(seq![x])
        } else {
            Err(CodecError::TypeMismatch)
        },
        ValView::S16(x) => if ty is S16 {
            plain(sleb(x as int))
        } else {
            Err(CodecError::TypeMismatch)
        },
        ValView::U16(x) => if ty is U16 {
            plain(uleb(x as nat))
        } else {
            Err(CodecError::TypeMismatch)
        },
        ValView::S32(x) => if ty is S32 {
            plain(sleb(x as int))
        } else {
            Err(CodecError::TypeMismatch)
        },
        ValView::U32(x) => if ty is U32 {
            plain(uleb(x as nat))
        } else {
            Err(CodecError::TypeMismatch)
        },
        ValView::S64(x) => if ty is S64 {
            plain(sleb(x as int))
        } else {
            Err(CodecError::TypeMismatch)
        },
        ValView::U64(x) => if ty is U64 {
            plain(uleb(x as nat))
        } else {
            Err(CodecError::TypeMismatch)
        },
        ValView::Float32(x) => if ty is Float32 {
            plain(le_bytes(x as nat, 4))
        } else {
            Err(CodecError::TypeMismatch)
        },
        ValView::Float64(x) => if ty is Float64 {
            plain(le_bytes(x as nat, 8))
        } else {
            Err(CodecError::TypeMismatch)
        },
        ValView::Char(c) => if ty is Char {
            plain(encode_utf8(seq![c]))
        } else {
            Err(CodecError::TypeMismatch)
        },
        ValView::String(s) => if !(ty is String) {
            Err(CodecError::TypeMismatch)
        } else if !str_fits(s) {
            Err(CodecError::TooLong)
        } else {
            plain(str_bytes(s))
        },
        ValView::List(vs) => match ty {
            TyView::List(et) => if vs.len() > u32::MAX {
                Err(CodecError::TooLong)
            } else {
                after(uleb(vs.len()), list_enc(vs, *et, vs.len()))
            },
            _ => Err(CodecError::TypeMismatch),
        },
        ValView::Record(fs) => match ty {
            TyView::Record(tfs) => rec_enc(
                fs,
                tfs,
                if fs.len() <= tfs.len() {
                    fs.len()
                } else {
                    tfs.len()
                },
            ),
            _ => Err(CodecError::TypeMismatch),
        },
        ValView::Tuple(vs) => match ty {
            TyView::Tuple(ts) => tup_enc(
                vs,
                ts,
                if vs.len() <= ts.len() {
                    vs.len()
                } else {
                    ts.len()
                },
            ),
            _ => Err(CodecError::TypeMismatch),
        },
        ValView::Variant(name, p) => match ty {
            TyView::Variant(cases) => if cases.len() > u32::MAX {
                Err(CodecError::TooLong)
            } else {
                match first_index(case_names(cases), name) {
                    None => Err(CodecError::UnknownName),
                    Some(i) => match p {
                        None => plain(uleb(i as nat)),
                        Some(x) => match cases[i].1 {
                            None => Err(CodecError::TypeMismatch),
                            Some(ct) => after(uleb(i as nat), val_enc(*x, ct)),
                        },
                    },
                }
            },
            _ => Err(CodecError::TypeMismatch),
        },
        ValView::Enum(name) => match ty {
            TyView::Enum(names) => if names.len() > u32::MAX {
                Err(CodecError::TooLong)
            } else {
                match first_index(names, name) {
                    None => Err(CodecError::UnknownName),
                    Some(i) => plain(uleb(i as nat)),
                }
            },
            _ => Err(CodecError::TypeMismatch),
        },
        ValView::Option(p) => match ty {
            TyView::Option(t) => match p {
                None => plain(seq![0u8]),
                Some(x) => after(seq![1u8], val_enc(*x, *t)),
            },
            _ => Err(CodecError::TypeMismatch),
        },
        ValView::Result(r) => match ty {
            TyView::Result(okt, errt) => match r {
                Ok(p) => match (p, okt) {
                    (Some(x), Some(t)) => after(seq![0u8], val_enc(*x, *t)),
                    (None, None) => plain(seq![0u8]),
                    _ => Err(CodecError::TypeMismatch),
                },
                Err(p) => match (p, errt) {
                    (Some(x), Some(t)) => after(seq![1u8], val_enc(*x, *t)),
                    (None, None) => plain(seq![1u8]),
                    _ => Err(CodecError::TypeMismatch),
                },
            },
            _ => Err(CodecError::TypeMismatch),
        },
        ValView::Flags(set) => match ty {
            TyView::Flags(names) => plain(flags_bytes(names, set)),
            _ => Err(CodecError::TypeMismatch),
        },
        ValView::Resource(r) => match ty {
            TyView::Own(k) => resource_enc(r, k),
            TyView::Borrow(k) => if r is InputStream && k is InputStream {
                Err(CodecError::Unsupported)
            } else {
                resource_enc(r, k)
            },
            _ => Err(CodecError::TypeMismatch),
        },
    }
}

/// Encoding of a resource of kind `k`.
pub open spec fn resource_enc(r: ResourceView, k: ResourceKind) -> Enc {
    match r {
        ResourceView::InputStream => if k is InputStream {
            Ok((seq![], seq![seq![]]))
        } else {
            Err(CodecError::TypeMismatch)
        },
        ResourceView::Handle(h) => if k is InputStream {
            Err(CodecError::TypeMismatch)
        } else if h.len() > u32::MAX {
            Err(CodecError::TooLong)
        } else {
            plain(uleb(h.len()) + h)
        },
    }
}

/// An encoding followed by that of the element at position `i`.
pub open spec fn push_enc(r: Enc, e: Enc, i: int) -> Enc {
    match r {
        Err(x) => Err(x),
        Ok((b, d)) => match e {
            Err(x) => Err(x),
            Ok((b2, d2)) => Ok((b + b2, d + under(d2, i))),
        },
    }
}

/// Encoding of the first `n` elements of a list of type `et`.
pub open spec fn list_enc(vs: Seq<ValView>, et: TyView, n: nat) -> Enc
    decreases vs, n,
{
    if n == 0 || n > vs.len() {
        plain(seq![])
    } else {
        push_enc(list_enc(vs, et, (n - 1) as nat), val_enc(vs[n - 1], et), n - 1)
    }
}

/// Encoding of the first `n` fields of a record, each as the type of the
/// field at its position.
pub open spec fn rec_enc(fs: Seq<(Seq<char>, ValView)>, tfs: Seq<(Seq<char>, TyView)>, n: nat) -> Enc
    decreases fs, n,
{
    if n == 0 || n > fs.len() || n > tfs.len() {
        plain(seq![])
    } else {
        proof {
            assert(decreases_to!(fs => fs[n - 1]));
        }
        push_enc(rec_enc(fs, tfs, (n - 1) as nat), val_enc(fs[n - 1].1, tfs[n - 1].1), n - 1)
    }
}

/// Encoding of the first `n` elements of a tuple, each as the type at its
/// position.
pub open spec fn tup_enc(vs: Seq<ValView>, ts: Seq<TyView>, n: nat) -> Enc
    decreases vs, n,
{
    if n == 0 || n > vs.len() || n > ts.len() {
        plain(seq![])
    } else {
        push_enc(tup_enc(vs, ts, (n - 1) as nat), val_enc(vs[n - 1], ts[n - 1]), n - 1)
    }
}

/// The bytes of an encoding, none when it fails.
pub open spec fn enc_out(e: Enc) -> Seq<u8> {
    match e {
        Ok((b, _)) => b,
        Err(_) => seq![],
    }
}

/// The bytes written while encoding `v` as `ty`, whether or not the encoding
/// succeeds: a value that fails within its elements or payload leaves what
/// was written before the failing part.
pub open spec fn written(v: ValView, ty: TyView) -> Seq<u8>
    decreases v, 0nat,
{
    match v {
        ValView::List(vs) => match ty {
            TyView::List(et) => if vs.len() > u32::MAX {
                seq![]
            } else {
                uleb(vs.len()) + list_written(vs, *et, vs.len())
            },
            _ => seq![],
        },
        ValView::Record(fs) => match ty {
            TyView::Record(tfs) => rec_written(
                fs,
                tfs,
                if fs.len() <= tfs.len() {
                    fs.len()
                } else {
                    tfs.len()
                },
            ),
            _ => seq![],
        },
        ValView::Tuple(vs) => match ty {
            TyView::Tuple(ts) => tup_written(
                vs,
                ts,
                if vs.len() <= ts.len() {
                    vs.len()
                } else {
                    ts.len()
                },
            ),
            _ => seq![],
        },
        ValView::Variant(name, p) => match ty {
            TyView::Variant(cases) => if cases.len() > u32::MAX {
                seq![]
            } else {
                match first_index(case_names(cases), name) {
                    None => seq![],
                    Some(i) => match p {
                        Some(x) => match cases[i].1 {
                            Some(ct) => uleb(i as nat) + written(*x, ct),
                            None => uleb(i as nat),
                        },
                        None => uleb(i as nat),
                    },
                }
            },
            _ => seq![],
        },
        ValView::Option(p) => match ty {
            TyView::Option(t) => match p {
                Some(x) => seq![1u8] + written(*x, *t),
                None => seq![0u8],
            },
            _ => seq![],
        },
        ValView::Result(r) => match ty {
            TyView::Result(okt, errt) => match r {
                Ok(p) => match (p, okt) {
                    (Some(x), Some(t)) => seq![0u8] + written(*x, *t),
                    _ => enc_out(val_enc(v, ty)),
                },
                Err(p) => match (p, errt) {
                    (Some(x), Some(t)) => seq![1u8] + written(*x, *t),
                    _ => enc_out(val_enc(v, ty)),
                },
            },
            _ => seq![],
        },
        _ => enc_out(val_enc(v, ty)),
    }
}

/// The bytes written while encoding the first `n` elements of a list: all of
/// them, or those up to and including the first element that fails.
pub open spec fn list_written(vs: Seq<ValView>, et: TyView, n: nat) -> Seq<u8>
    decreases vs, n,
{
    if n == 0 || n > vs.len() {
        seq![]
    } else {
        match list_enc(vs, et, (n - 1) as nat) {
            Ok((b, _)) => b + written(vs[n - 1], et),
            Err(_) => list_written(vs, et, (n - 1) as nat),
        }
    }
}

/// The bytes written while encoding the first `n` fields of a record.
pub open spec fn rec_written(fs: Seq<(Seq<char>, ValView)>, tfs: Seq<(Seq<char>, TyView)>, n: nat) -> Seq<u8>
    decreases fs, n,
{
    if n == 0 || n > fs.len() || n > tfs.len() {
        seq![]
    } else {
        proof {
            assert(decreases_to!(fs => fs[n - 1]));
        }
        match rec_enc(fs, tfs, (n - 1) as nat) {
            Ok((b, _)) => b + written(fs[n - 1].1, tfs[n - 1].1),
            Err(_) => rec_written(fs, tfs, (n - 1) as nat),
        }
    }
}

/// The bytes written while encoding the first `n` elements of a tuple.
pub open spec fn tup_written(vs: Seq<ValView>, ts: Seq<TyView>, n: nat) -> Seq<u8>
    decreases vs, n,
{
    if n == 0 || n > vs.len() || n > ts.len() {
        seq![]
    } else {
        match tup_enc(vs, ts, (n - 1) as nat) {
            Ok((b, _)) => b + written(vs[n - 1], ts[n - 1]),
            Err(_) => tup_written(vs, ts, (n - 1) as nat),
        }
    }
}

// ---------------------------------------------------------------------------
// Reading

/// Reading a value of type `ty`.
pub open spec fn val_read(t: Seq<u8>, k: nat, ty: TyView) -> Read<ValView>
    decreases ty, 0nat,
{
    match ty {
        TyView::Bool => map_read(flag_read(t, k), |x: bool| ValView::Bool(x)),
        TyView::S8 => map_read(byte_read(t, k), |b: u8| ValView::S8(s8_of(b))),
        TyView::U8 => map_read(byte_read(t, k), |b: u8| ValView::U8(b)),
        TyView::S16 => match read_i16_spec(t, k) {
            SlebRead::Done(v, e) => Read::Done(ValView::S16(v as i16), e),
            SlebRead::Incomplete => Read::Incomplete,
            SlebRead::Overflow => Read::Invalid(CodecError::Overflow),
        },
        TyView::U16 => map_read(u16_read(t, k), |x: u16| ValView::U16(x)),
        TyView::S32 => match read_i32_spec(t, k) {
            SlebRead::Done(v, e) => Read::Done(ValView::S32(v as i32), e),
            SlebRead::Incomplete => Read::Incomplete,
            SlebRead::Overflow => Read::Invalid(CodecError::Overflow),
        },
        TyView::U32 => map_read(u32_read(t, k), |x: u32| ValView::U32(x)),
        TyView::S64 => match read_i64_spec(t, k) {
            SlebRead::Done(v, e) => Read::Done(ValView::S64(v as i64), e),
            SlebRead::Incomplete => Read::Incomplete,
            SlebRead::Overflow => Read::Invalid(CodecError::Overflow),
        },
        TyView::U64 => map_read(u64_read(t, k), |x: u64| ValView::U64(x)),
        TyView::Float32 => if k + 4 <= t.len() {
            Read::Done(ValView::Float32(le_value(t.subrange(k as int, k + 4int)) as u32), k + 4)
        } else {
            Read::Incomplete
        },
        TyView::Float64 => if k + 8 <= t.len() {
            Read::Done(ValView::Float64(le_value(t.subrange(k as int, k + 8int)) as u64), k + 8)
        } else {
            Read::Incomplete
        },
        TyView::Char => map_read(char_read(t, k), |c: char| ValView::Char(c)),
        TyView::String => map_read(str_read(t, k), |s: Seq<char>| ValView::String(s)),
        TyView::List(et) => match u32_read(t, k) {
            Read::Done(n, e) => map_read(list_read(t, e, *et, n as nat), |vs: Seq<ValView>| ValView::List(vs)),
            Read::Incomplete => Read::Incomplete,
            Read::Invalid(x) => Read::Invalid(x),
        },
        TyView::Record(tfs) => map_read(
            rec_read(t, k, tfs, tfs.len()),
            |fs: Seq<(Seq<char>, ValView)>| ValView::Record(fs),
        ),
        TyView::Tuple(ts) => map_read(tup_read(t, k, ts, ts.len()), |vs: Seq<ValView>| ValView::Tuple(vs)),
        TyView::Variant(cases) => match u32_read(t, k) {
            Read::Done(d, e) => if d >= cases.len() {
                Read::Invalid(CodecError::UnknownDiscriminant(d))
            } else {
                proof {
                    assert(decreases_to!(cases => cases[d as int]));
                }
                match cases[d as int].1 {
                    Some(ct) => map_read(
                        val_read(t, e, ct),
                        |x: ValView| ValView::Variant(cases[d as int].0, Some(Box::new(x))),
                    ),
                    None => Read::Done(ValView::Variant(cases[d as int].0, None), e),
                }
            },
            Read::Incomplete => Read::Incomplete,
            Read::Invalid(x) => Read::Invalid(x),
        },
        TyView::Enum(names) => match u32_read(t, k) {
            Read::Done(d, e) => if d >= names.len() {
                Read::Invalid(CodecError::UnknownDiscriminant(d))
            } else {
                Read::Done(ValView::Enum(names[d as int]), e)
            },
            Read::Incomplete => Read::Incomplete,
            Read::Invalid(x) => Read::Invalid(x),
        },
        TyView::Option(et) => match flag_read(t, k) {
            Read::Done(false, e) => Read::Done(ValView::Option(None), e),
            Read::Done(true, e) => map_read(
                val_read(t, e, *et),
                |x: ValView| ValView::Option(Some(Box::new(x))),
            ),
            Read::Incomplete => Read::Incomplete,
            Read::Invalid(x) => Read::Invalid(x),
        },
        TyView::Result(okt, errt) => match byte_read(t, k) {
            Read::Done(b, e) => if b == 0 {
                match okt {
                    Some(ot) => map_read(
                        val_read(t, e, *ot),
                        |x: ValView| ValView::Result(Ok(Some(Box::new(x)))),
                    ),
                    None => Read::Done(ValView::Result(Ok(None)), e),
                }
            } else if b == 1 {
                match errt {
                    Some(et) => map_read(
                        val_read(t, e, *et),
                        |x: ValView| ValView::Result(Err(Some(Box::new(x)))),
                    ),
                    None => Read::Done(ValView::Result(Err(None)), e),
                }
            } else {
                Read::Invalid(CodecError::InvalidByte(b))
            },
            Read::Incomplete => Read::Incomplete,
            Read::Invalid(x) => Read::Invalid(x),
        },
        TyView::Flags(names) => {
            let c = flag_count(names.len());
            if k + c <= t.len() {
                Read::Done(
                    ValView::Flags(flags_of(names, t.subrange(k as int, (k + c) as int), names.len())),
                    k + c,
                )
            } else {
                Read::Incomplete
            }
        },
        TyView::Own(kind) => resource_read(t, k, kind),
        TyView::Borrow(kind) => resource_read(t, k, kind),
    }
}

/// Reading a resource of kind `kind`. An input stream takes no bytes here;
/// a guest handle is sixteen bytes after its length; a remote handle is
/// everything after its length, to the end of the input.
pub open spec fn resource_read(t: Seq<u8>, k: nat, kind: ResourceKind) -> Read<ValView> {
    match kind {
        ResourceKind::InputStream => Read::Done(ValView::Resource(ResourceView::InputStream), k),
        ResourceKind::Guest => match read_u8_spec(t, k) {
            UlebRead::Done(n, e) => if n != 16 {
                Read::Invalid(CodecError::InvalidHandle)
            } else if e + 16 > t.len() {
                Read::Incomplete
            } else {
                Read::Done(
                    ValView::Resource(ResourceView::Handle(t.subrange(e as int, e + 16int))),
                    e + 16,
                )
            },
            UlebRead::Incomplete => Read::Incomplete,
            UlebRead::Overflow => Read::Invalid(CodecError::Overflow),
        },
        ResourceKind::Remote => match u32_read(t, k) {
            Read::Done(_, e) => Read::Done(
                ValView::Resource(ResourceView::Handle(t.subrange(e as int, t.len() as int))),
                t.len(),
            ),
            Read::Incomplete => Read::Incomplete,
            Read::Invalid(x) => Read::Invalid(x),
        },
    }
}

/// Reading `n` elements of type `et`.
pub open spec fn list_read(t: Seq<u8>, k: nat, et: TyView, n: nat) -> Read<Seq<ValView>>
    decreases et, n,
{
    if n == 0 {
        Read::Done(seq![], k)
    } else {
        match list_read(t, k, et, (n - 1) as nat) {
            Read::Done(vs, e) => map_read(val_read(t, e, et), |x: ValView| vs.push(x)),
            Read::Incomplete => Read::Incomplete,
            Read::Invalid(x) => Read::Invalid(x),
        }
    }
}

/// Reading the first `n` fields of a record, each named as in its type.
pub open spec fn rec_read(t: Seq<u8>, k: nat, tfs: Seq<(Seq<char>, TyView)>, n: nat) -> Read<
    Seq<(Seq<char>, ValView)>,
>
    decreases tfs, n,
{
    if n == 0 || n > tfs.len() {
        Read::Done(seq![], k)
    } else {
        proof {
            assert(decreases_to!(tfs => tfs[n - 1]));
        }
        match rec_read(t, k, tfs, (n - 1) as nat) {
            Read::Done(fs, e) => map_read(
                val_read(t, e, tfs[n - 1].1),
                |x: ValView| fs.push((tfs[n - 1].0, x)),
            ),
            Read::Incomplete => Read::Incomplete,
            Read::Invalid(x) => Read::Invalid(x),
        }
    }
}

/// Reading the first `n` elements of a tuple.
pub open spec fn tup_read(t: Seq<u8>, k: nat, ts: Seq<TyView>, n: nat) -> Read<Seq<ValView>>
    decreases ts, n,
{
    if n == 0 || n > ts.len() {
        Read::Done(seq![], k)
    } else {
        match tup_read(t, k, ts, (n - 1) as nat) {
            Read::Done(vs, e) => map_read(val_read(t, e, ts[n - 1]), |x: ValView| vs.push(x)),
            Read::Incomplete => Read::Incomplete,
            Read::Invalid(x) => Read::Invalid(x),
        }
    }
}

/// The view of a list is the views of its elements.
pub proof fn lemma_list_view(v: Val)
    requires
        v is List,
    ensures
        v.deep_view() == ValView::List(v->List_0.deep_view()),
{
    if let Val::List(vs) = v {
        assert(v.deep_view()->List_0 =~= vs.deep_view());
    }
}

/// The view of a tuple is the views of its elements.
pub proof fn lemma_tuple_view(v: Val)
    requires
        v is Tuple,
    ensures
        v.deep_view() == ValView::Tuple(v->Tuple_0.deep_view()),
{
    if let Val::Tuple(vs) = v {
        assert(v.deep_view()->Tuple_0 =~= vs.deep_view());
    }
}

/// The view of a tuple type is the views of its element types.
pub proof fn lemma_tuple_ty_view(t: Ty)
    requires
        t is Tuple,
    ensures
        t.deep_view() == TyView::Tuple(t->Tuple_0.deep_view()),
{
    if let Ty::Tuple(ts) = t {
        assert(t.deep_view()->Tuple_0 =~= ts.deep_view());
    }
}

/// The view of a record is its field names and the views of its values.
pub proof fn lemma_record_view(v: Val)
    requires
        v is Record,
    ensures
        v.deep_view() is Record,
        v.deep_view()->Record_0.len() == v->Record_0.len(),
        forall|i: int|
            0 <= i < v->Record_0.len() ==> #[trigger] v.deep_view()->Record_0[i] == (
                v->Record_0@[i].0@,
                v->Record_0@[i].1.deep_view(),
            ),
{
}

/// The view of a record type is its field names and the views of their types.
pub proof fn lemma_record_ty_view(t: Ty)
    requires
        t is Record,
    ensures
        t.deep_view() is Record,
        t.deep_view()->Record_0.len() == t->Record_0.len(),
        forall|i: int|
            0 <= i < t->Record_0.len() ==> #[trigger] t.deep_view()->Record_0[i] == (
                t->Record_0@[i].0@,
                t->Record_0@[i].1.deep_view(),
            ),
{
}

/// The view of a variant type is its case names and the views of their types.
pub proof fn lemma_variant_ty_view(t: Ty)
    requires
        t is Variant,
    ensures
        t.deep_view() is Variant,
        t.deep_view()->Variant_0.len() == t->Variant_0.len(),
        forall|i: int|
            0 <= i < t->Variant_0.len() ==> #[trigger] t.deep_view()->Variant_0[i] == (
                t->Variant_0@[i].0@,
                match t->Variant_0@[i].1 {
                    Some(c) => Some(c.deep_view()),
                    None => None,
                },
            ),
{
}

// ---------------------------------------------------------------------------
// Values that read back as themselves

/// The names among the first `n` of `names` that are in `set`, in order.
pub open spec fn select(names: Seq<Seq<char>>, set: Seq<Seq<char>>, n: nat) -> Seq<Seq<char>>
    decreases n,
{
    if n == 0 {
        seq![]
    } else if set.contains(names[n - 1]) {
        select(names, set, (n - 1) as nat).push(names[n - 1])
    } else {
        select(names, set, (n - 1) as nat)
    }
}

/// Whether `v` is a value of type `ty` that encodes and reads back as
/// itself: every part has the type's shape, with as many elements and fields
/// as the type has, the type's field names, case and enum names that the
/// type has (payload present exactly when the case has one), flags listed
/// in the type's order, strings and lists short enough to be written, guest
/// handles of sixteen bytes, and no remote handles (which take the rest of
/// the input when read).
pub open spec fn well_typed(v: ValView, ty: TyView) -> bool
    decreases v, 0nat,
{
    match v {
        ValView::Bool(_) => ty is Bool,
        ValView::S8(_) => ty is S8,
        ValView::U8(_) => ty is U8,
        ValView::S16(_) => ty is S16,
        ValView::U16(_) => ty is U16,
        ValView::S32(_) => ty is S32,
        ValView::U32(_) => ty is U32,
        ValView::S64(_) => ty is S64,
        ValView::U64(_) => ty is U64,
        ValView::Float32(_) => ty is Float32,
        ValView::Float64(_) => ty is Float64,
        ValView::Char(_) => ty is Char,
        ValView::String(s) => ty is String && str_fits(s),
        ValView::List(vs) => match ty {
            TyView::List(et) => vs.len() <= u32::MAX && list_wt(vs, *et, vs.len()),
            _ => false,
        },
        ValView::Record(fs) => match ty {
            TyView::Record(tfs) => fs.len() == tfs.len() && rec_wt(fs, tfs, fs.len()),
            _ => false,
        },
        ValView::Tuple(vs) => match ty {
            TyView::Tuple(ts) => vs.len() == ts.len() && tup_wt(vs, ts, vs.len()),
            _ => false,
        },
        ValView::Variant(name, p) => match ty {
            TyView::Variant(cases) => cases.len() <= u32::MAX && match first_index(
                case_names(cases),
                name,
            ) {
                Some(i) => match (p, cases[i].1) {
                    (None, None) => true,
                    (Some(x), Some(ct)) => well_typed(*x, ct),
                    _ => false,
                },
                None => false,
            },
            _ => false,
        },
        ValView::Enum(name) => match ty {
            TyView::Enum(names) => names.len() <= u32::MAX && first_index(names, name) is Some,
            _ => false,
        },
        ValView::Option(p) => match ty {
            TyView::Option(t) => match p {
                None => true,
                Some(x) => well_typed(*x, *t),
            },
            _ => false,
        },
        ValView::Result(r) => match ty {
            TyView::Result(okt, errt) => match r {
                Ok(p) => match (p, okt) {
                    (None, None) => true,
                    (Some(x), Some(t)) => well_typed(*x, *t),
                    _ => false,
                },
                Err(p) => match (p, errt) {
                    (None, None) => true,
                    (Some(x), Some(t)) => well_typed(*x, *t),
                    _ => false,
                },
            },
            _ => false,
        },
        ValView::Flags(set) => match ty {
            TyView::Flags(names) => set == select(names, set, names.len()),
            _ => false,
        },
        ValView::Resource(r) => match (r, ty) {
            (ResourceView::InputStream, TyView::Own(ResourceKind::InputStream)) => true,
            (ResourceView::Handle(h), TyView::Own(ResourceKind::Guest)) => h.len() == 16,
            (ResourceView::Handle(h), TyView::Borrow(ResourceKind::Guest)) => h.len() == 16,
            _ => false,
        },
    }
}

/// The first `n` elements of a list are values of type `et`.
pub open spec fn list_wt(vs: Seq<ValView>, et: TyView, n: nat) -> bool
    decreases vs, n,
{
    if n == 0 || n > vs.len() {
        true
    } else {
        list_wt(vs, et, (n - 1) as nat) && well_typed(vs[n - 1], et)
    }
}

/// The first `n` fields of a record have the names and types of the fields
/// of `tfs`.
pub open spec fn rec_wt(fs: Seq<(Seq<char>, ValView)>, tfs: Seq<(Seq<char>, TyView)>, n: nat) -> bool
    decreases fs, n,
{
    if n == 0 || n > fs.len() || n > tfs.len() {
        true
    } else {
        proof {
            assert(decreases_to!(fs => fs[n - 1]));
        }
        rec_wt(fs, tfs, (n - 1) as nat) && fs[n - 1].0 == tfs[n - 1].0 && well_typed(
            fs[n - 1].1,
            tfs[n - 1].1,
        )
    }
}

/// The first `n` elements of a tuple have the types of `ts`.
pub open spec fn tup_wt(vs: Seq<ValView>, ts: Seq<TyView>, n: nat) -> bool
    decreases vs, n,
{
    if n == 0 || n > vs.len() || n > ts.len() {
        true
    } else {
        tup_wt(vs, ts, (n - 1) as nat) && well_typed(vs[n - 1], ts[n - 1])
    }
}

} // verus!
