//! Packing a value into one flat byte buffer and unpacking it again, for
//! values that hold no asynchronous parts.

use vstd::prelude::*;

use crate::codec::{deferred_view, read_value, ValEncoder};
use crate::codecs::Deferred;
use crate::value::{
    lemma_list_view, lemma_record_view, lemma_tuple_view, enc_out, val_enc, val_read, written, Resource, Ty,
    TyView, Val, ValView,
};
use crate::value::{
    case_names, first_index, list_enc, list_wt, rec_enc, rec_wt, tup_enc, tup_wt, well_typed, Enc,
};
use crate::value_laws::lemma_value_roundtrip;
use crate::wire::{CodecError, Read};

verus! {

/// Why a value could not be packed or unpacked.
#[derive(Clone, Copy, Debug, PartialEq, Eq)]
pub enum PackError {
    /// The value could not be encoded or decoded.
    Codec(CodecError),
    /// The value holds an input stream, whose contents would follow it on a
    /// nested stream.
    Pending,
    /// The buffer ends before the value does.
    Incomplete,
}

/// Whether a value holds an input stream anywhere.
pub open spec fn val_streams(v: ValView) -> bool
    decreases v, 0nat,
{
    match v {
        ValView::List(vs) => seq_streams(vs, vs.len()),
        ValView::Tuple(vs) => seq_streams(vs, vs.len()),
        ValView::Record(fs) => fields_stream(fs, fs.len()),
        ValView::Variant(_, p) => match p {
            Some(x) => val_streams(*x),
            None => false,
        },
        ValView::Option(p) => match p {
            Some(x) => val_streams(*x),
            None => false,
        },
        ValView::Result(r) => match r {
            Ok(Some(x)) => val_streams(*x),
            Err(Some(x)) => val_streams(*x),
            _ => false,
        },
        ValView::Resource(r) => r is InputStream,
        _ => false,
    }
}

/// Whether one of the first `n` values of `s` holds an input stream.
pub open spec fn seq_streams(s: Seq<ValView>, n: nat) -> bool
    decreases s, n,
{
    if n == 0 || n > s.len() {
        false
    } else {
        seq_streams(s, (n - 1) as nat) || {
            proof {
                assert(decreases_to!(s => s[n - 1]));
            }
            val_streams(s[n - 1])
        }
    }
}

/// Whether one of the first `n` fields of `fs` holds an input stream.
pub open spec fn fields_stream(fs: Seq<(Seq<char>, ValView)>, n: nat) -> bool
    decreases fs, n,
{
    if n == 0 || n > fs.len() {
        false
    } else {
        fields_stream(fs, (n - 1) as nat) || {
            proof {
                assert(decreases_to!(fs => fs[n - 1]));
                assert(decreases_to!(fs[n - 1] => fs[n - 1].1));
            }
            val_streams(fs[n - 1].1)
        }
    }
}

/// Once one of the first values holds an input stream, so does one of more.
proof fn lemma_seq_streams_grow(s: Seq<ValView>, m: nat, n: nat)
    requires
        seq_streams(s, m),
        m <= n <= s.len(),
    ensures
        seq_streams(s, n),
    decreases n - m,
{
    if m < n {
        lemma_seq_streams_grow(s, m, (n - 1) as nat);
    }
}

/// Once one of the first fields holds an input stream, so does one of more.
proof fn lemma_fields_stream_grow(fs: Seq<(Seq<char>, ValView)>, m: nat, n: nat)
    requires
        fields_stream(fs, m),
        m <= n <= fs.len(),
    ensures
        fields_stream(fs, n),
    decreases n - m,
{
    if m < n {
        lemma_fields_stream_grow(fs, m, (n - 1) as nat);
    }
}

/// Whether one of `vs` holds an input stream.
fn any_streams(vs: &Vec<Val>) -> (r: bool)
    ensures
        r == seq_streams(vs.deep_view(), vs.deep_view().len()),
    decreases vs, 1nat,
{
    let mut i: usize = 0;
    while i < vs.len()
        invariant
            i <= vs@.len(),
            !seq_streams(vs.deep_view(), i as nat),
            vs.deep_view().len() == vs@.len(),
        decreases vs@.len() - i,
    {
        assert(decreases_to!(vs => vs@));
        assert(decreases_to!(vs@ => vs@[i as int]));
        assert(vs.deep_view()[i as int] == vs@[i as int].deep_view());
        if has_input_stream(&vs[i]) {
            proof {
                lemma_seq_streams_grow(vs.deep_view(), (i + 1) as nat, vs.deep_view().len());
            }
            return true;
        }
        i = i + 1;
    }
    false
}

/// Whether one of the fields `fs` holds an input stream.
fn any_field_streams(fs: &Vec<(String, Val)>) -> (r: bool)
    ensures
        r == fields_stream(fs.deep_view(), fs.deep_view().len()),
    decreases fs, 1nat,
{
    let mut i: usize = 0;
    while i < fs.len()
        invariant
            i <= fs@.len(),
            !fields_stream(fs.deep_view(), i as nat),
            fs.deep_view().len() == fs@.len(),
        decreases fs@.len() - i,
    {
        assert(decreases_to!(fs => fs@));
        assert(decreases_to!(fs@ => fs@[i as int]));
        assert(decreases_to!(fs@[i as int] => fs@[i as int].1));
        assert(fs.deep_view()[i as int].1 == fs@[i as int].1.deep_view());
        if has_input_stream(&fs[i].1) {
            proof {
                lemma_fields_stream_grow(fs.deep_view(), (i + 1) as nat, fs.deep_view().len());
            }
            return true;
        }
        i = i + 1;
    }
    false
}

/// Whether a value holds an input stream anywhere.
pub fn has_input_stream(v: &Val) -> (r: bool)
    ensures
        r == val_streams(v.deep_view()),
    decreases v, 0nat,
{
    match v {
        Val::List(vs) => {
            proof {
                lemma_list_view(*v);
            }
            any_streams(vs)
        },
        Val::Tuple(vs) => {
            proof {
                lemma_tuple_view(*v);
            }
            any_streams(vs)
        },
        Val::Record(fs) => {
            proof {
                lemma_record_view(*v);
                assert(v.deep_view()->Record_0 =~= fs.deep_view());
            }
            any_field_streams(fs)
        },
        Val::Variant(_, p) => match p {
            Some(x) => has_input_stream(&**x),
            None => false,
        },
        Val::Option(p) => match p {
            Some(x) => has_input_stream(&**x),
            None => false,
        },
        Val::Result(r) => match r {
            Ok(Some(x)) => has_input_stream(&**x),
            Err(Some(x)) => has_input_stream(&**x),
            _ => false,
        },
        Val::Resource(r) => match r {
            Resource::InputStream => true,
            Resource::Handle(_) => false,
        },
        _ => false,
    }
}

/// Appends the encoding of `v`, of type `ty`, to `dst`. A value that holds
/// input streams is written but refused, as their contents would have to
/// follow it on nested streams. A value that fails to encode leaves in `dst`
/// what was written before the failing part.
pub fn pack(ty: &Ty, v: &Val, dst: &mut Vec<u8>) -> (r: Result<(), PackError>)
    ensures
        final(dst)@ == old(dst)@ + written(v.deep_view(), ty.deep_view()),
        match val_enc(v.deep_view(), ty.deep_view()) {
            Ok((b, d)) => {
                &&& final(dst)@ == old(dst)@ + b
                &&& r == if d.len() == 0 {
                    Ok::<(), PackError>(())
                } else {
                    Err(PackError::Pending)
                }
            },
            Err(e) => r == Err::<(), PackError>(PackError::Codec(e)),
        },
{
    let mut enc = ValEncoder::new(ty);
    match enc.encode(v, dst) {
        Err(e) => Err(PackError::Codec(e)),
        Ok(()) => {
            if enc.take_deferred().is_some() {
                Err(PackError::Pending)
            } else {
                Ok(())
            }
        },
    }
}

/// Reads a value of type `ty` from the front of `buf`, giving it and the
/// number of bytes it takes. A value that holds input streams is refused, as
/// their contents would follow it on nested streams.
pub fn unpack(ty: &Ty, buf: &[u8]) -> (r: Result<(Val, usize), PackError>)
    ensures
        match val_read(buf@, 0, ty.deep_view()) {
            Read::Done(v, e) => if val_streams(v) {
                r == Err::<(Val, usize), PackError>(PackError::Pending)
            } else {
                &&& r is Ok
                &&& r->Ok_0.0.deep_view() == v
                &&& r->Ok_0.1 == e
            },
            Read::Incomplete => r == Err::<(Val, usize), PackError>(PackError::Incomplete),
            Read::Invalid(x) => r == Err::<(Val, usize), PackError>(PackError::Codec(x)),
        },
{
    match read_value(buf, 0, ty) {
        Err(e) => Err(PackError::Codec(e)),
        Ok(None) => Err(PackError::Incomplete),
        Ok(Some((v, e))) => {
            if has_input_stream(&v) {
                return Err(PackError::Pending);
            }
            Ok((v, e))
        },
    }
}

/// What `pack` writes of a well-typed value that holds no input stream,
/// `unpack` reads back whole, whatever follows it in the buffer.
pub proof fn lemma_pack_roundtrip(v: ValView, ty: TyView, rest: Seq<u8>)
    requires
        well_typed(v, ty),
        !val_streams(v),
    ensures
        val_enc(v, ty) is Ok,
        val_read(enc_out(val_enc(v, ty)) + rest, 0, ty) == Read::Done(v, enc_out(val_enc(v, ty)).len()),
{
    lemma_value_roundtrip(Seq::empty(), v, ty, rest);
    assert(Seq::<u8>::empty() + enc_out(val_enc(v, ty)) + rest =~= enc_out(val_enc(v, ty)) + rest);
}

/// The deferred paths of an encoding, none when it fails.
pub open spec fn enc_deferred(e: Enc) -> Seq<Seq<usize>> {
    match e {
        Ok((_, d)) => d,
        Err(_) => seq![],
    }
}

/// A well-typed value holds an input stream exactly when encoding it leaves
/// input streams to be written after it on nested streams; so `pack` and
/// `unpack` refuse as pending exactly the values whose encoding defers
/// something, wherever the stream sits (in an element, a field, or the
/// payload of an option, variant or result).
pub proof fn lemma_streams_iff_deferred(v: ValView, ty: TyView)
    requires
        well_typed(v, ty),
    ensures
        val_enc(v, ty) is Ok,
        val_streams(v) <==> enc_deferred(val_enc(v, ty)).len() > 0,
    decreases v, 0nat,
{
    lemma_value_roundtrip(Seq::empty(), v, ty, Seq::empty());
    match v {
        ValView::List(vs) => {
            let et = *ty->List_0;
            lemma_list_streams(vs, et, vs.len());
        },
        ValView::Record(fs) => {
            let tfs = ty->Record_0;
            lemma_rec_streams(fs, tfs, fs.len());
        },
        ValView::Tuple(vs) => {
            let ts = ty->Tuple_0;
            lemma_tup_streams(vs, ts, vs.len());
        },
        ValView::Variant(name, p) => {
            if let Some(x) = p {
                let cases = ty->Variant_0;
                if let Some(i) = first_index(case_names(cases), name) {
                    if let Some(ct) = cases[i].1 {
                        lemma_streams_iff_deferred(*x, ct);
                    }
                }
            }
        },
        ValView::Option(p) => {
            if let Some(x) = p {
                lemma_streams_iff_deferred(*x, *ty->Option_0);
            }
        },
        ValView::Result(r) => {
            match r {
                Ok(Some(x)) => {
                    if let Some(t) = ty->Result_0 {
                        lemma_streams_iff_deferred(*x, *t);
                    }
                },
                Err(Some(x)) => {
                    if let Some(t) = ty->Result_1 {
                        lemma_streams_iff_deferred(*x, *t);
                    }
                },
                _ => {},
            }
        },
        _ => {},
    }
}

/// The list case of `lemma_streams_iff_deferred`.
proof fn lemma_list_streams(vs: Seq<ValView>, et: TyView, n: nat)
    requires
        list_wt(vs, et, n),
        list_enc(vs, et, n) is Ok,
    ensures
        seq_streams(vs, n) <==> enc_deferred(list_enc(vs, et, n)).len() > 0,
    decreases vs, n,
{
    if n > 0 && n <= vs.len() {
        lemma_list_streams(vs, et, (n - 1) as nat);
        lemma_streams_iff_deferred(vs[n - 1], et);
    }
}

/// The record case of `lemma_streams_iff_deferred`.
proof fn lemma_rec_streams(fs: Seq<(Seq<char>, ValView)>, tfs: Seq<(Seq<char>, TyView)>, n: nat)
    requires
        rec_wt(fs, tfs, n),
        rec_enc(fs, tfs, n) is Ok,
        n <= fs.len() <= tfs.len(),
    ensures
        fields_stream(fs, n) <==> enc_deferred(rec_enc(fs, tfs, n)).len() > 0,
    decreases fs, n,
{
    if n > 0 {
        assert(decreases_to!(fs => fs[n - 1]));
        lemma_rec_streams(fs, tfs, (n - 1) as nat);
        lemma_streams_iff_deferred(fs[n - 1].1, tfs[n - 1].1);
    }
}

/// The tuple case of `lemma_streams_iff_deferred`.
proof fn lemma_tup_streams(vs: Seq<ValView>, ts: Seq<TyView>, n: nat)
    requires
        tup_wt(vs, ts, n),
        tup_enc(vs, ts, n) is Ok,
        n <= vs.len() <= ts.len(),
    ensures
        seq_streams(vs, n) <==> enc_deferred(tup_enc(vs, ts, n)).len() > 0,
    decreases vs, n,
{
    if n > 0 {
        lemma_tup_streams(vs, ts, (n - 1) as nat);
        lemma_streams_iff_deferred(vs[n - 1], ts[n - 1]);
    }
}

} // verus!
