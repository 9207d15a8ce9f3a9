//! What reading gives back of what encoding wrote.

use vstd::prelude::*;

use crate::leb128::{
    lemma_i16_roundtrip, lemma_i32_roundtrip, lemma_i64_roundtrip, lemma_pow128_values,
    lemma_uleb_roundtrip, pow128, uleb,
};
use crate::value::{
    bit_set, case_names, enc_out, first_index, list_written, rec_written, tup_written, written, flag_byte, flag_count, flag_set, flags_bytes, flags_of,
    is_first, list_enc, list_read, list_wt, rec_enc, rec_read, rec_wt, s8_byte, s8_of, select,
    tup_enc, tup_read, tup_wt, val_enc, val_read, well_typed, ResourceKind, ResourceView,
    TyView, ValView,
};
use crate::wire::{
    lemma_byte_roundtrip, lemma_char_roundtrip, lemma_le_roundtrip, lemma_str_roundtrip,
    lemma_u16_read_roundtrip, lemma_u32_read_roundtrip, lemma_u64_read_roundtrip, pow256, Read,
};

verus! {

proof fn lemma_or_bit(x: u8, y: u8, c: u8)
    requires
        y < 8,
        c < 8,
    ensures
        ((x | (1u8 << y)) >> c) & 1 == 1 <==> (((x >> c) & 1 == 1) || c == y),
{
    assert(((x | (1u8 << y)) >> c) & 1 == 1 <==> (((x >> c) & 1 == 1) || c == y)) by (bit_vector)
        requires
            y < 8,
            c < 8,
    ;
}

proof fn lemma_zero_bit(c: u8)
    requires
        c < 8,
    ensures
        (0u8 >> c) & 1 == 0,
{
    assert((0u8 >> c) & 1 == 0) by (bit_vector)
        requires
            c < 8,
    ;
}

/// Bit `c` of the first `b` bits of a byte of flags is set exactly when the
/// flag it stands for is.
proof fn lemma_flag_byte_bit(names: Seq<Seq<char>>, set: Seq<Seq<char>>, j: int, b: nat, c: nat)
    requires
        b <= 8,
        c < 8,
    ensures
        ((flag_byte(names, set, j, b) >> (c as u8)) & 1 == 1) <==> (c < b && flag_set(names, set, 8 * j + c)),
    decreases b,
{
    if b == 0 {
        lemma_zero_bit(c as u8);
    } else {
        lemma_flag_byte_bit(names, set, j, (b - 1) as nat, c);
        let prev = flag_byte(names, set, j, (b - 1) as nat);
        if flag_set(names, set, 8 * j + b - 1) {
            lemma_or_bit(prev, (b - 1) as u8, c as u8);
        }
    }
}

/// The bit of a flag in the encoding of a set is set exactly when the flag
/// is in the set.
proof fn lemma_flag_bit(names: Seq<Seq<char>>, set: Seq<Seq<char>>, i: int)
    requires
        0 <= i < names.len(),
    ensures
        bit_set(flags_bytes(names, set), i) <==> set.contains(names[i]),
{
    let n = names.len();
    assert(i / 8 < flag_count(n)) by (nonlinear_arith)
        requires
            0 <= i < n,
            n <= 8 ==> flag_count(n) == 1,
            n > 8 ==> flag_count(n) == (n + 7) / 8,
    ;
    assert(8 * (i / 8) + i % 8 == i);
    lemma_flag_byte_bit(names, set, i / 8, 8, (i % 8) as nat);
}

/// Reading the flags of an encoded set gives the names of the set in the
/// type's order.
proof fn lemma_flags_select(names: Seq<Seq<char>>, set: Seq<Seq<char>>, n: nat)
    requires
        n <= names.len(),
    ensures
        flags_of(names, flags_bytes(names, set), n) == select(names, set, n),
    decreases n,
{
    if n > 0 {
        lemma_flags_select(names, set, (n - 1) as nat);
        lemma_flag_bit(names, set, n - 1);
    }
}

/// The elements of a list read back.
proof fn lemma_list_roundtrip(p: Seq<u8>, vs: Seq<ValView>, et: TyView, n: nat, rest: Seq<u8>)
    requires
        n <= vs.len(),
        list_wt(vs, et, n),
    ensures
        list_enc(vs, et, n) is Ok,
        list_read(p + enc_out(list_enc(vs, et, n)) + rest, p.len(), et, n) == Read::Done(
            vs.take(n as int),
            p.len() + enc_out(list_enc(vs, et, n)).len(),
        ),
    decreases vs, n,
{
    if n == 0 {
        assert(vs.take(0) =~= Seq::<ValView>::empty());
        assert(p + enc_out(list_enc(vs, et, n)) + rest =~= p + rest);
    } else {
        let bb = enc_out(list_enc(vs, et, (n - 1) as nat));
        lemma_value_roundtrip(p + bb, vs[n - 1], et, rest);
        let b = enc_out(val_enc(vs[n - 1], et));
        lemma_list_roundtrip(p, vs, et, (n - 1) as nat, b + rest);
        let t = p + enc_out(list_enc(vs, et, n)) + rest;
        assert(enc_out(list_enc(vs, et, n)) == bb + b);
        assert(t =~= p + bb + (b + rest));
        assert(t =~= p + bb + b + rest);
        assert(vs.take(n as int) =~= vs.take(n - 1).push(vs[n - 1]));
    }
}

/// The fields of a record read back.
proof fn lemma_rec_roundtrip(
    p: Seq<u8>,
    fs: Seq<(Seq<char>, ValView)>,
    tfs: Seq<(Seq<char>, TyView)>,
    n: nat,
    rest: Seq<u8>,
)
    requires
        n <= fs.len(),
        n <= tfs.len(),
        rec_wt(fs, tfs, n),
    ensures
        rec_enc(fs, tfs, n) is Ok,
        rec_read(p + enc_out(rec_enc(fs, tfs, n)) + rest, p.len(), tfs, n) == Read::Done(
            fs.take(n as int),
            p.len() + enc_out(rec_enc(fs, tfs, n)).len(),
        ),
    decreases fs, n,
{
    if n == 0 {
        assert(fs.take(0) =~= Seq::<(Seq<char>, ValView)>::empty());
        assert(p + enc_out(rec_enc(fs, tfs, n)) + rest =~= p + rest);
    } else {
        assert(decreases_to!(fs => fs[n - 1]));
        let bb = enc_out(rec_enc(fs, tfs, (n - 1) as nat));
        lemma_value_roundtrip(p + bb, fs[n - 1].1, tfs[n - 1].1, rest);
        let b = enc_out(val_enc(fs[n - 1].1, tfs[n - 1].1));
        lemma_rec_roundtrip(p, fs, tfs, (n - 1) as nat, b + rest);
        let t = p + enc_out(rec_enc(fs, tfs, n)) + rest;
        assert(enc_out(rec_enc(fs, tfs, n)) == bb + b);
        assert(t =~= p + bb + (b + rest));
        assert(t =~= p + bb + b + rest);
        assert(fs.take(n as int) =~= fs.take(n - 1).push((tfs[n - 1].0, fs[n - 1].1)));
    }
}

/// The elements of a tuple read back.
proof fn lemma_tup_roundtrip(p: Seq<u8>, vs: Seq<ValView>, ts: Seq<TyView>, n: nat, rest: Seq<u8>)
    requires
        n <= vs.len(),
        n <= ts.len(),
        tup_wt(vs, ts, n),
    ensures
        tup_enc(vs, ts, n) is Ok,
        tup_read(p + enc_out(tup_enc(vs, ts, n)) + rest, p.len(), ts, n) == Read::Done(
            vs.take(n as int),
            p.len() + enc_out(tup_enc(vs, ts, n)).len(),
        ),
    decreases vs, n,
{
    if n == 0 {
        assert(vs.take(0) =~= Seq::<ValView>::empty());
        assert(p + enc_out(tup_enc(vs, ts, n)) + rest =~= p + rest);
    } else {
        let bb = enc_out(tup_enc(vs, ts, (n - 1) as nat));
        lemma_value_roundtrip(p + bb, vs[n - 1], ts[n - 1], rest);
        let b = enc_out(val_enc(vs[n - 1], ts[n - 1]));
        lemma_tup_roundtrip(p, vs, ts, (n - 1) as nat, b + rest);
        let t = p + enc_out(tup_enc(vs, ts, n)) + rest;
        assert(enc_out(tup_enc(vs, ts, n)) == bb + b);
        assert(t =~= p + bb + (b + rest));
        assert(t =~= p + bb + b + rest);
        assert(vs.take(n as int) =~= vs.take(n - 1).push(vs[n - 1]));
    }
}

/// A value with no parts, encoded after `p`, reads back.
#[verifier::spinoff_prover]
proof fn lemma_scalar_roundtrip(p: Seq<u8>, v: ValView, ty: TyView, rest: Seq<u8>)
    requires
        well_typed(v, ty),
        !(v is List || v is Record || v is Tuple || v is Variant || v is Option || v is Result),
    ensures
        val_enc(v, ty) is Ok,
        val_read(p + enc_out(val_enc(v, ty)) + rest, p.len(), ty) == Read::Done(
            v,
            p.len() + enc_out(val_enc(v, ty)).len(),
        ),
{
    let b = enc_out(val_enc(v, ty));
    let t = p + b + rest;
    match v {
        ValView::Bool(x) => lemma_byte_roundtrip(p, if x { 1u8 } else { 0u8 }, rest),
        ValView::S8(x) => {
            lemma_byte_roundtrip(p, s8_byte(x), rest);
            assert(s8_of(s8_byte(x)) == x);
        },
        ValView::U8(x) => lemma_byte_roundtrip(p, x, rest),
        ValView::S16(x) => lemma_i16_roundtrip(p, x, rest),
        ValView::U16(x) => lemma_u16_read_roundtrip(p, x, rest),
        ValView::S32(x) => lemma_i32_roundtrip(p, x, rest),
        ValView::U32(x) => lemma_u32_read_roundtrip(p, x, rest),
        ValView::S64(x) => lemma_i64_roundtrip(p, x, rest),
        ValView::U64(x) => lemma_u64_read_roundtrip(p, x, rest),
        ValView::Float32(x) => {
            assert(pow256(0) == 1);
            assert(pow256(1) == 256);
            assert(pow256(2) == 0x1_0000);
            assert(pow256(3) == 0x100_0000);
            assert(pow256(4) == 0x1_0000_0000);
            lemma_le_roundtrip(x as nat, 4);
            assert(t.subrange(p.len() as int, p.len() + 4int) =~= b);
        },
        ValView::Float64(x) => {
            assert(pow256(0) == 1);
            assert(pow256(1) == 256);
            assert(pow256(2) == 0x1_0000);
            assert(pow256(3) == 0x100_0000);
            assert(pow256(4) == 0x1_0000_0000);
            assert(pow256(5) == 0x100_0000_0000);
            assert(pow256(6) == 0x1_0000_0000_0000);
            assert(pow256(7) == 0x100_0000_0000_0000);
            assert(pow256(8) == 0x1_0000_0000_0000_0000);
            lemma_le_roundtrip(x as nat, 8);
            assert(t.subrange(p.len() as int, p.len() + 8int) =~= b);
        },
        ValView::Char(c) => lemma_char_roundtrip(p, c, rest),
        ValView::String(s) => lemma_str_roundtrip(p, s, rest),
        ValView::Enum(name) => {
            let names = ty->Enum_0;
            let i = first_index(names, name)->0;
            assert(is_first(names, name, i));
            lemma_u32_read_roundtrip(p, i as u32, rest);
        },
        ValView::Flags(set) => {
            let names = ty->Flags_0;
            lemma_flags_select(names, set, names.len());
            assert(t.subrange(p.len() as int, (p.len() + flag_count(names.len())) as int) =~= b);
        },
        ValView::Resource(r) => {
            match r {
                ResourceView::InputStream => {
                    assert(t =~= p + rest);
                },
                ResourceView::Handle(h) => {
                    lemma_pow128_values();
                    assert(pow128((2 - 1 - 0) as nat) == 128);
                    assert(t =~= p + uleb(16) + (h + rest));
                    lemma_uleb_roundtrip(p, 16, h + rest, 0, 2, 1);
                    assert(uleb(16) =~= seq![16u8]);
                    assert(t.subrange(p.len() + 1int, p.len() + 17int) =~= h);
                },
            }
        },
        _ => {},
    }
}

/// A variant, encoded after `p`, reads back.
#[verifier::spinoff_prover]
proof fn lemma_variant_roundtrip(p: Seq<u8>, v: ValView, ty: TyView, rest: Seq<u8>)
    requires
        well_typed(v, ty),
        v is Variant,
    ensures
        val_enc(v, ty) is Ok,
        val_read(p + enc_out(val_enc(v, ty)) + rest, p.len(), ty) == Read::Done(
            v,
            p.len() + enc_out(val_enc(v, ty)).len(),
        ),
    decreases v, 0nat,
{
    let t = p + enc_out(val_enc(v, ty)) + rest;
    let name = v->Variant_0;
    let pv = v->Variant_1;
    let cases = ty->Variant_0;
    let i = first_index(case_names(cases), name)->0;
    assert(is_first(case_names(cases), name, i));
    let u = uleb(i as nat);
    match pv {
        None => {
            lemma_u32_read_roundtrip(p, i as u32, rest);
        },
        Some(x) => {
            let ct = cases[i].1->0;
            lemma_value_roundtrip(p + u, *x, ct, rest);
            let b = enc_out(val_enc(*x, ct));
            assert(t =~= p + u + (b + rest));
            lemma_u32_read_roundtrip(p, i as u32, b + rest);
            assert(t =~= p + u + b + rest);
        },
    }
}

/// An option, encoded after `p`, reads back.
#[verifier::spinoff_prover]
proof fn lemma_option_roundtrip(p: Seq<u8>, v: ValView, ty: TyView, rest: Seq<u8>)
    requires
        well_typed(v, ty),
        v is Option,
    ensures
        val_enc(v, ty) is Ok,
        val_read(p + enc_out(val_enc(v, ty)) + rest, p.len(), ty) == Read::Done(
            v,
            p.len() + enc_out(val_enc(v, ty)).len(),
        ),
    decreases v, 0nat,
{
    let t = p + enc_out(val_enc(v, ty)) + rest;
    let pv = v->Option_0;
    match pv {
        None => {
            lemma_byte_roundtrip(p, 0, rest);
        },
        Some(x) => {
            let et = *ty->Option_0;
            lemma_value_roundtrip(p + seq![1u8], *x, et, rest);
            let b = enc_out(val_enc(*x, et));
            assert(t =~= p + seq![1u8] + (b + rest));
            lemma_byte_roundtrip(p, 1, b + rest);
            assert(t =~= p + seq![1u8] + b + rest);
        },
    }
}

/// A result, encoded after `p`, reads back.
#[verifier::spinoff_prover]
proof fn lemma_result_roundtrip(p: Seq<u8>, v: ValView, ty: TyView, rest: Seq<u8>)
    requires
        well_typed(v, ty),
        v is Result,
    ensures
        val_enc(v, ty) is Ok,
        val_read(p + enc_out(val_enc(v, ty)) + rest, p.len(), ty) == Read::Done(
            v,
            p.len() + enc_out(val_enc(v, ty)).len(),
        ),
    decreases v, 0nat,
{
    let t = p + enc_out(val_enc(v, ty)) + rest;
    let r = v->Result_0;
    match r {
        Ok(None) => lemma_byte_roundtrip(p, 0, rest),
        Err(None) => lemma_byte_roundtrip(p, 1, rest),
        Ok(Some(x)) => {
            let et = *ty->Result_0->0;
            lemma_value_roundtrip(p + seq![0u8], *x, et, rest);
            let b = enc_out(val_enc(*x, et));
            assert(t =~= p + seq![0u8] + (b + rest));
            lemma_byte_roundtrip(p, 0, b + rest);
            assert(t =~= p + seq![0u8] + b + rest);
        },
        Err(Some(x)) => {
            let et = *ty->Result_1->0;
            lemma_value_roundtrip(p + seq![1u8], *x, et, rest);
            let b = enc_out(val_enc(*x, et));
            assert(t =~= p + seq![1u8] + (b + rest));
            lemma_byte_roundtrip(p, 1, b + rest);
            assert(t =~= p + seq![1u8] + b + rest);
        },
    }
}

/// A value of a type, encoded after any bytes and followed by any bytes,
/// reads back as itself, and reading it stops where its encoding ends.
#[verifier::spinoff_prover]
pub proof fn lemma_value_roundtrip(p: Seq<u8>, v: ValView, ty: TyView, rest: Seq<u8>)
    requires
        well_typed(v, ty),
    ensures
        val_enc(v, ty) is Ok,
        val_read(p + enc_out(val_enc(v, ty)) + rest, p.len(), ty) == Read::Done(
            v,
            p.len() + enc_out(val_enc(v, ty)).len(),
        ),
    decreases v, 1nat,
{
    let t = p + enc_out(val_enc(v, ty)) + rest;
    match v {
        ValView::List(vs) => {
            let et = *ty->List_0;
            let n = vs.len();
            lemma_list_roundtrip(p + uleb(n), vs, et, n, rest);
            let bb = enc_out(list_enc(vs, et, n));
            assert(t =~= p + uleb(n) + (bb + rest));
            lemma_u32_read_roundtrip(p, n as u32, bb + rest);
            assert(t =~= p + uleb(n) + bb + rest);
            assert(vs.take(n as int) =~= vs);
        },
        ValView::Record(fs) => {
            let tfs = ty->Record_0;
            lemma_rec_roundtrip(p, fs, tfs, fs.len(), rest);
            assert(fs.take(fs.len() as int) =~= fs);
        },
        ValView::Tuple(vs) => {
            let ts = ty->Tuple_0;
            lemma_tup_roundtrip(p, vs, ts, vs.len(), rest);
            assert(vs.take(vs.len() as int) =~= vs);
        },
        ValView::Variant(..) => lemma_variant_roundtrip(p, v, ty, rest),
        ValView::Option(..) => lemma_option_roundtrip(p, v, ty, rest),
        ValView::Result(..) => lemma_result_roundtrip(p, v, ty, rest),
        _ => lemma_scalar_roundtrip(p, v, ty, rest),
    }
}

/// What encoding writes is, when the encoding succeeds, exactly its bytes.
pub proof fn lemma_written_ok(v: ValView, ty: TyView)
    ensures
        val_enc(v, ty) is Ok ==> written(v, ty) == enc_out(val_enc(v, ty)),
    decreases v, 0nat,
{
    if val_enc(v, ty) is Ok {
        match v {
            ValView::List(vs) => {
                let et = *ty->List_0;
                lemma_list_written_ok(vs, et, vs.len());
            },
            ValView::Record(fs) => {
                let tfs = ty->Record_0;
                let n = if fs.len() <= tfs.len() {
                    fs.len()
                } else {
                    tfs.len()
                };
                lemma_rec_written_ok(fs, tfs, n);
            },
            ValView::Tuple(vs) => {
                let ts = ty->Tuple_0;
                let n = if vs.len() <= ts.len() {
                    vs.len()
                } else {
                    ts.len()
                };
                lemma_tup_written_ok(vs, ts, n);
            },
            ValView::Variant(name, p) => {
                if let Some(x) = p {
                    let cases = ty->Variant_0;
                    if let Some(i) = first_index(case_names(cases), name) {
                        if let Some(ct) = cases[i].1 {
                            lemma_written_ok(*x, ct);
                        }
                    }
                }
            },
            ValView::Option(p) => {
                if let Some(x) = p {
                    lemma_written_ok(*x, *ty->Option_0);
                }
            },
            ValView::Result(r) => {
                match r {
                    Ok(Some(x)) => {
                        if let Some(t) = ty->Result_0 {
                            lemma_written_ok(*x, *t);
                        }
                    },
                    Err(Some(x)) => {
                        if let Some(t) = ty->Result_1 {
                            lemma_written_ok(*x, *t);
                        }
                    },
                    _ => {},
                }
            },
            _ => {},
        }
    }
}

/// The list case of `lemma_written_ok`.
proof fn lemma_list_written_ok(vs: Seq<ValView>, et: TyView, n: nat)
    ensures
        list_enc(vs, et, n) is Ok ==> list_written(vs, et, n) == enc_out(list_enc(vs, et, n)),
    decreases vs, n,
{
    if n > 0 && n <= vs.len() {
        lemma_list_written_ok(vs, et, (n - 1) as nat);
        lemma_written_ok(vs[n - 1], et);
    }
}

/// The record case of `lemma_written_ok`.
proof fn lemma_rec_written_ok(fs: Seq<(Seq<char>, ValView)>, tfs: Seq<(Seq<char>, TyView)>, n: nat)
    ensures
        rec_enc(fs, tfs, n) is Ok ==> rec_written(fs, tfs, n) == enc_out(rec_enc(fs, tfs, n)),
    decreases fs, n,
{
    if n > 0 && n <= fs.len() && n <= tfs.len() {
        assert(decreases_to!(fs => fs[n - 1]));
        lemma_rec_written_ok(fs, tfs, (n - 1) as nat);
        lemma_written_ok(fs[n - 1].1, tfs[n - 1].1);
    }
}

/// The tuple case of `lemma_written_ok`.
proof fn lemma_tup_written_ok(vs: Seq<ValView>, ts: Seq<TyView>, n: nat)
    ensures
        tup_enc(vs, ts, n) is Ok ==> tup_written(vs, ts, n) == enc_out(tup_enc(vs, ts, n)),
    decreases vs, n,
{
    if n > 0 && n <= vs.len() && n <= ts.len() {
        lemma_tup_written_ok(vs, ts, (n - 1) as nat);
        lemma_written_ok(vs[n - 1], ts[n - 1]);
    }
}

} // verus!
