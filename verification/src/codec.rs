//! Encoding a component value of a type to bytes, and reading it back.

use vstd::prelude::*;
use vstd::utf8::{encode_utf8, encode_utf8_decode_utf8};

use crate::leb128::{
    lemma_uleb_read_bound, read_i16, read_i32, read_i64, read_u8, uleb, write_i16, write_i32,
    write_i64, write_u32, write_u64, Svarint, Varint,
};
use crate::value::{
    after, case_names, first_index, flag_byte, flag_count, flag_set, flags_bytes, is_first,
    lemma_list_view, lemma_record_ty_view, lemma_record_view, lemma_tuple_ty_view, lemma_variant_ty_view, lemma_tuple_view, list_enc, names_view, plain, push_enc,
    rec_enc, resource_enc, s8_byte, tup_enc, under, val_enc, written, list_written, rec_written,
    tup_written, Enc, Resource, ResourceKind, Ty,
    TyView, Val, ValView, list_read, rec_read, tup_read, val_read, resource_read, flags_of,
};
use crate::value_laws::lemma_written_ok;
use crate::wire::{
    decoded, lemma_le_value_bound, pow256, read_byte, read_char, read_flag, read_le, read_str,
    read_u16_at, read_u32_at, read_u64_at, str_fits, write_char, write_le, write_str, CodecError,
    Read,
};

verus! {

/// Whether two strings are equal.
pub fn str_eq(a: &str, b: &str) -> (r: bool)
    ensures
        r == (a@ == b@),
{
    let x = a.as_bytes();
    let y = b.as_bytes();
    proof {
        encode_utf8_decode_utf8(a@);
        encode_utf8_decode_utf8(b@);
    }
    if x.len() != y.len() {
        return false;
    }
    let mut i: usize = 0;
    while i < x.len()
        invariant
            i <= x.len() == y.len(),
            x@ == encode_utf8(a@),
            y@ == encode_utf8(b@),
            forall|j: int| 0 <= j < i ==> x@[j] == y@[j],
        decreases x.len() - i,
    {
        if x[i] != y[i] {
            return false;
        }
        i = i + 1;
    }
    assert(x@ =~= y@);
    true
}

/// Whether `x` is one of `set`.
pub fn contains_name(set: &Vec<String>, x: &str) -> (r: bool)
    ensures
        r == names_view(set@).contains(x@),
{
    let mut i: usize = 0;
    while i < set.len()
        invariant
            i <= set.len(),
            forall|j: int| 0 <= j < i ==> set@[j]@ != x@,
        decreases set.len() - i,
    {
        if str_eq(set[i].as_str(), x) {
            assert(names_view(set@)[i as int] == x@);
            return true;
        }
        i = i + 1;
    }
    assert(!names_view(set@).contains(x@)) by {
        if names_view(set@).contains(x@) {
            let j = choose|j: int| 0 <= j < names_view(set@).len() && names_view(set@)[j] == x@;
            assert(set@[j]@ == x@);
        }
    }
    false
}

/// The first position of `name` in `names`.
pub fn find_enum_discriminant(names: &Vec<String>, name: &str) -> (r: Option<usize>)
    ensures
        r == (match first_index(names_view(names@), name@) {
            Some(i) => Some(i as usize),
            None => None,
        }),
{
    let ghost ns = names_view(names@);
    let mut i: usize = 0;
    while i < names.len()
        invariant
            i <= names.len(),
            ns == names_view(names@),
            forall|j: int| 0 <= j < i ==> ns[j] != name@,
        decreases names.len() - i,
    {
        if str_eq(names[i].as_str(), name) {
            proof {
                assert(is_first(ns, name@, i as int));
                lemma_first_unique(ns, name@, i as int);
            }
            return Some(i);
        }
        i = i + 1;
    }
    proof {
        assert(!exists|j: int| is_first(ns, name@, j));
    }
    None
}

/// The names of the cases of a variant type.
pub open spec fn case_names_of(cases: Seq<(String, Option<Ty>)>) -> Seq<Seq<char>> {
    cases.map_values(|c: (String, Option<Ty>)| c.0@)
}

/// The first position of a case named `name` in `cases`.
pub fn find_variant_discriminant(cases: &Vec<(String, Option<Ty>)>, name: &str) -> (r: Option<usize>)
    ensures
        r == (match first_index(case_names_of(cases@), name@) {
            Some(i) => Some(i as usize),
            None => None,
        }),
{
    let ghost ns = case_names_of(cases@);
    let mut i: usize = 0;
    while i < cases.len()
        invariant
            i <= cases.len(),
            ns == case_names_of(cases@),
            ns.len() == cases.len(),
            forall|j: int| 0 <= j < i ==> ns[j] != name@,
        decreases cases.len() - i,
    {
        assert(ns[i as int] == cases@[i as int].0@);
        if str_eq(cases[i].0.as_str(), name) {
            proof {
                assert(is_first(ns, name@, i as int));
                lemma_first_unique(ns, name@, i as int);
            }
            return Some(i);
        }
        i = i + 1;
    }
    proof {
        assert(!exists|j: int| is_first(ns, name@, j));
    }
    None
}

/// The first position is the one `first_index` gives.
pub proof fn lemma_first_unique(names: Seq<Seq<char>>, x: Seq<char>, i: int)
    requires
        is_first(names, x, i),
    ensures
        first_index(names, x) == Some(i),
{
    let c = choose|j: int| is_first(names, x, j);
    assert(is_first(names, x, c));
    if c < i {
        assert(names[c] != x);
    } else if c > i {
        assert(names[i] != x);
    }
}

/// The bytes of a set of flags: bit `i`, counting from the least significant
/// bit of the first byte, is set when the name at position `i` is among
/// `flags`; one byte per eight names, and at least one.
pub fn flag_bits(names: &Vec<String>, flags: &Vec<String>) -> (r: Vec<u8>)
    ensures
        r@ == flags_bytes(names_view(names@), names_view(flags@)),
{
    let ghost ns = names_view(names@);
    let ghost fs = names_view(flags@);
    let n = names.len();
    let count: usize = if n <= 8 {
        1
    } else if n % 8 == 0 {
        n / 8
    } else {
        n / 8 + 1
    };
    assert(count == flag_count(n as nat));
    let mut out: Vec<u8> = Vec::new();
    let mut j: usize = 0;
    while j < count
        invariant
            j <= count,
            count == flag_count(n as nat),
            n == names.len(),
            ns == names_view(names@),
            fs == names_view(flags@),
            out@.len() == j,
            forall|jj: int| 0 <= jj < j ==> out@[jj] == flag_byte(ns, fs, jj, 8),
        decreases count - j,
    {
        assert(8 * j < n || j == 0) by (nonlinear_arith)
            requires
                j < count,
                n <= 8 ==> count == 1,
                n > 8 ==> count == (n + 7) / 8,
        ;
        let base: usize = 8 * j;
        let mut byte: u8 = 0;
        let mut b: usize = 0;
        while b < 8
            invariant
                b <= 8,
                base == 8 * j,
                base <= n,
                n == names.len(),
                ns == names_view(names@),
                fs == names_view(flags@),
                byte == flag_byte(ns, fs, j as int, b as nat),
            decreases 8 - b,
        {
            let set = if b < n - base {
                contains_name(flags, names[base + b].as_str())
            } else {
                false
            };
            assert(set == flag_set(ns, fs, 8 * j + b));
            if set {
                byte = byte | (1u8 << (b as u8));
            }
            b = b + 1;
        }
        out.push(byte);
        j = j + 1;
    }
    assert(out@ =~= flags_bytes(ns, fs));
    out
}

/// The views of a sequence of deferred paths.
pub open spec fn paths_view(p: Seq<Vec<usize>>) -> Seq<Seq<usize>> {
    p.map_values(|q: Vec<usize>| q@)
}

/// Appends the paths of `sub`, each under position `i`.
fn push_under(i: usize, sub: &Vec<Vec<usize>>, paths: &mut Vec<Vec<usize>>)
    ensures
        paths_view(final(paths)@) == paths_view(old(paths)@) + under(paths_view(sub@), i as int),
{
    let mut j: usize = 0;
    while j < sub.len()
        invariant
            j <= sub.len(),
            paths_view(paths@) == paths_view(old(paths)@) + under(paths_view(sub@), i as int).subrange(0, j as int),
        decreases sub.len() - j,
    {
        let q = &sub[j];
        let mut p: Vec<usize> = Vec::new();
        p.push(i);
        let mut x: usize = 0;
        while x < q.len()
            invariant
                x <= q.len(),
                p@ == seq![i] + q@.subrange(0, x as int),
            decreases q.len() - x,
        {
            p.push(q[x]);
            x = x + 1;
            assert(p@ =~= seq![i] + q@.subrange(0, x as int));
        }
        assert(q@.subrange(0, q@.len() as int) =~= q@);
        let ghost before = paths@;
        paths.push(p);
        assert(paths_view(paths@) =~= paths_view(before) + seq![p@]);
        assert(under(paths_view(sub@), i as int).subrange(0, j + 1) =~= under(paths_view(sub@), i as int).subrange(0, j as int) + seq![seq![i] + q@]);
        j = j + 1;
    }
    assert(under(paths_view(sub@), i as int).subrange(0, sub.len() as int) =~= under(paths_view(sub@), i as int));
}

/// Once the first elements of a list fail to encode, so does the list.
proof fn lemma_list_enc_err(vs: Seq<ValView>, et: TyView, n: nat, m: nat)
    requires
        list_enc(vs, et, n) is Err,
        n <= m <= vs.len(),
    ensures
        list_enc(vs, et, m) == list_enc(vs, et, n),
    decreases m - n,
{
    if n < m {
        lemma_list_enc_err(vs, et, n, (m - 1) as nat);
    }
}

/// Once the first fields of a record fail to encode, so does the record.
proof fn lemma_rec_enc_err(fs: Seq<(Seq<char>, ValView)>, tfs: Seq<(Seq<char>, TyView)>, n: nat, m: nat)
    requires
        rec_enc(fs, tfs, n) is Err,
        n <= m <= fs.len(),
        m <= tfs.len(),
    ensures
        rec_enc(fs, tfs, m) == rec_enc(fs, tfs, n),
    decreases m - n,
{
    if n < m {
        lemma_rec_enc_err(fs, tfs, n, (m - 1) as nat);
    }
}

/// Once the first elements of a tuple fail to encode, so does the tuple.
proof fn lemma_tup_enc_err(vs: Seq<ValView>, ts: Seq<TyView>, n: nat, m: nat)
    requires
        tup_enc(vs, ts, n) is Err,
        n <= m <= vs.len(),
        m <= ts.len(),
    ensures
        tup_enc(vs, ts, m) == tup_enc(vs, ts, n),
    decreases m - n,
{
    if n < m {
        lemma_tup_enc_err(vs, ts, n, (m - 1) as nat);
    }
}

/// Once an element of a list fails to encode, nothing after it is written.
proof fn lemma_list_written_stuck(vs: Seq<ValView>, et: TyView, n: nat, m: nat)
    requires
        list_enc(vs, et, n) is Err,
        n <= m <= vs.len(),
    ensures
        list_written(vs, et, m) == list_written(vs, et, n),
    decreases m - n,
{
    if n < m {
        lemma_list_written_stuck(vs, et, n, (m - 1) as nat);
        lemma_list_enc_err(vs, et, n, (m - 1) as nat);
    }
}

/// Once a field of a record fails to encode, nothing after it is written.
proof fn lemma_rec_written_stuck(fs: Seq<(Seq<char>, ValView)>, tfs: Seq<(Seq<char>, TyView)>, n: nat, m: nat)
    requires
        rec_enc(fs, tfs, n) is Err,
        n <= m <= fs.len(),
        m <= tfs.len(),
    ensures
        rec_written(fs, tfs, m) == rec_written(fs, tfs, n),
    decreases m - n,
{
    if n < m {
        lemma_rec_written_stuck(fs, tfs, n, (m - 1) as nat);
        lemma_rec_enc_err(fs, tfs, n, (m - 1) as nat);
    }
}

/// Once an element of a tuple fails to encode, nothing after it is written.
proof fn lemma_tup_written_stuck(vs: Seq<ValView>, ts: Seq<TyView>, n: nat, m: nat)
    requires
        tup_enc(vs, ts, n) is Err,
        n <= m <= vs.len(),
        m <= ts.len(),
    ensures
        tup_written(vs, ts, m) == tup_written(vs, ts, n),
    decreases m - n,
{
    if n < m {
        lemma_tup_written_stuck(vs, ts, n, (m - 1) as nat);
        lemma_tup_enc_err(vs, ts, n, (m - 1) as nat);
    }
}

/// Whether an encoding was appended: on success, `dst` and `paths` grew by
/// the encoding's bytes and paths.
pub open spec fn appended(r: Result<(), CodecError>, e: Enc, d0: Seq<u8>, d1: Seq<u8>, p0: Seq<Vec<usize>>, p1: Seq<Vec<usize>>) -> bool {
    match e {
        Ok((b, d)) => r is Ok && d1 == d0 + b && paths_view(p1) == paths_view(p0) + d,
        Err(x) => r == Err::<(), CodecError>(x),
    }
}

/// Encodes the elements of a list.
fn enc_list(vs: &Vec<Val>, et: &Ty, dst: &mut Vec<u8>, paths: &mut Vec<Vec<usize>>) -> (r: Result<(), CodecError>)
    ensures
        appended(
            r,
            list_enc(vs.deep_view(), et.deep_view(), vs.len() as nat),
            old(dst)@,
            final(dst)@,
            old(paths)@,
            final(paths)@,
        ),
        r is Err ==> final(dst)@ == old(dst)@ + list_written(vs.deep_view(), et.deep_view(), vs.len() as nat),
    decreases vs,
{
    let ghost vsv = vs.deep_view();
    let ghost etv = et.deep_view();
    let mut i: usize = 0;
    while i < vs.len()
        invariant
            i <= vs.len(),
            vsv == vs.deep_view(),
            etv == et.deep_view(),
            list_enc(vsv, etv, i as nat) matches Ok((b, d)) && dst@ == old(dst)@ + b && paths_view(paths@)
                == paths_view(old(paths)@) + d,
        decreases vs.len() - i,
    {
        let mut sub: Vec<Vec<usize>> = Vec::new();
        let ghost d_before = dst@;
        let ghost p_before = paths_view(paths@);
        let r = enc(&vs[i], et, dst, &mut sub);
        assert(vsv[i as int] == vs@[i as int].deep_view());
        if r.is_err() {
            proof {
                lemma_list_enc_err(vsv, etv, (i + 1) as nat, vs.len() as nat);
                lemma_list_written_stuck(vsv, etv, (i + 1) as nat, vs.len() as nat);
                if let Ok((b, _)) = list_enc(vsv, etv, i as nat) {
                    assert(dst@ =~= old(dst)@ + (b + written(vsv[i as int], etv)));
                }
            }
            return r;
        }
        push_under(i, &sub, paths);
        proof {
            assert(paths_view(sub@) =~= paths_view(Seq::<Vec<usize>>::empty()) + paths_view(sub@));
        }
        i = i + 1;
        proof {
            if let Ok((b, d)) = list_enc(vsv, etv, i as nat) {
                assert(dst@ =~= old(dst)@ + b);
                assert(paths_view(paths@) =~= paths_view(old(paths)@) + d);
            }
        }
    }
    Ok(())
}

/// Encodes the first `n` fields of a record, each as the type at its position.
fn enc_record(
    fs: &Vec<(String, Val)>,
    tfs: &Vec<(String, Ty)>,
    n: usize,
    Ghost(fsv): Ghost<Seq<(Seq<char>, ValView)>>,
    Ghost(tfsv): Ghost<Seq<(Seq<char>, TyView)>>,
    dst: &mut Vec<u8>,
    paths: &mut Vec<Vec<usize>>,
) -> (r: Result<(), CodecError>)
    requires
        n <= fs.len(),
        n <= tfs.len(),
        fsv.len() == fs.len(),
        tfsv.len() == tfs.len(),
        forall|i: int| 0 <= i < fs.len() ==> fsv[i].1 == (#[trigger] fs@[i]).1.deep_view(),
        forall|i: int| 0 <= i < tfs.len() ==> tfsv[i].1 == (#[trigger] tfs@[i]).1.deep_view(),
    ensures
        appended(r, rec_enc(fsv, tfsv, n as nat), old(dst)@, final(dst)@, old(paths)@, final(paths)@),
        r is Err ==> final(dst)@ == old(dst)@ + rec_written(fsv, tfsv, n as nat),
    decreases fs,
{
    let mut i: usize = 0;
    while i < n
        invariant
            i <= n <= fs.len(),
            n <= tfs.len(),
            fsv.len() == fs.len(),
            tfsv.len() == tfs.len(),
            forall|i: int| 0 <= i < fs.len() ==> fsv[i].1 == (#[trigger] fs@[i]).1.deep_view(),
            forall|i: int| 0 <= i < tfs.len() ==> tfsv[i].1 == (#[trigger] tfs@[i]).1.deep_view(),
            rec_enc(fsv, tfsv, i as nat) matches Ok((b, d)) && dst@ == old(dst)@ + b && paths_view(
                paths@,
            ) == paths_view(old(paths)@) + d,
        decreases n - i,
    {
        let mut sub: Vec<Vec<usize>> = Vec::new();
        assert(fsv[i as int].1 == fs@[i as int].1.deep_view());
        assert(tfsv[i as int].1 == tfs@[i as int].1.deep_view());
        let r = enc(&fs[i].1, &tfs[i].1, dst, &mut sub);
        if r.is_err() {
            proof {
                lemma_rec_enc_err(fsv, tfsv, (i + 1) as nat, n as nat);
                lemma_rec_written_stuck(fsv, tfsv, (i + 1) as nat, n as nat);
                if let Ok((b, _)) = rec_enc(fsv, tfsv, i as nat) {
                    assert(dst@ =~= old(dst)@ + (b + written(fsv[i as int].1, tfsv[i as int].1)));
                }
            }
            return r;
        }
        push_under(i, &sub, paths);
        proof {
            assert(paths_view(sub@) =~= paths_view(Seq::<Vec<usize>>::empty()) + paths_view(sub@));
        }
        i = i + 1;
        proof {
            if let Ok((b, d)) = rec_enc(fsv, tfsv, i as nat) {
                assert(dst@ =~= old(dst)@ + b);
                assert(paths_view(paths@) =~= paths_view(old(paths)@) + d);
            }
        }
    }
    Ok(())
}

/// Encodes the first `n` elements of a tuple, each as the type at its
/// position.
fn enc_tuple(vs: &Vec<Val>, ts: &Vec<Ty>, n: usize, dst: &mut Vec<u8>, paths: &mut Vec<Vec<usize>>) -> (r:
    Result<(), CodecError>)
    requires
        n <= vs.len(),
        n <= ts.len(),
    ensures
        appended(
            r,
            tup_enc(vs.deep_view(), ts.deep_view(), n as nat),
            old(dst)@,
            final(dst)@,
            old(paths)@,
            final(paths)@,
        ),
        r is Err ==> final(dst)@ == old(dst)@ + tup_written(vs.deep_view(), ts.deep_view(), n as nat),
    decreases vs,
{
    let ghost vsv = vs.deep_view();
    let ghost tsv = ts.deep_view();
    let mut i: usize = 0;
    while i < n
        invariant
            i <= n <= vs.len(),
            n <= ts.len(),
            vsv == vs.deep_view(),
            tsv == ts.deep_view(),
            tup_enc(vsv, tsv, i as nat) matches Ok((b, d)) && dst@ == old(dst)@ + b && paths_view(paths@)
                == paths_view(old(paths)@) + d,
        decreases n - i,
    {
        let mut sub: Vec<Vec<usize>> = Vec::new();
        let r = enc(&vs[i], &ts[i], dst, &mut sub);
        if r.is_err() {
            proof {
                lemma_tup_enc_err(vsv, tsv, (i + 1) as nat, n as nat);
                lemma_tup_written_stuck(vsv, tsv, (i + 1) as nat, n as nat);
                if let Ok((b, _)) = tup_enc(vsv, tsv, i as nat) {
                    assert(dst@ =~= old(dst)@ + (b + written(vsv[i as int], tsv[i as int])));
                }
            }
            return r;
        }
        push_under(i, &sub, paths);
        proof {
            assert(paths_view(sub@) =~= paths_view(Seq::<Vec<usize>>::empty()) + paths_view(sub@));
        }
        i = i + 1;
        proof {
            if let Ok((b, d)) = tup_enc(vsv, tsv, i as nat) {
                assert(dst@ =~= old(dst)@ + b);
                assert(paths_view(paths@) =~= paths_view(old(paths)@) + d);
            }
        }
    }
    Ok(())
}

/// Encodes a value that comes after `pre`, already written.
proof fn lemma_after(pre: Seq<u8>, e: Enc, r: Result<(), CodecError>, d0: Seq<u8>, d1: Seq<u8>, p0: Seq<Vec<usize>>, p1: Seq<Vec<usize>>)
    requires
        appended(r, e, d0 + pre, d1, p0, p1),
    ensures
        appended(r, after(pre, e), d0, d1, p0, p1),
{
    if let Ok((b, d)) = e {
        assert(d1 =~= d0 + (pre + b));
    }
}

/// Encodes `v` as `ty`, appending its bytes to `dst` and the paths of its
/// input streams to `paths`.
#[verifier::rlimit(80)]
fn enc(v: &Val, ty: &Ty, dst: &mut Vec<u8>, paths: &mut Vec<Vec<usize>>) -> (r: Result<(), CodecError>)
    ensures
        appended(r, val_enc(v.deep_view(), ty.deep_view()), old(dst)@, final(dst)@, old(paths)@, final(paths)@),
        r is Err ==> final(dst)@ == old(dst)@ + written(v.deep_view(), ty.deep_view()),
    decreases v,
{
    match v {
        Val::Bool(x) => match ty {
            Ty::Bool => {
                dst.push(if *x { 1u8 } else { 0u8 });
                assert(dst@ =~= old(dst)@ + seq![if *x { 1u8 } else { 0u8 }]);
                Ok(())
            },
            _ => Err(CodecError::TypeMismatch),
        },
        Val::S8(x) => match ty {
            Ty::S8 => {
                let b: u8 = if *x >= 0 { *x as u8 } else { (*x as i16 + 256) as u8 };
                dst.push(b);
                assert(dst@ =~= old(dst)@ + seq![s8_byte(*x)]);
                Ok(())
            },
            _ => Err(CodecError::TypeMismatch),
        },
        Val::U8(x) => match ty {
            Ty::U8 => {
                dst.push(*x);
                assert(dst@ =~= old(dst)@ + seq![*x]);
                Ok(())
            },
            _ => Err(CodecError::TypeMismatch),
        },
        Val::S16(x) => match ty {
            Ty::S16 => {
                write_i16(*x, dst);
                Ok(())
            },
            _ => Err(CodecError::TypeMismatch),
        },
        Val::U16(x) => match ty {
            Ty::U16 => {
                write_u32(*x as u32, dst);
                Ok(())
            },
            _ => Err(CodecError::TypeMismatch),
        },
        Val::S32(x) => match ty {
            Ty::S32 => {
                write_i32(*x, dst);
                Ok(())
            },
            _ => Err(CodecError::TypeMismatch),
        },
        Val::U32(x) => match ty {
            Ty::U32 => {
                write_u32(*x, dst);
                Ok(())
            },
            _ => Err(CodecError::TypeMismatch),
        },
        Val::S64(x) => match ty {
            Ty::S64 => {
                write_i64(*x, dst);
                Ok(())
            },
            _ => Err(CodecError::TypeMismatch),
        },
        Val::U64(x) => match ty {
            Ty::U64 => {
                write_u64(*x, dst);
                Ok(())
            },
            _ => Err(CodecError::TypeMismatch),
        },
        Val::Float32(x) => match ty {
            Ty::Float32 => {
                write_le(*x as u64, 4, dst);
                Ok(())
            },
            _ => Err(CodecError::TypeMismatch),
        },
        Val::Float64(x) => match ty {
            Ty::Float64 => {
                write_le(*x, 8, dst);
                Ok(())
            },
            _ => Err(CodecError::TypeMismatch),
        },
        Val::Char(c) => match ty {
            Ty::Char => {
                write_char(*c, dst);
                Ok(())
            },
            _ => Err(CodecError::TypeMismatch),
        },
        Val::String(s) => match ty {
            Ty::String => write_str(s.as_str(), dst),
            _ => Err(CodecError::TypeMismatch),
        },
        Val::List(vs) => match ty {
            Ty::List(et) => {
                proof {
                    lemma_list_view(*v);
                }
                if vs.len() > u32::MAX as usize {
                    return Err(CodecError::TooLong);
                }
                write_u32(vs.len() as u32, dst);
                let r = enc_list(vs, &**et, dst, paths);
                proof {
                    lemma_after(uleb(vs.len() as nat), list_enc(vs.deep_view(), et.deep_view(), vs.len() as nat), r, old(dst)@, dst@, old(paths)@, paths@);
                }
                r
            },
            _ => Err(CodecError::TypeMismatch),
        },
        Val::Record(fs) => match ty {
            Ty::Record(tfs) => {
                let n = if fs.len() <= tfs.len() { fs.len() } else { tfs.len() };
                let ghost fsv = v.deep_view()->Record_0;
                let ghost tfsv = ty.deep_view()->Record_0;
                proof {
                    lemma_record_view(*v);
                    lemma_record_ty_view(*ty);
                }
                enc_record(fs, tfs, n, Ghost(fsv), Ghost(tfsv), dst, paths)
            },
            _ => Err(CodecError::TypeMismatch),
        },
        Val::Tuple(vs) => match ty {
            Ty::Tuple(ts) => {
                proof {
                    lemma_tuple_view(*v);
                    lemma_tuple_ty_view(*ty);
                }
                let n = if vs.len() <= ts.len() { vs.len() } else { ts.len() };
                enc_tuple(vs, ts, n, dst, paths)
            },
            _ => Err(CodecError::TypeMismatch),
        },
        Val::Variant(name, p) => match ty {
            Ty::Variant(cases) => {
                if cases.len() > u32::MAX as usize {
                    return Err(CodecError::TooLong);
                }
                let ghost cv = ty.deep_view()->Variant_0;
                proof {
                    lemma_variant_ty_view(*ty);
                }
                assert(case_names(cv) =~= case_names_of(cases@));
                match find_variant_discriminant(cases, name.as_str()) {
                    None => Err(CodecError::UnknownName),
                    Some(i) => {
                        write_u32(i as u32, dst);
                        match p {
                            None => Ok(()),
                            Some(x) => match &cases[i].1 {
                                None => Err(CodecError::TypeMismatch),
                                Some(ct) => {
                                    assert(cv[i as int].1 == Some(ct.deep_view()));
                                    let r = enc(&**x, ct, dst, paths);
                                    proof {
                                        lemma_after(uleb(i as nat), val_enc(x.deep_view(), ct.deep_view()), r, old(dst)@, dst@, old(paths)@, paths@);
                                    }
                                    r
                                },
                            },
                        }
                    },
                }
            },
            _ => Err(CodecError::TypeMismatch),
        },
        Val::Enum(name) => match ty {
            Ty::Enum(names) => {
                if names.len() > u32::MAX as usize {
                    return Err(CodecError::TooLong);
                }
                match find_enum_discriminant(names, name.as_str()) {
                    None => Err(CodecError::UnknownName),
                    Some(i) => {
                        write_u32(i as u32, dst);
                        Ok(())
                    },
                }
            },
            _ => Err(CodecError::TypeMismatch),
        },
        Val::Option(p) => match ty {
            Ty::Option(t) => match p {
                None => {
                    dst.push(0);
                    assert(dst@ =~= old(dst)@ + seq![0u8]);
                    Ok(())
                },
                Some(x) => {
                    dst.push(1);
                    assert(dst@ =~= old(dst)@ + seq![1u8]);
                    let r = enc(&**x, &**t, dst, paths);
                    proof {
                        lemma_after(seq![1u8], val_enc(x.deep_view(), t.deep_view()), r, old(dst)@, dst@, old(paths)@, paths@);
                    }
                    r
                },
            },
            _ => Err(CodecError::TypeMismatch),
        },
        Val::Result(res) => match ty {
            Ty::Result(okt, errt) => match res {
                Ok(p) => match (p, okt) {
                    (Some(x), Some(t)) => {
                        dst.push(0);
                        assert(dst@ =~= old(dst)@ + seq![0u8]);
                        let r = enc(&**x, &**t, dst, paths);
                        proof {
                            lemma_after(seq![0u8], val_enc(x.deep_view(), t.deep_view()), r, old(dst)@, dst@, old(paths)@, paths@);
                        }
                        r
                    },
                    (None, None) => {
                        dst.push(0);
                        assert(dst@ =~= old(dst)@ + seq![0u8]);
                        Ok(())
                    },
                    _ => Err(CodecError::TypeMismatch),
                },
                Err(p) => match (p, errt) {
                    (Some(x), Some(t)) => {
                        dst.push(1);
                        assert(dst@ =~= old(dst)@ + seq![1u8]);
                        let r = enc(&**x, &**t, dst, paths);
                        proof {
                            lemma_after(seq![1u8], val_enc(x.deep_view(), t.deep_view()), r, old(dst)@, dst@, old(paths)@, paths@);
                        }
                        r
                    },
                    (None, None) => {
                        dst.push(1);
                        assert(dst@ =~= old(dst)@ + seq![1u8]);
                        Ok(())
                    },
                    _ => Err(CodecError::TypeMismatch),
                },
            },
            _ => Err(CodecError::TypeMismatch),
        },
        Val::Flags(set) => match ty {
            Ty::Flags(names) => {
                let mut b = flag_bits(names, set);
                dst.append(&mut b);
                Ok(())
            },
            _ => Err(CodecError::TypeMismatch),
        },
        Val::Resource(res) => {
            let k = match ty {
                Ty::Own(k) => *k,
                Ty::Borrow(k) => {
                    if let (Resource::InputStream, ResourceKind::InputStream) = (res, k) {
                        return Err(CodecError::Unsupported);
                    }
                    *k
                },
                _ => {
                    return Err(CodecError::TypeMismatch);
                },
            };
            match res {
                Resource::InputStream => match k {
                    ResourceKind::InputStream => {
                        let ghost p0 = paths@;
                        paths.push(Vec::new());
                        assert(paths_view(paths@) =~= paths_view(p0) + seq![Seq::<usize>::empty()]);
                        Ok(())
                    },
                    _ => Err(CodecError::TypeMismatch),
                },
                Resource::Handle(h) => match k {
                    ResourceKind::InputStream => Err(CodecError::TypeMismatch),
                    _ => {
                        if h.len() > u32::MAX as usize {
                            return Err(CodecError::TooLong);
                        }
                        write_u32(h.len() as u32, dst);
                        let mut c = vstd::slice::slice_to_vec(h.as_slice());
                        dst.append(&mut c);
                        assert(dst@ =~= old(dst)@ + (uleb(h@.len()) + h@));
                        Ok(())
                    },
                },
            }
        },
    }
}

/// The deferred paths an encoder holds, as sequences.
pub open spec fn deferred_view(d: Option<Vec<Vec<usize>>>) -> Option<Seq<Seq<usize>>> {
    match d {
        Some(p) => Some(paths_view(p@)),
        None => None,
    }
}

/// Encoder of component values of one type.
pub struct ValEncoder<'a> {
    /// The type of the values encoded.
    pub ty: &'a Ty,
    /// The paths, within the last value encoded that had any, of its input
    /// streams: their contents follow the value as deferred writes, each on
    /// the nested stream at its path.
    pub deferred: Option<Vec<Vec<usize>>>,
}

impl<'a> ValEncoder<'a> {
    /// An encoder of values of type `ty`, with nothing deferred.
    pub fn new(ty: &'a Ty) -> (r: ValEncoder<'a>)
        ensures
            r.ty == ty,
            r.deferred is None,
    {
        ValEncoder { ty, deferred: None }
    }

    /// An encoder of values of type `ty`, with nothing deferred.
    pub fn with_type<'b>(&self, ty: &'b Ty) -> (r: ValEncoder<'b>)
        ensures
            r.ty == ty,
            r.deferred is None,
    {
        ValEncoder { ty, deferred: None }
    }

    /// Appends the encoding of `v` to `dst`. When `v` has input streams,
    /// their paths become the deferred writes. When encoding fails, what was
    /// written before the failing part stays in `dst` (a list's length and
    /// its earlier elements, a variant's discriminant, an option's or
    /// result's tag) and nothing deferred changes.
    pub fn encode(&mut self, v: &Val, dst: &mut Vec<u8>) -> (r: Result<(), CodecError>)
        ensures
            final(self).ty == old(self).ty,
            final(dst)@ == old(dst)@ + written(v.deep_view(), old(self).ty.deep_view()),
            match val_enc(v.deep_view(), old(self).ty.deep_view()) {
                Ok((b, d)) => {
                    &&& r is Ok
                    &&& final(dst)@ == old(dst)@ + b
                    &&& deferred_view(final(self).deferred) == if d.len() > 0 {
                        Some(d)
                    } else {
                        deferred_view(old(self).deferred)
                    }
                },
                Err(e) => {
                    &&& r == Err::<(), CodecError>(e)
                    &&& deferred_view(final(self).deferred) == deferred_view(old(self).deferred)
                },
            },
    {
        let mut buf: Vec<u8> = Vec::new();
        let mut paths: Vec<Vec<usize>> = Vec::new();
        let r = enc(v, self.ty, &mut buf, &mut paths);
        proof {
            lemma_written_ok(v.deep_view(), self.ty.deep_view());
            assert(paths_view(Seq::<Vec<usize>>::empty()) =~= Seq::<Seq<usize>>::empty());
            if let Ok((b, d)) = val_enc(v.deep_view(), self.ty.deep_view()) {
                assert(buf@ =~= b);
                assert(paths_view(paths@) =~= d);
            }
        }
        dst.append(&mut buf);
        if r.is_ok() && paths.len() > 0 {
            self.deferred = Some(paths);
        }
        r
    }
}

/// Once the first elements of a list cannot be read, neither can the list.
proof fn lemma_list_read_stuck(t: Seq<u8>, k: nat, et: TyView, i: nat, n: nat)
    requires
        !(list_read(t, k, et, i) is Done),
        i <= n,
    ensures
        list_read(t, k, et, n) == list_read(t, k, et, i),
    decreases n - i,
{
    if i < n {
        lemma_list_read_stuck(t, k, et, i, (n - 1) as nat);
    }
}

/// Once the first fields of a record cannot be read, neither can the record.
proof fn lemma_rec_read_stuck(t: Seq<u8>, k: nat, tfs: Seq<(Seq<char>, TyView)>, i: nat, n: nat)
    requires
        !(rec_read(t, k, tfs, i) is Done),
        i <= n <= tfs.len(),
    ensures
        rec_read(t, k, tfs, n) == rec_read(t, k, tfs, i),
    decreases n - i,
{
    if i < n {
        lemma_rec_read_stuck(t, k, tfs, i, (n - 1) as nat);
    }
}

/// Once the first elements of a tuple cannot be read, neither can the tuple.
proof fn lemma_tup_read_stuck(t: Seq<u8>, k: nat, ts: Seq<TyView>, i: nat, n: nat)
    requires
        !(tup_read(t, k, ts, i) is Done),
        i <= n <= ts.len(),
    ensures
        tup_read(t, k, ts, n) == tup_read(t, k, ts, i),
    decreases n - i,
{
    if i < n {
        lemma_tup_read_stuck(t, k, ts, i, (n - 1) as nat);
    }
}

/// Reads `n` elements of type `et` at position `k` of `src`.
fn read_list(src: &[u8], k: usize, et: &Ty, n: u32) -> (r: Result<Option<(Vec<Val>, usize)>, CodecError>)
    ensures
        decoded(r) == list_read(src@, k as nat, et.deep_view(), n as nat),
    decreases et, 1nat,
{
    let ghost etv = et.deep_view();
    let mut vs: Vec<Val> = Vec::new();
    let mut pos = k;
    let mut i: u32 = 0;
    assert(vs.deep_view() =~= Seq::<ValView>::empty());
    while i < n
        invariant
            i <= n,
            etv == et.deep_view(),
            list_read(src@, k as nat, etv, i as nat) == Read::Done(vs.deep_view(), pos as nat),
        decreases n - i,
    {
        match read_value(src, pos, et) {
            Err(x) => {
                proof {
                    lemma_list_read_stuck(src@, k as nat, etv, (i + 1) as nat, n as nat);
                }
                return Err(x);
            },
            Ok(None) => {
                proof {
                    lemma_list_read_stuck(src@, k as nat, etv, (i + 1) as nat, n as nat);
                }
                return Ok(None);
            },
            Ok(Some((v, e))) => {
                let ghost before = vs.deep_view();
                vs.push(v);
                assert(vs.deep_view() =~= before.push(v.deep_view()));
                pos = e;
            },
        }
        i = i + 1;
    }
    Ok(Some((vs, pos)))
}

/// Reads the fields of a record whose field types are `tfs`.
fn read_record(src: &[u8], k: usize, tfs: &Vec<(String, Ty)>, Ghost(tfsv): Ghost<Seq<(Seq<char>, TyView)>>) -> (r: Result<
    Option<(Vec<(String, Val)>, usize)>,
    CodecError,
>)
    requires
        tfsv.len() == tfs.len(),
        forall|i: int|
            0 <= i < tfs.len() ==> tfsv[i] == ((#[trigger] tfs@[i]).0@, tfs@[i].1.deep_view()),
    ensures
        match r {
            Ok(None) => rec_read(src@, k as nat, tfsv, tfsv.len()) is Incomplete,
            Err(x) => rec_read(src@, k as nat, tfsv, tfsv.len()) == Read::<Seq<(Seq<char>, ValView)>>::Invalid(x),
            Ok(Some((fs, e))) => rec_read(src@, k as nat, tfsv, tfsv.len()) == Read::Done(
                fs@.map_values(|f: (String, Val)| (f.0@, f.1.deep_view())),
                e as nat,
            ),
        },
    decreases tfs, 1nat,
{
    let mut fs: Vec<(String, Val)> = Vec::new();
    let mut pos = k;
    let mut i: usize = 0;
    assert(fs@.map_values(|f: (String, Val)| (f.0@, f.1.deep_view())) =~= Seq::<(Seq<char>, ValView)>::empty());
    while i < tfs.len()
        invariant
            i <= tfs.len(),
            tfsv.len() == tfs.len(),
            forall|i: int|
                0 <= i < tfs.len() ==> tfsv[i] == ((#[trigger] tfs@[i]).0@, tfs@[i].1.deep_view()),
            rec_read(src@, k as nat, tfsv, i as nat) == Read::Done(
                fs@.map_values(|f: (String, Val)| (f.0@, f.1.deep_view())),
                pos as nat,
            ),
        decreases tfs.len() - i,
    {
        assert(tfsv[i as int] == (tfs@[i as int].0@, tfs@[i as int].1.deep_view()));
        assert(decreases_to!(tfs => tfs@[i as int].1));
        match read_value(src, pos, &tfs[i].1) {
            Err(x) => {
                proof {
                    lemma_rec_read_stuck(src@, k as nat, tfsv, (i + 1) as nat, tfs.len() as nat);
                }
                return Err(x);
            },
            Ok(None) => {
                proof {
                    lemma_rec_read_stuck(src@, k as nat, tfsv, (i + 1) as nat, tfs.len() as nat);
                }
                return Ok(None);
            },
            Ok(Some((v, e))) => {
                let ghost before = fs@.map_values(|f: (String, Val)| (f.0@, f.1.deep_view()));
                let name = tfs[i].0.clone();
                fs.push((name, v));
                assert(fs@.map_values(|f: (String, Val)| (f.0@, f.1.deep_view())) =~= before.push(
                    (tfsv[i as int].0, v.deep_view()),
                ));
                pos = e;
            },
        }
        i = i + 1;
    }
    Ok(Some((fs, pos)))
}

/// Reads the elements of a tuple whose element types are `ts`.
fn read_tuple(src: &[u8], k: usize, ts: &Vec<Ty>) -> (r: Result<Option<(Vec<Val>, usize)>, CodecError>)
    ensures
        decoded(r) == tup_read(src@, k as nat, ts.deep_view(), ts.len() as nat),
    decreases ts, 1nat,
{
    let ghost tsv = ts.deep_view();
    let mut vs: Vec<Val> = Vec::new();
    let mut pos = k;
    let mut i: usize = 0;
    assert(vs.deep_view() =~= Seq::<ValView>::empty());
    while i < ts.len()
        invariant
            i <= ts.len(),
            tsv == ts.deep_view(),
            tup_read(src@, k as nat, tsv, i as nat) == Read::Done(vs.deep_view(), pos as nat),
        decreases ts.len() - i,
    {
        assert(decreases_to!(ts => ts@[i as int]));
        match read_value(src, pos, &ts[i]) {
            Err(x) => {
                proof {
                    lemma_tup_read_stuck(src@, k as nat, tsv, (i + 1) as nat, ts.len() as nat);
                }
                return Err(x);
            },
            Ok(None) => {
                proof {
                    lemma_tup_read_stuck(src@, k as nat, tsv, (i + 1) as nat, ts.len() as nat);
                }
                return Ok(None);
            },
            Ok(Some((v, e))) => {
                let ghost before = vs.deep_view();
                vs.push(v);
                assert(vs.deep_view() =~= before.push(v.deep_view()));
                pos = e;
            },
        }
        i = i + 1;
    }
    Ok(Some((vs, pos)))
}

/// `base` followed by each of the paths `d`.
pub open spec fn paths_under(base: Seq<usize>, d: Seq<Seq<usize>>) -> Seq<Seq<usize>> {
    d.map_values(|q: Seq<usize>| base + q)
}

/// The paths at which the input streams of `v`, a value of type `ty` read at
/// `base`, are read from their nested streams: `base` followed by the
/// position of each stream within `v` (an index into a list, record or
/// tuple at each level; a payload takes its container's position), in the
/// order the value holds them, as they were written. `None` when `v` is not
/// a value of `ty` that can be written.
pub fn input_stream_paths(base: &[usize], v: &Val, ty: &Ty) -> (r: Option<Vec<Vec<usize>>>)
    ensures
        match val_enc(v.deep_view(), ty.deep_view()) {
            Ok((_, d)) => r matches Some(ps) && paths_view(ps@) == paths_under(base@, d),
            Err(_) => r is None,
        },
{
    let mut buf: Vec<u8> = Vec::new();
    let mut ps: Vec<Vec<usize>> = Vec::new();
    let res = enc(v, ty, &mut buf, &mut ps);
    proof {
        assert(paths_view(Seq::<Vec<usize>>::empty()) =~= Seq::<Seq<usize>>::empty());
    }
    if res.is_err() {
        return None;
    }
    let ghost d = paths_view(ps@);
    let mut out: Vec<Vec<usize>> = Vec::new();
    let mut i: usize = 0;
    while i < ps.len()
        invariant
            i <= ps.len(),
            d == paths_view(ps@),
            paths_view(out@) == paths_under(base@, d.take(i as int)),
        decreases ps.len() - i,
    {
        let mut p = vstd::slice::slice_to_vec(base);
        let q = &ps[i];
        let mut x: usize = 0;
        while x < q.len()
            invariant
                x <= q.len(),
                p@ == base@ + q@.take(x as int),
            decreases q.len() - x,
        {
            p.push(q[x]);
            x = x + 1;
            assert(p@ =~= base@ + q@.take(x as int));
        }
        assert(q@.take(q.len() as int) =~= q@);
        let ghost before = out@;
        out.push(p);
        assert(paths_view(out@) =~= paths_view(before) + seq![p@]);
        assert(d.take(i + 1) =~= d.take(i as int).push(q@));
        assert(paths_under(base@, d.take(i + 1)) =~= paths_under(base@, d.take(i as int)) + seq![base@ + q@]);
        i = i + 1;
    }
    assert(d.take(ps.len() as int) =~= d);
    Some(out)
}

/// Reads a value of type `ty` at position `k` of `src`.
#[verifier::rlimit(80)]
pub fn read_value(src: &[u8], k: usize, ty: &Ty) -> (r: Result<Option<(Val, usize)>, CodecError>)
    ensures
        decoded(r) == val_read(src@, k as nat, ty.deep_view()),
    decreases ty, 0nat,
{
    match ty {
        Ty::Bool => match read_flag(src, k) {
            Err(x) => Err(x),
            Ok(None) => Ok(None),
            Ok(Some((b, e))) => Ok(Some((Val::Bool(b), e))),
        },
        Ty::S8 => match read_byte(src, k) {
            Err(x) => Err(x),
            Ok(None) => Ok(None),
            Ok(Some((b, e))) => {
                let x: i8 = if b < 128 { b as i8 } else { (b as i16 - 256) as i8 };
                Ok(Some((Val::S8(x), e)))
            },
        },
        Ty::U8 => match read_byte(src, k) {
            Err(x) => Err(x),
            Ok(None) => Ok(None),
            Ok(Some((b, e))) => Ok(Some((Val::U8(b), e))),
        },
        Ty::S16 => match read_i16(src, k) {
            Svarint::Incomplete => Ok(None),
            Svarint::Overflow => Err(CodecError::Overflow),
            Svarint::Value { value, end } => Ok(Some((Val::S16(value as i16), end))),
        },
        Ty::U16 => match read_u16_at(src, k) {
            Err(x) => Err(x),
            Ok(None) => Ok(None),
            Ok(Some((v, e))) => Ok(Some((Val::U16(v), e))),
        },
        Ty::S32 => match read_i32(src, k) {
            Svarint::Incomplete => Ok(None),
            Svarint::Overflow => Err(CodecError::Overflow),
            Svarint::Value { value, end } => Ok(Some((Val::S32(value as i32), end))),
        },
        Ty::U32 => match read_u32_at(src, k) {
            Err(x) => Err(x),
            Ok(None) => Ok(None),
            Ok(Some((v, e))) => Ok(Some((Val::U32(v), e))),
        },
        Ty::S64 => match read_i64(src, k) {
            Svarint::Incomplete => Ok(None),
            Svarint::Overflow => Err(CodecError::Overflow),
            Svarint::Value { value, end } => Ok(Some((Val::S64(value), end))),
        },
        Ty::U64 => match read_u64_at(src, k) {
            Err(x) => Err(x),
            Ok(None) => Ok(None),
            Ok(Some((v, e))) => Ok(Some((Val::U64(v), e))),
        },
        Ty::Float32 => match read_le(src, k, 4) {
            None => Ok(None),
            Some((v, e)) => {
                proof {
                    lemma_le_value_bound(src@.subrange(k as int, k + 4));
                    assert(pow256(0) == 1);
                    assert(pow256(1) == 256);
                    assert(pow256(2) == 0x1_0000);
                    assert(pow256(3) == 0x100_0000);
                    assert(pow256(4) == 0x1_0000_0000);
                }
                Ok(Some((Val::Float32(v as u32), e)))
            },
        },
        Ty::Float64 => match read_le(src, k, 8) {
            None => Ok(None),
            Some((v, e)) => Ok(Some((Val::Float64(v), e))),
        },
        Ty::Char => match read_char(src, k) {
            Err(x) => Err(x),
            Ok(None) => Ok(None),
            Ok(Some((c, e))) => Ok(Some((Val::Char(c), e))),
        },
        Ty::String => match read_str(src, k) {
            Err(x) => Err(x),
            Ok(None) => Ok(None),
            Ok(Some((s, e))) => Ok(Some((Val::String(s), e))),
        },
        Ty::List(et) => match read_u32_at(src, k) {
            Err(x) => Err(x),
            Ok(None) => Ok(None),
            Ok(Some((n, e))) => match read_list(src, e, &**et, n) {
                Err(x) => Err(x),
                Ok(None) => Ok(None),
                Ok(Some((vs, e2))) => {
                    proof {
                        lemma_list_view(Val::List(vs));
                    }
                    Ok(Some((Val::List(vs), e2)))
                },
            },
        },
        Ty::Record(tfs) => {
            proof {
                lemma_record_ty_view(*ty);
            }
            let ghost tfsv = ty.deep_view()->Record_0;
            match read_record(src, k, tfs, Ghost(tfsv)) {
                Err(x) => Err(x),
                Ok(None) => Ok(None),
                Ok(Some((fs, e))) => {
                    let v = Val::Record(fs);
                    proof {
                        lemma_record_view(v);
                        assert(v.deep_view()->Record_0 =~= fs@.map_values(
                            |f: (String, Val)| (f.0@, f.1.deep_view()),
                        ));
                    }
                    Ok(Some((v, e)))
                },
            }
        },
        Ty::Tuple(ts) => {
            proof {
                lemma_tuple_ty_view(*ty);
            }
            match read_tuple(src, k, ts) {
                Err(x) => Err(x),
                Ok(None) => Ok(None),
                Ok(Some((vs, e))) => {
                    proof {
                        lemma_tuple_view(Val::Tuple(vs));
                    }
                    Ok(Some((Val::Tuple(vs), e)))
                },
            }
        },
        Ty::Variant(cases) => {
            proof {
                lemma_variant_ty_view(*ty);
            }
            match read_u32_at(src, k) {
                Err(x) => Err(x),
                Ok(None) => Ok(None),
                Ok(Some((d, e))) => {
                    if d as usize >= cases.len() {
                        return Err(CodecError::UnknownDiscriminant(d));
                    }
                    let name = cases[d as usize].0.clone();
                    match &cases[d as usize].1 {
                        None => Ok(Some((Val::Variant(name, None), e))),
                        Some(ct) => {
                            assert(decreases_to!(cases => cases@[d as int].1));
                            match read_value(src, e, ct) {
                                Err(x) => Err(x),
                                Ok(None) => Ok(None),
                                Ok(Some((x, e2))) => Ok(Some((Val::Variant(name, Some(Box::new(x))), e2))),
                            }
                        },
                    }
                },
            }
        },
        Ty::Enum(names) => match read_u32_at(src, k) {
            Err(x) => Err(x),
            Ok(None) => Ok(None),
            Ok(Some((d, e))) => {
                if d as usize >= names.len() {
                    return Err(CodecError::UnknownDiscriminant(d));
                }
                Ok(Some((Val::Enum(names[d as usize].clone()), e)))
            },
        },
        Ty::Option(t) => match read_flag(src, k) {
            Err(x) => Err(x),
            Ok(None) => Ok(None),
            Ok(Some((false, e))) => Ok(Some((Val::Option(None), e))),
            Ok(Some((true, e))) => match read_value(src, e, &**t) {
                Err(x) => Err(x),
                Ok(None) => Ok(None),
                Ok(Some((x, e2))) => Ok(Some((Val::Option(Some(Box::new(x))), e2))),
            },
        },
        Ty::Result(okt, errt) => match read_byte(src, k) {
            Err(x) => Err(x),
            Ok(None) => Ok(None),
            Ok(Some((b, e))) => {
                if b == 0 {
                    match okt {
                        None => Ok(Some((Val::Result(Ok(None)), e))),
                        Some(t) => match read_value(src, e, &**t) {
                            Err(x) => Err(x),
                            Ok(None) => Ok(None),
                            Ok(Some((x, e2))) => Ok(Some((Val::Result(Ok(Some(Box::new(x)))), e2))),
                        },
                    }
                } else if b == 1 {
                    match errt {
                        None => Ok(Some((Val::Result(Err(None)), e))),
                        Some(t) => match read_value(src, e, &**t) {
                            Err(x) => Err(x),
                            Ok(None) => Ok(None),
                            Ok(Some((x, e2))) => Ok(Some((Val::Result(Err(Some(Box::new(x)))), e2))),
                        },
                    }
                } else {
                    Err(CodecError::InvalidByte(b))
                }
            },
        },
        Ty::Flags(names) => read_flags(src, k, names),
        Ty::Own(kind) => read_resource(src, k, *kind),
        Ty::Borrow(kind) => read_resource(src, k, *kind),
    }
}

/// Reads the flags of a type whose names are `names`.
fn read_flags(src: &[u8], k: usize, names: &Vec<String>) -> (r: Result<Option<(Val, usize)>, CodecError>)
    ensures
        decoded(r) == val_read(src@, k as nat, TyView::Flags(names_view(names@))),
{
    let n = names.len();
    let count: usize = if n <= 8 {
        1
    } else if n % 8 == 0 {
        n / 8
    } else {
        n / 8 + 1
    };
    assert(count == flag_count(n as nat));
    if k > src.len() || count > src.len() - k {
        return Ok(None);
    }
    let ghost bytes = src@.subrange(k as int, (k + count) as int);
    let ghost ns = names_view(names@);
    let mut set: Vec<String> = Vec::new();
    let mut i: usize = 0;
    while i < n
        invariant
            i <= n == names.len(),
            count == flag_count(n as nat),
            k + count <= src.len(),
            bytes == src@.subrange(k as int, (k + count) as int),
            ns == names_view(names@),
            names_view(set@) == flags_of(ns, bytes, i as nat),
        decreases n - i,
    {
        assert(i / 8 < count) by (nonlinear_arith)
            requires
                i < n,
                n <= 8 ==> count == 1,
                n > 8 ==> count == (n + 7) / 8,
        ;
        let b = src[k + i / 8];
        assert(b == bytes[(i / 8) as int]);
        let ghost before = set@;
        if (b >> ((i % 8) as u8)) & 1 == 1 {
            set.push(names[i].clone());
            assert(names_view(set@) =~= names_view(before).push(ns[i as int]));
        }
        i = i + 1;
    }
    Ok(Some((Val::Flags(set), k + count)))
}

/// Reads a resource of kind `kind`.
fn read_resource(src: &[u8], k: usize, kind: ResourceKind) -> (r: Result<Option<(Val, usize)>, CodecError>)
    ensures
        decoded(r) == resource_read(src@, k as nat, kind),
{
    match kind {
        ResourceKind::InputStream => Ok(Some((Val::Resource(Resource::InputStream), k))),
        ResourceKind::Guest => match read_u8(src, k) {
            Varint::Incomplete => Ok(None),
            Varint::Overflow => Err(CodecError::Overflow),
            Varint::Value { value, end } => {
                proof {
                    lemma_uleb_read_bound(src@, k as nat, 0, 2, 1);
                }
                if value != 16 {
                    return Err(CodecError::InvalidHandle);
                }
                if 16 > src.len() - end {
                    return Ok(None);
                }
                let h = vstd::slice::slice_to_vec(vstd::slice::slice_subrange(src, end, end + 16));
                Ok(Some((Val::Resource(Resource::Handle(h)), end + 16)))
            },
        },
        ResourceKind::Remote => match read_u32_at(src, k) {
            Err(x) => Err(x),
            Ok(None) => Ok(None),
            Ok(Some((_, e))) => {
                proof {
                    lemma_uleb_read_bound(src@, k as nat, 0, 5, 15);
                }
                let h = vstd::slice::slice_to_vec(vstd::slice::slice_subrange(src, e, src.len()));
                Ok(Some((Val::Resource(Resource::Handle(h)), src.len())))
            },
        },
    }
}

} // verus!
