//! HTTP header and trailer fields as they travel: a list of names, each
//! with a list of values that are byte strings.

use vstd::prelude::*;

use crate::leb128::{
    lemma_u32_roundtrip, lemma_uleb_read_bound, read_u32, read_u32_spec, uleb, write_u32,
    UlebRead, Varint,
};
use crate::wire::{
    decoded, lemma_str_roundtrip, lemma_u32_read_roundtrip, read_str, read_u32_at, str_bytes,
    str_fits, str_read, u32_read, write_str, CodecError, Read,
};

verus! {

/// A field as it stands for itself: its name and its values.
pub type FieldView = (Seq<char>, Seq<Seq<u8>>);

/// Encoding of a byte string: its length, then its bytes.
pub open spec fn blob_bytes(b: Seq<u8>) -> Seq<u8> {
    uleb(b.len()) + b
}

/// Encoding of the values of a field, one after the other.
pub open spec fn values_bytes(vs: Seq<Seq<u8>>) -> Seq<u8>
    decreases vs.len(),
{
    if vs.len() == 0 {
        seq![]
    } else {
        values_bytes(vs.drop_last()) + blob_bytes(vs.last())
    }
}

/// Encoding of a field: its name, the number of its values, and the values.
pub open spec fn field_bytes(f: FieldView) -> Seq<u8> {
    str_bytes(f.0) + uleb(f.1.len()) + values_bytes(f.1)
}

/// Encoding of the fields, one after the other.
pub open spec fn field_list_bytes(fs: Seq<FieldView>) -> Seq<u8>
    decreases fs.len(),
{
    if fs.len() == 0 {
        seq![]
    } else {
        field_list_bytes(fs.drop_last()) + field_bytes(fs.last())
    }
}

/// Encoding of a list of fields: their number, then the fields.
pub open spec fn fields_bytes(fs: Seq<FieldView>) -> Seq<u8> {
    uleb(fs.len()) + field_list_bytes(fs)
}

/// Whether every length in a field fits in a `u32`.
pub open spec fn field_fits(f: FieldView) -> bool {
    &&& str_fits(f.0)
    &&& f.1.len() <= u32::MAX
    &&& forall|j: int| 0 <= j < f.1.len() ==> (#[trigger] f.1[j]).len() <= u32::MAX
}

/// Whether every length in a list of fields fits in a `u32`.
pub open spec fn fields_fit(fs: Seq<FieldView>) -> bool {
    &&& fs.len() <= u32::MAX
    &&& forall|i: int| 0 <= i < fs.len() ==> field_fits(#[trigger] fs[i])
}

/// Reading a byte string.
pub open spec fn blob_read(t: Seq<u8>, k: nat) -> Read<Seq<u8>> {
    match read_u32_spec(t, k) {
        UlebRead::Incomplete => Read::Incomplete,
        UlebRead::Overflow => Read::Invalid(CodecError::Overflow),
        UlebRead::Done(n, e) => if e + n > t.len() {
            Read::Incomplete
        } else {
            Read::Done(t.subrange(e as int, (e + n) as int), e + n)
        },
    }
}

/// Reading `n` values.
pub open spec fn values_read(t: Seq<u8>, k: nat, n: nat) -> Read<Seq<Seq<u8>>>
    decreases n,
{
    if n == 0 {
        Read::Done(seq![], k)
    } else {
        match values_read(t, k, (n - 1) as nat) {
            Read::Done(vs, e) => match blob_read(t, e) {
                Read::Done(b, e2) => Read::Done(vs.push(b), e2),
                Read::Incomplete => Read::Incomplete,
                Read::Invalid(x) => Read::Invalid(x),
            },
            Read::Incomplete => Read::Incomplete,
            Read::Invalid(x) => Read::Invalid(x),
        }
    }
}

/// Reading a field.
#[verifier::opaque]
pub open spec fn field_read(t: Seq<u8>, k: nat) -> Read<FieldView> {
    match str_read(t, k) {
        Read::Done(name, e) => match u32_read(t, e) {
            Read::Done(n, e2) => match values_read(t, e2, n as nat) {
                Read::Done(vs, e3) => Read::Done((name, vs), e3),
                Read::Incomplete => Read::Incomplete,
                Read::Invalid(x) => Read::Invalid(x),
            },
            Read::Incomplete => Read::Incomplete,
            Read::Invalid(x) => Read::Invalid(x),
        },
        Read::Incomplete => Read::Incomplete,
        Read::Invalid(x) => Read::Invalid(x),
    }
}

/// Reading `n` fields.
pub open spec fn field_list_read(t: Seq<u8>, k: nat, n: nat) -> Read<Seq<FieldView>>
    decreases n,
{
    if n == 0 {
        Read::Done(seq![], k)
    } else {
        match field_list_read(t, k, (n - 1) as nat) {
            Read::Done(fs, e) => match field_read(t, e) {
                Read::Done(f, e2) => Read::Done(fs.push(f), e2),
                Read::Incomplete => Read::Incomplete,
                Read::Invalid(x) => Read::Invalid(x),
            },
            Read::Incomplete => Read::Incomplete,
            Read::Invalid(x) => Read::Invalid(x),
        }
    }
}

/// Reading a list of fields.
pub open spec fn fields_read(t: Seq<u8>, k: nat) -> Read<Seq<FieldView>> {
    match u32_read(t, k) {
        Read::Done(n, e) => field_list_read(t, e, n as nat),
        Read::Incomplete => Read::Incomplete,
        Read::Invalid(x) => Read::Invalid(x),
    }
}

/// Appends a byte string, whose length fits in a `u32`.
fn write_blob(b: &Vec<u8>, dst: &mut Vec<u8>)
    requires
        b@.len() <= u32::MAX,
    ensures
        final(dst)@ == old(dst)@ + blob_bytes(b@),
{
    write_u32(b.len() as u32, dst);
    let mut i: usize = 0;
    let ghost d = dst@;
    while i < b.len()
        invariant
            i <= b@.len(),
            dst@ == d + b@.subrange(0, i as int),
        decreases b@.len() - i,
    {
        dst.push(b[i]);
        i = i + 1;
        assert(dst@ =~= d + b@.subrange(0, i as int));
    }
    assert(b@.subrange(0, b@.len() as int) =~= b@);
}

/// Appends a field, or says which length does not fit.
fn write_field(f: &(String, Vec<Vec<u8>>), dst: &mut Vec<u8>) -> (r: Result<(), CodecError>)
    ensures
        r is Ok <==> field_fits(f.deep_view()),
        r is Ok ==> final(dst)@ == old(dst)@ + field_bytes(f.deep_view()),
        r is Err ==> r == Err::<(), CodecError>(CodecError::TooLong),
{
    let ghost fv = f.deep_view();
    let name = f.0.as_str();
    assert(name@ == fv.0);
    if write_str(name, dst).is_err() {
        return Err(CodecError::TooLong);
    }
    let vs = &f.1;
    assert(vs.deep_view() == fv.1);
    if vs.len() > u32::MAX as usize {
        return Err(CodecError::TooLong);
    }
    write_u32(vs.len() as u32, dst);
    let ghost d = dst@;
    let mut i: usize = 0;
    while i < vs.len()
        invariant
            i <= vs@.len(),
            fv == f.deep_view(),
            vs == f.1,
            vs.deep_view() == fv.1,
            fv.1.len() == vs@.len(),
            dst@ == d + values_bytes(fv.1.subrange(0, i as int)),
            forall|j: int| 0 <= j < i ==> (#[trigger] fv.1[j]).len() <= u32::MAX,
        decreases vs@.len() - i,
    {
        if vs[i].len() > u32::MAX as usize {
            assert(fv.1[i as int] == vs@[i as int].deep_view());
            assert(vs@[i as int].deep_view().len() == vs@[i as int]@.len());
            assert(fv.1[i as int].len() > u32::MAX);
            return Err(CodecError::TooLong);
        }
        let ghost before = dst@;
        write_blob(&vs[i], dst);
        proof {
            let s = fv.1.subrange(0, i + 1);
            assert(s.drop_last() =~= fv.1.subrange(0, i as int));
            assert(s.last() == vs@[i as int]@);
        }
        i = i + 1;
        assert(dst@ =~= d + values_bytes(fv.1.subrange(0, i as int)));
    }
    assert(fv.1.subrange(0, fv.1.len() as int) =~= fv.1);
    assert(dst@ =~= old(dst)@ + field_bytes(fv));
    Ok(())
}

/// Appends a list of fields. When a name, a value or a list is too long to
/// be written, nothing is appended.
pub fn write_fields(fields: &Vec<(String, Vec<Vec<u8>>)>, dst: &mut Vec<u8>) -> (r: Result<(), CodecError>)
    ensures
        r is Ok <==> fields_fit(fields.deep_view()),
        r is Ok ==> final(dst)@ == old(dst)@ + fields_bytes(fields.deep_view()),
        r is Err ==> r == Err::<(), CodecError>(CodecError::TooLong) && final(dst)@ == old(dst)@,
{
    let ghost fs = fields.deep_view();
    if fields.len() > u32::MAX as usize {
        return Err(CodecError::TooLong);
    }
    let mut b: Vec<u8> = Vec::new();
    write_u32(fields.len() as u32, &mut b);
    let ghost d = b@;
    let mut i: usize = 0;
    while i < fields.len()
        invariant
            i <= fields@.len(),
            fields.deep_view() == fs,
            fs.len() == fields@.len(),
            d == uleb(fs.len()),
            b@ == d + field_list_bytes(fs.subrange(0, i as int)),
            forall|j: int| 0 <= j < i ==> field_fits(#[trigger] fs[j]),
        decreases fields@.len() - i,
    {
        match write_field(&fields[i], &mut b) {
            Err(e) => {
                assert(fields@[i as int].deep_view() == fs[i as int]);
                assert(!field_fits(fs[i as int]));
                return Err(e);
            },
            Ok(()) => {},
        }
        proof {
            let s = fs.subrange(0, i + 1);
            assert(s.drop_last() =~= fs.subrange(0, i as int));
            assert(s.last() == fields@[i as int].deep_view());
        }
        i = i + 1;
        assert(b@ =~= d + field_list_bytes(fs.subrange(0, i as int)));
    }
    assert(fs.subrange(0, fs.len() as int) =~= fs);
    dst.append(&mut b);
    Ok(())
}

/// Once the first values cannot be read, neither can more of them.
proof fn lemma_values_read_stuck(t: Seq<u8>, k: nat, i: nat, n: nat)
    requires
        !(values_read(t, k, i) is Done),
        i <= n,
    ensures
        values_read(t, k, n) == values_read(t, k, i),
    decreases n - i,
{
    if i < n {
        lemma_values_read_stuck(t, k, i, (n - 1) as nat);
    }
}

/// Once the first fields cannot be read, neither can more of them.
proof fn lemma_field_list_read_stuck(t: Seq<u8>, k: nat, i: nat, n: nat)
    requires
        !(field_list_read(t, k, i) is Done),
        i <= n,
    ensures
        field_list_read(t, k, n) == field_list_read(t, k, i),
    decreases n - i,
{
    if i < n {
        lemma_field_list_read_stuck(t, k, i, (n - 1) as nat);
    }
}

/// Reads a byte string.
fn read_blob(src: &[u8], k: usize) -> (r: Result<Option<(Vec<u8>, usize)>, CodecError>)
    ensures
        decoded(r) == blob_read(src@, k as nat),
{
    match read_u32(src, k) {
        Varint::Incomplete => Ok(None),
        Varint::Overflow => Err(CodecError::Overflow),
        Varint::Value { value, end } => {
            proof {
                lemma_uleb_read_bound(src@, k as nat, 0, 5, 15);
            }
            if value > (src.len() - end) as u64 {
                return Ok(None);
            }
            let n = value as usize;
            let bytes = vstd::slice::slice_subrange(src, end, end + n);
            let v = vstd::slice::slice_to_vec(bytes);
            assert(v.deep_view() =~= v@);
            Ok(Some((v, end + n)))
        },
    }
}

/// Reads `n` values.
fn read_values(src: &[u8], k: usize, n: u32) -> (r: Result<Option<(Vec<Vec<u8>>, usize)>, CodecError>)
    ensures
        decoded(r) == values_read(src@, k as nat, n as nat),
{
    let mut vs: Vec<Vec<u8>> = Vec::new();
    let mut pos = k;
    let mut i: u32 = 0;
    assert(vs.deep_view() =~= Seq::<Seq<u8>>::empty());
    while i < n
        invariant
            i <= n,
            values_read(src@, k as nat, i as nat) == Read::Done(vs.deep_view(), pos as nat),
        decreases n - i,
    {
        match read_blob(src, pos) {
            Err(e) => {
                proof {
                    lemma_values_read_stuck(src@, k as nat, (i + 1) as nat, n as nat);
                }
                return Err(e);
            },
            Ok(None) => {
                proof {
                    lemma_values_read_stuck(src@, k as nat, (i + 1) as nat, n as nat);
                }
                return Ok(None);
            },
            Ok(Some((b, e))) => {
                let ghost before = vs.deep_view();
                vs.push(b);
                assert(vs.deep_view() =~= before.push(b.deep_view()));
                pos = e;
            },
        }
        i = i + 1;
    }
    Ok(Some((vs, pos)))
}

/// Reads a field.
fn read_field(src: &[u8], k: usize) -> (r: Result<Option<((String, Vec<Vec<u8>>), usize)>, CodecError>)
    ensures
        decoded(r) == field_read(src@, k as nat),
{
    reveal(field_read);
    match read_str(src, k) {
        Err(e) => Err(e),
        Ok(None) => Ok(None),
        Ok(Some((name, e))) => match read_u32_at(src, e) {
            Err(x) => Err(x),
            Ok(None) => Ok(None),
            Ok(Some((n, e2))) => match read_values(src, e2, n) {
                Err(x) => Err(x),
                Ok(None) => Ok(None),
                Ok(Some((vs, e3))) => Ok(Some(((name, vs), e3))),
            },
        },
    }
}

/// Reads a list of fields at position `k` of `src`.
pub fn read_fields(src: &[u8], k: usize) -> (r: Result<Option<(Vec<(String, Vec<Vec<u8>>)>, usize)>, CodecError>)
    ensures
        decoded(r) == fields_read(src@, k as nat),
{
    let (n, start) = match read_u32_at(src, k) {
        Err(x) => {
            return Err(x);
        },
        Ok(None) => {
            return Ok(None);
        },
        Ok(Some((n, e))) => (n, e),
    };
    let mut fs: Vec<(String, Vec<Vec<u8>>)> = Vec::new();
    let mut pos = start;
    let mut i: u32 = 0;
    assert(fs.deep_view() =~= Seq::<FieldView>::empty());
    while i < n
        invariant
            i <= n,
            fields_read(src@, k as nat) == field_list_read(src@, start as nat, n as nat),
            field_list_read(src@, start as nat, i as nat) == Read::Done(fs.deep_view(), pos as nat),
        decreases n - i,
    {
        match read_field(src, pos) {
            Err(e) => {
                proof {
                    lemma_field_list_read_stuck(src@, start as nat, (i + 1) as nat, n as nat);
                }
                return Err(e);
            },
            Ok(None) => {
                proof {
                    lemma_field_list_read_stuck(src@, start as nat, (i + 1) as nat, n as nat);
                }
                return Ok(None);
            },
            Ok(Some((f, e))) => {
                let ghost before = fs.deep_view();
                fs.push(f);
                assert(fs.deep_view() =~= before.push(f.deep_view()));
                pos = e;
            },
        }
        i = i + 1;
    }
    Ok(Some((fs, pos)))
}

/// A byte string written reads back.
proof fn lemma_blob_roundtrip(p: Seq<u8>, b: Seq<u8>, rest: Seq<u8>)
    requires
        b.len() <= u32::MAX,
    ensures
        blob_read(p + blob_bytes(b) + rest, p.len()) == Read::Done(b, p.len() + blob_bytes(b).len()),
{
    let t = p + blob_bytes(b) + rest;
    assert(t =~= p + uleb(b.len() as u32 as nat) + (b + rest));
    lemma_u32_roundtrip(p, b.len() as u32, b + rest);
    let e = p.len() + uleb(b.len()).len();
    assert(t.subrange(e as int, (e + b.len()) as int) =~= b);
}

/// Values written read back.
proof fn lemma_values_roundtrip(p: Seq<u8>, vs: Seq<Seq<u8>>, rest: Seq<u8>)
    requires
        forall|j: int| 0 <= j < vs.len() ==> (#[trigger] vs[j]).len() <= u32::MAX,
    ensures
        values_read(p + values_bytes(vs) + rest, p.len(), vs.len()) == Read::Done(
            vs,
            p.len() + values_bytes(vs).len(),
        ),
    decreases vs.len(),
{
    if vs.len() == 0 {
        assert(values_bytes(vs) =~= Seq::<u8>::empty());
        assert(vs =~= Seq::<Seq<u8>>::empty());
    } else {
        let init = vs.drop_last();
        let l = vs.last();
        assert(l == vs[vs.len() - 1]);
        let t = p + values_bytes(vs) + rest;
        assert(t =~= p + values_bytes(init) + (blob_bytes(l) + rest));
        lemma_values_roundtrip(p, init, blob_bytes(l) + rest);
        let e = p.len() + values_bytes(init).len();
        assert(values_read(t, p.len(), init.len()) == Read::Done(init, e));
        assert(t =~= (p + values_bytes(init)) + blob_bytes(l) + rest);
        lemma_blob_roundtrip(p + values_bytes(init), l, rest);
        assert(blob_read(t, e) == Read::Done(l, e + blob_bytes(l).len()));
        assert(init.push(l) =~= vs);
        assert(values_bytes(vs).len() == values_bytes(init).len() + blob_bytes(l).len());
        assert((vs.len() - 1) as nat == init.len());
        assert(values_read(t, p.len(), vs.len()) == Read::Done(init.push(l), e + blob_bytes(l).len()));
    }
}

/// A field written reads back.
proof fn lemma_field_roundtrip(p: Seq<u8>, f: FieldView, rest: Seq<u8>)
    requires
        field_fits(f),
    ensures
        field_read(p + field_bytes(f) + rest, p.len()) == Read::Done(f, p.len() + field_bytes(f).len()),
{
    reveal(field_read);
    let t = p + field_bytes(f) + rest;
    let nb = uleb(f.1.len() as u32 as nat);
    assert(t =~= p + str_bytes(f.0) + (nb + values_bytes(f.1) + rest));
    lemma_str_roundtrip(p, f.0, nb + values_bytes(f.1) + rest);
    let p2 = p + str_bytes(f.0);
    assert(t =~= p2 + nb + (values_bytes(f.1) + rest));
    lemma_u32_read_roundtrip(p2, f.1.len() as u32, values_bytes(f.1) + rest);
    let p3 = p2 + nb;
    assert(t =~= p3 + values_bytes(f.1) + rest);
    lemma_values_roundtrip(p3, f.1, rest);
}

/// Fields written read back.
proof fn lemma_field_list_roundtrip(p: Seq<u8>, fs: Seq<FieldView>, rest: Seq<u8>)
    requires
        forall|i: int| 0 <= i < fs.len() ==> field_fits(#[trigger] fs[i]),
    ensures
        field_list_read(p + field_list_bytes(fs) + rest, p.len(), fs.len()) == Read::Done(
            fs,
            p.len() + field_list_bytes(fs).len(),
        ),
    decreases fs.len(),
{
    if fs.len() == 0 {
        assert(field_list_bytes(fs) =~= Seq::<u8>::empty());
        assert(fs =~= Seq::<FieldView>::empty());
    } else {
        let init = fs.drop_last();
        let l = fs.last();
        assert(l == fs[fs.len() - 1]);
        let t = p + field_list_bytes(fs) + rest;
        assert(t =~= p + field_list_bytes(init) + (field_bytes(l) + rest));
        lemma_field_list_roundtrip(p, init, field_bytes(l) + rest);
        let e = p.len() + field_list_bytes(init).len();
        assert(field_list_read(t, p.len(), init.len()) == Read::Done(init, e));
        assert(t =~= (p + field_list_bytes(init)) + field_bytes(l) + rest);
        lemma_field_roundtrip(p + field_list_bytes(init), l, rest);
        assert(field_read(t, e) == Read::Done(l, e + field_bytes(l).len()));
        assert(init.push(l) =~= fs);
        assert(field_list_bytes(fs).len() == field_list_bytes(init).len() + field_bytes(l).len());
        assert((fs.len() - 1) as nat == init.len());
        assert(field_list_read(t, p.len(), fs.len()) == Read::Done(init.push(l), e + field_bytes(l).len()));
    }
}

/// A list of fields written reads back, whatever precedes and follows it.
pub proof fn lemma_fields_roundtrip(p: Seq<u8>, fs: Seq<FieldView>, rest: Seq<u8>)
    requires
        fields_fit(fs),
    ensures
        fields_read(p + fields_bytes(fs) + rest, p.len()) == Read::Done(fs, p.len() + fields_bytes(fs).len()),
{
    let t = p + fields_bytes(fs) + rest;
    let nb = uleb(fs.len() as u32 as nat);
    assert(t =~= p + nb + (field_list_bytes(fs) + rest));
    lemma_u32_read_roundtrip(p, fs.len() as u32, field_list_bytes(fs) + rest);
    assert(t =~= (p + nb) + field_list_bytes(fs) + rest);
    lemma_field_list_roundtrip(p + nb, fs, rest);
}

/// The fields that the entries of a header map give, walked in order: an
/// entry with a name starts a field, one without adds its value to the
/// field before it. `None` when the first entry has no name.
pub open spec fn grouped(items: Seq<(Option<Seq<char>>, Seq<u8>)>, n: nat) -> Option<Seq<FieldView>>
    decreases n,
{
    if n == 0 {
        Some(seq![])
    } else {
        match grouped(items, (n - 1) as nat) {
            None => None,
            Some(fs) => match items[n - 1].0 {
                Some(name) => Some(fs.push((name, seq![items[n - 1].1]))),
                None => if fs.len() == 0 {
                    None
                } else {
                    Some(fs.update(fs.len() - 1, (fs.last().0, fs.last().1.push(items[n - 1].1))))
                },
            },
        }
    }
}

/// Once the entries cannot be grouped, neither can more of them.
proof fn lemma_grouped_stuck(items: Seq<(Option<Seq<char>>, Seq<u8>)>, m: nat, n: nat)
    requires
        grouped(items, m) is None,
        m <= n,
    ensures
        grouped(items, n) is None,
    decreases n - m,
{
    if m < n {
        lemma_grouped_stuck(items, m, (n - 1) as nat);
    }
}

/// The fields of a header map, from its entries in the order the map gives
/// them: each name with the value that follows it, and each entry without a
/// name adding a value to the field before it. `None` when the first entry
/// has no name.
pub fn try_header_map_to_fields(items: Vec<(Option<String>, Vec<u8>)>) -> (r: Option<Vec<(String, Vec<Vec<u8>>)>>)
    ensures
        match grouped(items.deep_view(), items@.len()) {
            Some(fs) => r is Some && r.unwrap().deep_view() == fs,
            None => r is None,
        },
{
    let ghost its = items.deep_view();
    let n = items.len();
    let mut rest = items;
    let mut fs: Vec<(String, Vec<Vec<u8>>)> = Vec::new();
    let mut k: usize = 0;
    assert(fs.deep_view() =~= Seq::<FieldView>::empty());
    while k < n
        invariant
            k <= n,
            n == its.len(),
            its == items.deep_view(),
            rest.deep_view() == its.subrange(k as int, n as int),
            rest@.len() == n - k,
            grouped(its, k as nat) == Some(fs.deep_view()),
        decreases n - k,
    {
        let ghost before = fs.deep_view();
        let ghost rv = rest.deep_view();
        let ghost rs = rest@;
        assert(rv[0] == rest@[0].deep_view());
        let (name, value) = rest.remove(0);
        assert forall|j: int| 0 <= j < rest@.len() implies #[trigger] rest.deep_view()[j] == rv[j + 1] by {
            assert(rest@[j] == rs[j + 1]);
        }
        assert(its[k as int] == rv[0]);
        match name {
            Some(name) => {
                let mut values: Vec<Vec<u8>> = Vec::new();
                values.push(value);
                assert(values.deep_view() =~= seq![its[k as int].1]);
                fs.push((name, values));
                assert(fs.deep_view() =~= before.push((its[k as int].0->0, seq![its[k as int].1])));
            },
            None => {
                if fs.len() == 0 {
                    proof {
                        lemma_grouped_stuck(its, (k + 1) as nat, n as nat);
                    }
                    return None;
                }
                let (last_name, mut values) = fs.pop().unwrap();
                let ghost vb = values.deep_view();
                values.push(value);
                assert(values.deep_view() =~= vb.push(its[k as int].1));
                fs.push((last_name, values));
                assert(fs.deep_view() =~= before.update(
                    before.len() - 1,
                    (before.last().0, before.last().1.push(its[k as int].1)),
                ));
            },
        }
        k = k + 1;
        assert(rest.deep_view() =~= its.subrange(k as int, n as int));
    }
    assert(items@.len() == n);
    Some(fs)
}

} // verus!
