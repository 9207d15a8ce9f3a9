//! What bindings need to know of WIT types and functions: the integer that
//! holds a set of flags, the name a function is invoked under, and the
//! paths of the asynchronous values inside a type.

use vstd::prelude::*;

use crate::subject::strip_prefix;

verus! {

/// An unsigned integer type.
#[derive(Clone, Copy, Debug, PartialEq, Eq)]
pub enum Int {
    U8,
    U16,
    U32,
    U64,
}

/// The integer type that holds `n` flags: the smallest of eight, sixteen,
/// thirty-two and sixty-four bits that has room, and sixty-four bits beyond.
pub fn flag_repr(n: usize) -> (r: Int)
    ensures
        r == (if n <= 8 {
            Int::U8
        } else if n <= 16 {
            Int::U16
        } else if n <= 32 {
            Int::U32
        } else {
            Int::U64
        }),
{
    if n <= 8 {
        Int::U8
    } else if n <= 16 {
        Int::U16
    } else if n <= 32 {
        Int::U32
    } else {
        Int::U64
    }
}

/// What kind of function a WIT function is.
#[derive(Clone, Copy, Debug, PartialEq, Eq)]
pub enum FunctionKind {
    Freestanding,
    Method,
    Static,
    Constructor,
}

/// The name a function of kind `kind` named `name` is invoked under: a
/// constructor's and a static function's name without its `[constructor]`
/// or `[static]` prefix, a method's item name, a freestanding function's
/// name. Constructors and static functions must carry their prefix.
pub fn rpc_func_name<'a>(kind: FunctionKind, name: &'a str, item_name: &'a str) -> (r: &'a str)
    requires
        kind is Constructor ==> "[constructor]"@.is_prefix_of(name@),
        kind is Static ==> "[static]"@.is_prefix_of(name@),
    ensures
        r@ == match kind {
            FunctionKind::Constructor => name@.subrange("[constructor]"@.len() as int, name@.len() as int),
            FunctionKind::Static => name@.subrange("[static]"@.len() as int, name@.len() as int),
            FunctionKind::Method => item_name@,
            FunctionKind::Freestanding => name@,
        },
{
    match kind {
        FunctionKind::Constructor => match strip_prefix(name, "[constructor]") {
            Some(rest) => rest,
            None => name,
        },
        FunctionKind::Static => match strip_prefix(name, "[static]") {
            Some(rest) => rest,
            None => name,
        },
        FunctionKind::Method => item_name,
        FunctionKind::Freestanding => name,
    }
}

/// The shape of a WIT type, as far as asynchronous values go. Aliases are
/// resolved; a type that cannot hold asynchronous values (a primitive, a
/// resource, a handle, flags or an enum) is `Plain`.
pub enum WitType {
    Plain,
    List(Box<WitType>),
    Option(Box<WitType>),
    Result(Option<Box<WitType>>, Option<Box<WitType>>),
    Variant(Vec<Option<WitType>>),
    Tuple(Vec<WitType>),
    Record(Vec<WitType>),
    Future(Option<Box<WitType>>),
    Stream(Option<Box<WitType>>),
}

/// A path to a value nested in another: `None` for any element of a list or
/// stream, `Some(i)` for the `i`-th element of a tuple or field of a record,
/// or the value of a future.
pub type AsyncPath = Seq<Option<u32>>;

/// The paths of the asynchronous values nested in a value whose own paths
/// are `nested` and which is itself asynchronous when `fut`, seen from a
/// container that reaches it at `x`.
pub open spec fn prefixed(x: Option<u32>, nested: Set<AsyncPath>, fut: bool) -> Set<AsyncPath> {
    nested.map(|p: AsyncPath| seq![x] + p).union(
        if fut {
            set![seq![x]]
        } else {
            Set::empty()
        },
    )
}

/// The paths of the asynchronous values inside a value of type `t`, and
/// whether such a value is itself asynchronous (a future or a stream).
pub open spec fn async_paths(t: WitType) -> (Set<AsyncPath>, bool)
    decreases t, 1nat,
{
    match t {
        WitType::Plain => (Set::empty(), false),
        WitType::List(e) => {
            let (n, f) = async_paths(*e);
            (prefixed(None, n, f), false)
        },
        WitType::Option(e) => async_paths(*e),
        WitType::Result(ok, err) => {
            let (a, fa) = match ok {
                Some(e) => async_paths(*e),
                None => (Set::empty(), false),
            };
            let (b, fb) = match err {
                Some(e) => async_paths(*e),
                None => (Set::empty(), false),
            };
            (a.union(b), fa || fb)
        },
        WitType::Variant(cases) => variant_paths(cases@, cases.len() as nat),
        WitType::Tuple(ts) => (elems_paths(ts@, ts.len() as nat), false),
        WitType::Record(fs) => (elems_paths(fs@, fs.len() as nat), false),
        WitType::Future(e) => match e {
            Some(e) => {
                let (n, f) = async_paths(*e);
                (prefixed(Some(0), n, f), true)
            },
            None => (Set::empty(), true),
        },
        WitType::Stream(e) => match e {
            Some(e) => {
                let (n, f) = async_paths(*e);
                (prefixed(None, n, f), true)
            },
            None => (Set::empty(), true),
        },
    }
}

/// The paths of the first `n` cases of a variant, and whether one of them
/// is asynchronous.
pub open spec fn variant_paths(cases: Seq<Option<WitType>>, n: nat) -> (Set<AsyncPath>, bool)
    decreases cases, n,
{
    if n == 0 || n > cases.len() {
        (Set::empty(), false)
    } else {
        let (s, f) = variant_paths(cases, (n - 1) as nat);
        match cases[n - 1] {
            Some(t) => {
                proof {
                    assert(decreases_to!(cases => cases[n - 1]));
                }
                let (c, g) = async_paths(t);
                (s.union(c), f || g)
            },
            None => (s, f),
        }
    }
}

/// The paths of the first `n` elements of a tuple or fields of a record,
/// each under its position.
pub open spec fn elems_paths(ts: Seq<WitType>, n: nat) -> Set<AsyncPath>
    decreases ts, n,
{
    if n == 0 || n > ts.len() {
        Set::empty()
    } else {
        let (c, g) = async_paths(ts[n - 1]);
        elems_paths(ts, (n - 1) as nat).union(prefixed(Some((n - 1) as u32), c, g))
    }
}

/// Whether the paths of `t` can be written: no element of a tuple or field
/// of a record past position `u32::MAX` holds an asynchronous value.
pub open spec fn paths_fit(t: WitType) -> bool
    decreases t, 1nat,
{
    match t {
        WitType::Plain => true,
        WitType::List(e) => paths_fit(*e),
        WitType::Option(e) => paths_fit(*e),
        WitType::Result(ok, err) => (match ok {
            Some(e) => paths_fit(*e),
            None => true,
        }) && (match err {
            Some(e) => paths_fit(*e),
            None => true,
        }),
        WitType::Variant(cases) => variant_fit(cases@, cases.len() as nat),
        WitType::Tuple(ts) => elems_fit(ts@, ts.len() as nat),
        WitType::Record(fs) => elems_fit(fs@, fs.len() as nat),
        WitType::Future(e) => match e {
            Some(e) => paths_fit(*e),
            None => true,
        },
        WitType::Stream(e) => match e {
            Some(e) => paths_fit(*e),
            None => true,
        },
    }
}

/// The first `n` cases of a variant fit.
pub open spec fn variant_fit(cases: Seq<Option<WitType>>, n: nat) -> bool
    decreases cases, n,
{
    if n == 0 || n > cases.len() {
        true
    } else {
        variant_fit(cases, (n - 1) as nat) && match cases[n - 1] {
            Some(t) => {
                proof {
                    assert(decreases_to!(cases => cases[n - 1]));
                }
                paths_fit(t)
            },
            None => true,
        }
    }
}

/// The first `n` elements of a tuple or fields of a record fit.
pub open spec fn elems_fit(ts: Seq<WitType>, n: nat) -> bool
    decreases ts, n,
{
    if n == 0 || n > ts.len() {
        true
    } else {
        elems_fit(ts, (n - 1) as nat) && paths_fit(ts[n - 1]) && (n - 1 > u32::MAX ==> async_paths(
            ts[n - 1],
        ) == (Set::<AsyncPath>::empty(), false))
    }
}

/// The paths a sequence of vectors holds.
pub open spec fn paths_set(v: Seq<Vec<Option<u32>>>) -> Set<AsyncPath> {
    Set::new(|p: AsyncPath| exists|i: int| 0 <= i < v.len() && v[i]@ == p)
}

/// The order of positions: `None` first, then the indices in order.
pub open spec fn pos_lt(a: Option<u32>, b: Option<u32>) -> bool {
    match (a, b) {
        (None, Some(_)) => true,
        (Some(x), Some(y)) => x < y,
        _ => false,
    }
}

/// The lexicographic order of paths, in which a path comes before the
/// paths it is a proper prefix of.
pub open spec fn path_lt(a: AsyncPath, b: AsyncPath) -> bool
    decreases a.len(),
{
    if a.len() == 0 {
        b.len() > 0
    } else if b.len() == 0 {
        false
    } else if a[0] == b[0] {
        path_lt(a.drop_first(), b.drop_first())
    } else {
        pos_lt(a[0], b[0])
    }
}

/// The paths are in strictly increasing order, so none occurs twice.
pub open spec fn sorted(v: Seq<Vec<Option<u32>>>) -> bool {
    forall|i: int, j: int| 0 <= i < j < v.len() ==> path_lt(#[trigger] v[i]@, #[trigger] v[j]@)
}

/// The order of paths is transitive.
proof fn lemma_path_lt_transitive(a: AsyncPath, b: AsyncPath, c: AsyncPath)
    requires
        path_lt(a, b),
        path_lt(b, c),
    ensures
        path_lt(a, c),
    decreases a.len(),
{
    if a.len() > 0 && b.len() > 0 && c.len() > 0 && a[0] == b[0] && b[0] == c[0] {
        lemma_path_lt_transitive(a.drop_first(), b.drop_first(), c.drop_first());
    }
}

/// Of two different paths, one comes before the other.
proof fn lemma_path_lt_total(a: AsyncPath, b: AsyncPath)
    requires
        a != b,
    ensures
        path_lt(a, b) || path_lt(b, a),
    decreases a.len(),
{
    if a.len() > 0 && b.len() > 0 && a[0] == b[0] {
        if a.drop_first() == b.drop_first() {
            assert(a =~= seq![a[0]] + a.drop_first());
            assert(b =~= seq![b[0]] + b.drop_first());
        }
        lemma_path_lt_total(a.drop_first(), b.drop_first());
    }
    if a.len() == 0 && b.len() == 0 {
        assert(a =~= b);
    }
}

/// Whether path `a` comes before path `b`.
fn path_less(a: &Vec<Option<u32>>, b: &Vec<Option<u32>>) -> (r: bool)
    ensures
        r == path_lt(a@, b@),
{
    let mut i: usize = 0;
    assert(a@.subrange(0, a@.len() as int) =~= a@);
    assert(b@.subrange(0, b@.len() as int) =~= b@);
    assert(a@.subrange(0, 0) =~= b@.subrange(0, 0));
    while i < a.len() && i < b.len()
        invariant
            i <= a.len(),
            i <= b.len(),
            a@.subrange(0, i as int) == b@.subrange(0, i as int),
            path_lt(a@, b@) == path_lt(a@.subrange(i as int, a@.len() as int), b@.subrange(i as int, b@.len() as int)),
        decreases a.len() - i,
    {
        let x = a[i];
        let y = b[i];
        let ghost ra = a@.subrange(i as int, a@.len() as int);
        let ghost rb = b@.subrange(i as int, b@.len() as int);
        assert(ra[0] == x && rb[0] == y);
        assert(ra.drop_first() =~= a@.subrange(i + 1, a@.len() as int));
        assert(rb.drop_first() =~= b@.subrange(i + 1, b@.len() as int));
        match (x, y) {
            (None, None) => {},
            (Some(u), Some(v)) => {
                if u != v {
                    return u < v;
                }
            },
            (None, Some(_)) => {
                return true;
            },
            (Some(_), None) => {
                return false;
            },
        }
        i = i + 1;
        assert(a@.subrange(0, i as int) =~= b@.subrange(0, i as int));
    }
    i == a.len() && i < b.len()
}

/// Whether two paths are equal.
fn path_eq(a: &Vec<Option<u32>>, b: &Vec<Option<u32>>) -> (r: bool)
    ensures
        r == (a@ == b@),
{
    if a.len() != b.len() {
        return false;
    }
    let mut i: usize = 0;
    while i < a.len()
        invariant
            i <= a.len() == b.len(),
            forall|j: int| 0 <= j < i ==> a@[j] == b@[j],
        decreases a.len() - i,
    {
        let x = a[i];
        let y = b[i];
        let same = match (x, y) {
            (None, None) => true,
            (Some(u), Some(v)) => u == v,
            _ => false,
        };
        if !same {
            return false;
        }
        i = i + 1;
    }
    assert(a@ =~= b@);
    true
}

/// Adds `p` to `out`, in its place in the order, unless it is there
/// already.
fn insert_path(out: &mut Vec<Vec<Option<u32>>>, p: Vec<Option<u32>>)
    requires
        sorted(old(out)@),
    ensures
        sorted(final(out)@),
        paths_set(final(out)@) == paths_set(old(out)@).insert(p@),
{
    let mut i: usize = 0;
    let mut found = false;
    while !found && i < out.len()
        invariant
            i <= out.len(),
            sorted(out@),
            out@ == old(out)@,
            forall|j: int| 0 <= j < i ==> path_lt(#[trigger] out@[j]@, p@),
            found ==> i < out.len() && !path_lt(out@[i as int]@, p@),
        decreases out.len() - i, if found { 0int } else { 1int },
    {
        if path_less(&out[i], &p) {
            i = i + 1;
        } else {
            found = true;
        }
    }
    if i < out.len() && path_eq(&out[i], &p) {
        assert(paths_set(out@) =~= paths_set(out@).insert(p@));
        return;
    }
    let ghost before = out@;
    proof {
        if i < before.len() {
            lemma_path_lt_total(before[i as int]@, p@);
        }
    }
    out.insert(i, p);
    assert forall|a: int, b: int| 0 <= a < b < out@.len() implies path_lt(#[trigger] out@[a]@, #[trigger] out@[b]@) by {
        if b < i {
            assert(out@[a] == before[a] && out@[b] == before[b]);
        } else if b == i {
            assert(out@[a] == before[a]);
        } else if a > i {
            assert(out@[a] == before[a - 1] && out@[b] == before[b - 1]);
        } else if a == i {
            assert(out@[b] == before[b - 1]);
            if b - 1 > i {
                lemma_path_lt_transitive(p@, before[i as int]@, before[b - 1]@);
            }
        } else {
            assert(out@[a] == before[a] && out@[b] == before[b - 1]);
        }
    }
    assert(paths_set(out@) =~= paths_set(before).insert(p@)) by {
        assert forall|q: AsyncPath| paths_set(out@).contains(q) implies paths_set(before).insert(p@).contains(q) by {
            let j = choose|j: int| 0 <= j < out@.len() && #[trigger] out@[j]@ == q;
            if j < i {
                assert(before[j]@ == q);
            } else if j > i {
                assert(before[j - 1]@ == q);
            }
        }
        assert forall|q: AsyncPath| paths_set(before).insert(p@).contains(q) implies paths_set(out@).contains(q) by {
            if q == p@ {
                assert(out@[i as int]@ == q);
            } else {
                let j = choose|j: int| 0 <= j < before.len() && #[trigger] before[j]@ == q;
                if j < i {
                    assert(out@[j]@ == q);
                } else {
                    assert(out@[j + 1]@ == q);
                }
            }
        }
    }
}

/// Adds every path of `src` to `out`.
fn insert_all(out: &mut Vec<Vec<Option<u32>>>, src: Vec<Vec<Option<u32>>>)
    requires
        sorted(old(out)@),
    ensures
        sorted(final(out)@),
        paths_set(final(out)@) == paths_set(old(out)@).union(paths_set(src@)),
{
    let mut j: usize = 0;
    while j < src.len()
        invariant
            j <= src.len(),
            sorted(out@),
            paths_set(out@) == paths_set(old(out)@).union(paths_set(src@.subrange(0, j as int))),
        decreases src.len() - j,
    {
        let p = src[j].clone();
        let ghost before = out@;
        insert_path(out, p);
        proof {
            assert(p@ == src@[j as int]@);
            let a = src@.subrange(0, j as int);
            let b = src@.subrange(0, j + 1);
            assert(paths_set(b) =~= paths_set(a).insert(src@[j as int]@)) by {
                assert forall|q: AsyncPath| paths_set(b).contains(q) implies paths_set(a).insert(src@[j as int]@).contains(q) by {
                    let k = choose|k: int| 0 <= k < b.len() && #[trigger] b[k]@ == q;
                    if k < j {
                        assert(a[k]@ == q);
                    }
                }
                assert forall|q: AsyncPath| paths_set(a).insert(src@[j as int]@).contains(q) implies paths_set(b).contains(q) by {
                    if q == src@[j as int]@ {
                        assert(b[j as int]@ == q);
                    } else {
                        let k = choose|k: int| 0 <= k < a.len() && #[trigger] a[k]@ == q;
                        assert(b[k]@ == q);
                    }
                }
            }
            assert(paths_set(out@) =~= paths_set(old(out)@).union(paths_set(b)));
        }
        j = j + 1;
    }
    assert(src@.subrange(0, src.len() as int) =~= src@);
}

/// Adds to `out` the paths of a value whose own paths are `nested` and
/// which is itself asynchronous when `fut`, under position `x`.
fn insert_prefixed(out: &mut Vec<Vec<Option<u32>>>, x: Option<u32>, nested: Vec<Vec<Option<u32>>>, fut: bool)
    requires
        sorted(old(out)@),
    ensures
        sorted(final(out)@),
        paths_set(final(out)@) == paths_set(old(out)@).union(prefixed(x, paths_set(nested@), fut)),
{
    let ghost s = paths_set(nested@);
    let mut j: usize = 0;
    while j < nested.len()
        invariant
            j <= nested.len(),
            sorted(out@),
            s == paths_set(nested@),
            paths_set(out@) == paths_set(old(out)@).union(
                paths_set(nested@.subrange(0, j as int)).map(|p: AsyncPath| seq![x] + p),
            ),
        decreases nested.len() - j,
    {
        let mut p: Vec<Option<u32>> = Vec::new();
        p.push(x);
        let q = &nested[j];
        let mut k: usize = 0;
        while k < q.len()
            invariant
                k <= q.len(),
                p@ == seq![x] + q@.subrange(0, k as int),
            decreases q.len() - k,
        {
            p.push(q[k]);
            k = k + 1;
            assert(p@ =~= seq![x] + q@.subrange(0, k as int));
        }
        assert(q@.subrange(0, q@.len() as int) =~= q@);
        let ghost pv = p@;
        insert_path(out, p);
        proof {
            let f = |p: AsyncPath| seq![x] + p;
            let a = paths_set(nested@.subrange(0, j as int));
            let b = paths_set(nested@.subrange(0, j + 1));
            assert(b =~= a.insert(nested@[j as int]@)) by {
                let sa = nested@.subrange(0, j as int);
                let sb = nested@.subrange(0, j + 1);
                assert forall|r: AsyncPath| b.contains(r) implies a.insert(nested@[j as int]@).contains(r) by {
                    let i = choose|i: int| 0 <= i < sb.len() && #[trigger] sb[i]@ == r;
                    if i < j {
                        assert(sa[i]@ == r);
                    }
                }
                assert forall|r: AsyncPath| a.insert(nested@[j as int]@).contains(r) implies b.contains(r) by {
                    if r == nested@[j as int]@ {
                        assert(sb[j as int]@ == r);
                    } else {
                        let i = choose|i: int| 0 <= i < sa.len() && #[trigger] sa[i]@ == r;
                        assert(sb[i]@ == r);
                    }
                }
            }
            assert(b.map(f) =~= a.map(f).insert(pv)) by {
                assert forall|r: AsyncPath| b.map(f).contains(r) implies a.map(f).insert(pv).contains(r) by {
                    let y = choose|y: AsyncPath| b.contains(y) && f(y) == r;
                    if y != nested@[j as int]@ {
                        assert(a.contains(y));
                    }
                }
                assert forall|r: AsyncPath| a.map(f).insert(pv).contains(r) implies b.map(f).contains(r) by {
                    if r == pv {
                        assert(b.contains(nested@[j as int]@));
                        assert(f(nested@[j as int]@) == r);
                    } else {
                        let y = choose|y: AsyncPath| a.contains(y) && f(y) == r;
                        assert(b.contains(y));
                    }
                }
            }
            assert(paths_set(out@) =~= paths_set(old(out)@).union(b.map(f)));
        }
        j = j + 1;
    }
    assert(nested@.subrange(0, nested.len() as int) =~= nested@);
    if fut {
        let mut p: Vec<Option<u32>> = Vec::new();
        p.push(x);
        insert_path(out, p);
        assert(p@ =~= seq![x]);
    }
    assert(paths_set(out@) =~= paths_set(old(out)@).union(prefixed(x, s, fut)));
}

/// The paths of the asynchronous values inside a value of type `ty`, and
/// whether such a value is itself asynchronous.
pub fn async_paths_tyid(ty: &WitType) -> (r: (Vec<Vec<Option<u32>>>, bool))
    requires
        paths_fit(*ty),
    ensures
        sorted(r.0@),
        paths_set(r.0@) == async_paths(*ty).0,
        r.1 == async_paths(*ty).1,
    decreases ty, 0nat,
{
    let mut out: Vec<Vec<Option<u32>>> = Vec::new();
    assert(paths_set(out@) =~= Set::<AsyncPath>::empty());
    match ty {
        WitType::Plain => (out, false),
        WitType::List(e) => {
            let (n, f) = async_paths_ty(&**e);
            insert_prefixed(&mut out, None, n, f);
            assert(paths_set(out@) =~= async_paths(*ty).0);
            (out, false)
        },
        WitType::Option(e) => async_paths_ty(&**e),
        WitType::Result(ok, err) => {
            let mut fut = false;
            if let Some(e) = ok {
                let (n, f) = async_paths_ty(&**e);
                insert_all(&mut out, n);
                fut = fut || f;
            }
            let ghost after_ok = paths_set(out@);
            if let Some(e) = err {
                let (n, f) = async_paths_ty(&**e);
                insert_all(&mut out, n);
                fut = fut || f;
            }
            assert(paths_set(out@) =~= async_paths(*ty).0);
            (out, fut)
        },
        WitType::Variant(cases) => {
            let mut fut = false;
            let mut i: usize = 0;
            while i < cases.len()
                invariant
                    i <= cases.len(),
                    variant_fit(cases@, cases.len() as nat),
                    *ty == WitType::Variant(*cases),
                    sorted(out@),
                    (paths_set(out@), fut) == variant_paths(cases@, i as nat),
                decreases cases.len() - i,
            {
                proof {
                    lemma_variant_fit(cases@, (i + 1) as nat, cases.len() as nat);
                }
                if let Some(c) = &cases[i] {
                    assert(decreases_to!(*ty => ty->Variant_0));
                    assert(decreases_to!(ty->Variant_0 => cases@));
                    assert(decreases_to!(cases@ => cases@[i as int]));
                    assert(decreases_to!(cases@[i as int] => cases@[i as int]->0));
                    assert(decreases_to!(*ty => cases@[i as int]->0));
                    let (n, f) = async_paths_ty(c);
                    insert_all(&mut out, n);
                    fut = fut || f;
                }
                i = i + 1;
            }
            (out, fut)
        },
        WitType::Tuple(ts) => {
            let mut i: usize = 0;
            while i < ts.len()
                invariant
                    i <= ts.len(),
                    elems_fit(ts@, ts.len() as nat),
                    *ty == WitType::Tuple(*ts),
                    sorted(out@),
                    paths_set(out@) == elems_paths(ts@, i as nat),
                decreases ts.len() - i,
            {
                proof {
                    lemma_elems_fit(ts@, (i + 1) as nat, ts.len() as nat);
                }
                assert(decreases_to!(*ty => ty->Tuple_0));
                assert(decreases_to!(ty->Tuple_0 => ts@));
                assert(decreases_to!(ts@ => ts@[i as int]));
                assert(decreases_to!(*ty => ts@[i as int]));
                let (n, f) = async_paths_ty(&ts[i]);
                if n.len() > 0 || f {
                    proof {
                        if i > u32::MAX {
                            assert(paths_set(n@).contains(n@[0]@));
                        }
                    }
                    insert_prefixed(&mut out, Some(i as u32), n, f);
                } else {
                    proof {
                        assert(paths_set(n@) =~= Set::<AsyncPath>::empty());
                        assert(prefixed(Some((i as nat) as u32), Set::<AsyncPath>::empty(), false) =~= Set::<AsyncPath>::empty());
                        assert(paths_set(out@) =~= paths_set(out@).union(Set::<AsyncPath>::empty()));
                    }
                }
                i = i + 1;
            }
            (out, false)
        },
        WitType::Record(fs) => {
            let mut i: usize = 0;
            while i < fs.len()
                invariant
                    i <= fs.len(),
                    elems_fit(fs@, fs.len() as nat),
                    *ty == WitType::Record(*fs),
                    sorted(out@),
                    paths_set(out@) == elems_paths(fs@, i as nat),
                decreases fs.len() - i,
            {
                proof {
                    lemma_elems_fit(fs@, (i + 1) as nat, fs.len() as nat);
                }
                assert(decreases_to!(*ty => ty->Record_0));
                assert(decreases_to!(ty->Record_0 => fs@));
                assert(decreases_to!(fs@ => fs@[i as int]));
                assert(decreases_to!(*ty => fs@[i as int]));
                let (n, f) = async_paths_ty(&fs[i]);
                if n.len() > 0 || f {
                    proof {
                        if i > u32::MAX {
                            assert(paths_set(n@).contains(n@[0]@));
                        }
                    }
                    insert_prefixed(&mut out, Some(i as u32), n, f);
                } else {
                    proof {
                        assert(paths_set(n@) =~= Set::<AsyncPath>::empty());
                        assert(prefixed(Some((i as nat) as u32), Set::<AsyncPath>::empty(), false) =~= Set::<AsyncPath>::empty());
                        assert(paths_set(out@) =~= paths_set(out@).union(Set::<AsyncPath>::empty()));
                    }
                }
                i = i + 1;
            }
            (out, false)
        },
        WitType::Future(e) => {
            if let Some(e) = e {
                let (n, f) = async_paths_ty(&**e);
                insert_prefixed(&mut out, Some(0), n, f);
                assert(paths_set(out@) =~= async_paths(*ty).0);
            }
            (out, true)
        },
        WitType::Stream(e) => {
            if let Some(e) = e {
                let (n, f) = async_paths_ty(&**e);
                insert_prefixed(&mut out, None, n, f);
                assert(paths_set(out@) =~= async_paths(*ty).0);
            }
            (out, true)
        },
    }
}

/// The paths of the asynchronous values inside a value of type `ty`, and
/// whether such a value is itself asynchronous.
pub fn async_paths_ty(ty: &WitType) -> (r: (Vec<Vec<Option<u32>>>, bool))
    requires
        paths_fit(*ty),
    ensures
        sorted(r.0@),
        paths_set(r.0@) == async_paths(*ty).0,
        r.1 == async_paths(*ty).1,
    decreases ty, 1nat,
{
    async_paths_tyid(ty)
}

/// The first cases of a variant that fits fit.
proof fn lemma_variant_fit(cases: Seq<Option<WitType>>, i: nat, n: nat)
    requires
        variant_fit(cases, n),
        0 < i <= n <= cases.len(),
    ensures
        variant_fit(cases, i),
        cases[i - 1] matches Some(t) ==> paths_fit(t),
    decreases n - i,
{
    if i < n {
        lemma_variant_fit(cases, i, (n - 1) as nat);
    }
}

/// The first elements of a tuple that fits fit.
proof fn lemma_elems_fit(ts: Seq<WitType>, i: nat, n: nat)
    requires
        elems_fit(ts, n),
        0 < i <= n <= ts.len(),
    ensures
        elems_fit(ts, i),
        paths_fit(ts[i - 1]),
        i - 1 > u32::MAX ==> async_paths(ts[i - 1]) == (Set::<AsyncPath>::empty(), false),
    decreases n - i,
{
    if i < n {
        lemma_elems_fit(ts, i, (n - 1) as nat);
    }
}

/// The type a payload slot holds, if any.
pub open spec fn payload(t: Option<Box<WitType>>) -> Option<WitType> {
    match t {
        Some(b) => Some(*b),
        None => None,
    }
}

/// The paths and asynchrony of an optional payload: none when it is absent.
pub open spec fn payload_paths(t: Option<Box<WitType>>) -> (Set<AsyncPath>, bool) {
    match t {
        Some(b) => async_paths(*b),
        None => (Set::empty(), false),
    }
}

/// A result is a variant of two cases, its ok and its error payloads: the
/// same asynchronous values are found at the same paths in both, and one is
/// asynchronous exactly when the other is.
pub proof fn lemma_result_as_variant(ok: Option<Box<WitType>>, err: Option<Box<WitType>>, cases: Vec<Option<WitType>>)
    requires
        cases@ == seq![payload(ok), payload(err)],
    ensures
        async_paths(WitType::Result(ok, err)) == async_paths(WitType::Variant(cases)),
{
    let c = cases@;
    assert(variant_paths(c, 0) == (Set::<AsyncPath>::empty(), false));
    let (a, fa) = payload_paths(ok);
    let (b, fb) = payload_paths(err);
    assert(variant_paths(c, 1).0 =~= Set::<AsyncPath>::empty().union(a));
    assert(variant_paths(c, 2).0 =~= Set::<AsyncPath>::empty().union(a).union(b));
    assert(a.union(b) =~= Set::<AsyncPath>::empty().union(a).union(b));
}

/// A result with only an ok payload, or only an error payload, holds its
/// asynchronous values where an option of that payload holds them, and is
/// asynchronous exactly when the option is.
pub proof fn lemma_result_as_option(t: Box<WitType>)
    ensures
        async_paths(WitType::Result(Some(t), None)) == async_paths(WitType::Option(t)),
        async_paths(WitType::Result(None, Some(t))) == async_paths(WitType::Option(t)),
{
    assert(async_paths(*t).0.union(Set::<AsyncPath>::empty()) =~= async_paths(*t).0);
    assert(Set::<AsyncPath>::empty().union(async_paths(*t).0) =~= async_paths(*t).0);
}

/// The asynchronous values of a result are those of its payloads: its paths
/// are the union of the paths of the ok and error payloads, and it is
/// asynchronous exactly when one of the payloads is. So a result whose ok or
/// error payload is a stream or a future is asynchronous.
pub proof fn lemma_result_payloads(ok: Option<Box<WitType>>, err: Option<Box<WitType>>)
    ensures
        forall|p: AsyncPath| #[trigger] async_paths(WitType::Result(ok, err)).0.contains(p) <==> (
            payload_paths(ok).0.contains(p) || payload_paths(err).0.contains(p)),
        async_paths(WitType::Result(ok, err)).1 <==> (payload_paths(ok).1 || payload_paths(err).1),
        ok matches Some(t) && (*t is Stream || *t is Future) ==> async_paths(WitType::Result(ok, err)).1,
        err matches Some(t) && (*t is Stream || *t is Future) ==> async_paths(WitType::Result(ok, err)).1,
{
    if let Some(t) = ok {
        if *t is Stream || *t is Future {
            lemma_stream_future_async(*t);
        }
    }
    if let Some(t) = err {
        if *t is Stream || *t is Future {
            lemma_stream_future_async(*t);
        }
    }
}

/// Streams and futures are asynchronous, whatever they carry.
pub proof fn lemma_stream_future_async(t: WitType)
    requires
        t is Stream || t is Future,
    ensures
        async_paths(t).1,
{
}

/// An option holds its asynchronous values where its payload does, and is
/// asynchronous exactly when its payload is.
pub proof fn lemma_option_transparent(t: Box<WitType>)
    ensures
        async_paths(WitType::Option(t)) == async_paths(*t),
{
}

/// A list and a stream of the same elements hold their asynchronous values
/// at the same paths (each element under `None`); the stream is
/// asynchronous itself, the list is not.
pub proof fn lemma_list_as_stream(e: Box<WitType>)
    ensures
        async_paths(WitType::List(e)).0 == async_paths(WitType::Stream(Some(e))).0,
        !async_paths(WitType::List(e)).1,
        async_paths(WitType::Stream(Some(e))).1,
{
}

/// A tuple and a record of the same element types hold their asynchronous
/// values at the same paths, and neither is asynchronous itself.
pub proof fn lemma_tuple_as_record(ts: Vec<WitType>, fs: Vec<WitType>)
    requires
        ts@ == fs@,
    ensures
        async_paths(WitType::Tuple(ts)) == async_paths(WitType::Record(fs)),
        !async_paths(WitType::Tuple(ts)).1,
{
}

/// Each case of a variant contributes its paths, and the variant is
/// asynchronous exactly when one of its cases is.
pub proof fn lemma_variant_cases(cases: Vec<Option<WitType>>)
    ensures
        forall|i: int| #![trigger cases@[i]]
            0 <= i < cases@.len() && cases@[i] is Some ==> async_paths(cases@[i]->0).0.subset_of(
                async_paths(WitType::Variant(cases)).0,
            ),
        async_paths(WitType::Variant(cases)).1 <==> exists|i: int|
            0 <= i < cases@.len() && #[trigger] cases@[i] is Some && async_paths(cases@[i]->0).1,
{
    lemma_variant_prefix(cases@, cases@.len());
}

/// The first `n` cases of a variant, as `lemma_variant_cases` states them.
proof fn lemma_variant_prefix(c: Seq<Option<WitType>>, n: nat)
    requires
        n <= c.len(),
    ensures
        forall|i: int| #![trigger c[i]]
            0 <= i < n && c[i] is Some ==> async_paths(c[i]->0).0.subset_of(variant_paths(c, n).0),
        variant_paths(c, n).1 <==> exists|i: int| 0 <= i < n && #[trigger] c[i] is Some && async_paths(c[i]->0).1,
    decreases n,
{
    if n > 0 {
        lemma_variant_prefix(c, (n - 1) as nat);
        if variant_paths(c, n).1 && !variant_paths(c, (n - 1) as nat).1 {
            assert(c[n - 1] is Some && async_paths(c[n - 1]->0).1);
        }
    }
}

/// A value with no structure holds no asynchronous value and is not
/// asynchronous.
pub proof fn lemma_plain_sync()
    ensures
        async_paths(WitType::Plain) == (Set::<AsyncPath>::empty(), false),
{
}

/// A future holds the asynchronous values of its payload where a tuple of
/// that one payload holds them (under position 0), and is asynchronous
/// itself.
pub proof fn lemma_future_as_tuple(e: Box<WitType>, ts: Vec<WitType>)
    requires
        ts@ == seq![*e],
    ensures
        async_paths(WitType::Future(Some(e))).0 == async_paths(WitType::Tuple(ts)).0,
        async_paths(WitType::Future(Some(e))).1,
{
    let (n, f) = async_paths(*e);
    assert(ts@[0] == *e);
    assert(ts.len() == 1);
    assert(elems_paths(ts@, 0) == Set::<AsyncPath>::empty());
    assert(elems_paths(ts@, 1) == elems_paths(ts@, 0).union(prefixed(Some(0u32), n, f)));
    assert(Set::<AsyncPath>::empty().union(prefixed(Some(0u32), n, f)) =~= prefixed(Some(0u32), n, f));
}

} // verus!
