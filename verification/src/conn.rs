//! The index of the nested streams of one invocation: a trie over paths of
//! positions, each position a definite index or a wildcard, holding the
//! sending and receiving ends of the stream at that path.

use vstd::prelude::*;

verus! {

/// What the trie holds at one path: a sending end (a node without one holds
/// none), and a receiving end until it is taken.
pub type Entry<T, R> = (Option<T>, Option<R>);

/// A trie of stream ends, keyed by paths of positions; `None` in a path is a
/// wildcard position.
pub enum IndexTrie<T, R> {
    Empty,
    Leaf { tx: T, rx: Option<R> },
    IndexNode { tx: Option<T>, rx: Option<R>, nested: Vec<Option<IndexTrie<T, R>>> },
    WildcardNode { tx: Option<T>, rx: Option<R>, nested: Option<Box<IndexTrie<T, R>>> },
}

/// What `t` holds at `path`, if anything.
pub open spec fn lookup<T, R>(t: IndexTrie<T, R>, path: Seq<Option<usize>>) -> Option<Entry<T, R>>
    decreases path.len(),
{
    if path.len() == 0 {
        match t {
            IndexTrie::Empty => None,
            IndexTrie::Leaf { tx, rx } => Some((Some(tx), rx)),
            IndexTrie::IndexNode { tx, rx, .. } => if tx is None && rx is None {
                None
            } else {
                Some((tx, rx))
            },
            IndexTrie::WildcardNode { tx, rx, .. } => if tx is None && rx is None {
                None
            } else {
                Some((tx, rx))
            },
        }
    } else {
        match (t, path[0]) {
            (IndexTrie::IndexNode { nested, .. }, Some(i)) => if i < nested.len() {
                match nested@[i as int] {
                    Some(c) => lookup(c, path.drop_first()),
                    None => None,
                }
            } else {
                None
            },
            (IndexTrie::WildcardNode { nested: Some(c), .. }, None) => lookup(*c, path.drop_first()),
            _ => None,
        }
    }
}

/// Whether inserting at `path` into `t` succeeds: every node along the path
/// is of the kind its next position asks for (a leaf grows into one), and
/// the node at the path holds nothing yet.
pub open spec fn insert_ok<T, R>(t: IndexTrie<T, R>, path: Seq<Option<usize>>) -> bool
    decreases path.len(),
{
    match t {
        IndexTrie::Empty => true,
        IndexTrie::Leaf { .. } => path.len() > 0,
        IndexTrie::IndexNode { tx, rx, nested } => if path.len() == 0 {
            tx is None && rx is None
        } else {
            match path[0] {
                Some(i) => if i < nested.len() {
                    match nested@[i as int] {
                        Some(c) => insert_ok(c, path.drop_first()),
                        None => true,
                    }
                } else {
                    true
                },
                None => false,
            }
        },
        IndexTrie::WildcardNode { tx, rx, nested } => if path.len() == 0 {
            tx is None && rx is None
        } else {
            match path[0] {
                None => match nested {
                    Some(c) => insert_ok(*c, path.drop_first()),
                    None => true,
                },
                Some(_) => false,
            }
        },
    }
}

/// Every definite position of `path` leaves room for one more element.
pub open spec fn path_fits(path: Seq<Option<usize>>) -> bool {
    forall|j: int| 0 <= j < path.len() && (#[trigger] path[j]) is Some ==> path[j]->0 < usize::MAX
}

/// A path of definite positions.
pub open spec fn definite(path: Seq<usize>) -> Seq<Option<usize>> {
    path.map_values(|i: usize| Some(i))
}

/// What the trie holds at a path once its receiving end is taken.
pub open spec fn without_rx<T, R>(e: Option<Entry<T, R>>) -> Option<Entry<T, R>> {
    match e {
        Some((Some(tx), _)) => Some((Some(tx), None)),
        _ => None,
    }
}

/// Sequences with the same first element and the same rest are equal.
pub proof fn lemma_cons_eq<A>(a: Seq<A>, b: Seq<A>)
    requires
        a.len() > 0,
        b.len() > 0,
        a[0] == b[0],
        a.drop_first() == b.drop_first(),
    ensures
        a == b,
{
    assert(a.drop_first().len() == a.len() - 1);
    assert(b.drop_first().len() == b.len() - 1);
    assert(a.len() == b.len());
    assert forall|k: int| 0 <= k < a.len() implies a[k] == b[k] by {
        if k > 0 {
            assert(a[k] == a.drop_first()[k - 1]);
            assert(b[k] == b.drop_first()[k - 1]);
        }
    }
    assert(a =~= b);
}

impl<T, R> IndexTrie<T, R> {
    /// A trie that holds `tx` and `rx` at `path` and nothing else.
    pub fn from(path: &[Option<usize>], tx: T, rx: Option<R>) -> (r: IndexTrie<T, R>)
        requires
            path_fits(path@),
        ensures
            forall|q: Seq<Option<usize>>|
                #[trigger] lookup(r, q) == if q == path@ {
                    Some((Some(tx), rx))
                } else {
                    None::<Entry<T, R>>
                },
            well_shaped(r),
            !(r is Empty),
        decreases path.len(),
    {
        if path.len() == 0 {
            let r = IndexTrie::Leaf { tx, rx };
            assert forall|q: Seq<Option<usize>>|
                #[trigger] lookup(r, q) == if q == path@ {
                    Some((Some(tx), rx))
                } else {
                    None::<Entry<T, R>>
                } by {
                if q.len() == 0 {
                    assert(q =~= path@);
                }
            }
            return r;
        }
        let rest = vstd::slice::slice_subrange(path, 1, path.len());
        assert(rest@ =~= path@.drop_first());
        assert(path_fits(rest@)) by {
            assert forall|j: int| 0 <= j < rest@.len() && (#[trigger] rest@[j]) is Some implies rest@[j]->0
                < usize::MAX by {
                assert(rest@[j] == path@[j + 1]);
            }
        }
        let child = IndexTrie::from(rest, tx, rx);
        match path[0] {
            None => {
                assert(path@[0] is None);
                let r = IndexTrie::WildcardNode { tx: None, rx: None, nested: Some(Box::new(child)) };
                assert forall|q: Seq<Option<usize>>|
                    #[trigger] lookup(r, q) == if q == path@ {
                        Some((Some(tx), rx))
                    } else {
                        None::<Entry<T, R>>
                    } by {
                    if q.len() > 0 && q[0] is None {
                        assert(lookup(child, q.drop_first()) == lookup(r, q));
                        if q.drop_first() == path@.drop_first() {
                            lemma_cons_eq(q, path@);
                        }
                    }
                    if q == path@ {
                        assert(q.drop_first() == rest@);
                    }
                }
                r
            },
            Some(i) => {
                assert(path@[0] is Some);
                let mut nested: Vec<Option<IndexTrie<T, R>>> = Vec::new();
                while nested.len() < i
                    invariant
                        nested.len() <= i,
                        forall|j: int| 0 <= j < nested.len() ==> nested@[j] is None,
                    decreases i - nested.len(),
                {
                    nested.push(None);
                }
                nested.push(Some(child));
                assert(nested@[i as int] is Some);
                let r = IndexTrie::IndexNode { tx: None, rx: None, nested };
                assert forall|q: Seq<Option<usize>>|
                    #[trigger] lookup(r, q) == if q == path@ {
                        Some((Some(tx), rx))
                    } else {
                        None::<Entry<T, R>>
                    } by {
                    if q.len() > 0 && q[0] == Some(i) {
                        assert(lookup(child, q.drop_first()) == lookup(r, q));
                        if q.drop_first() == path@.drop_first() {
                            lemma_cons_eq(q, path@);
                        }
                    }
                    if q == path@ {
                        assert(q.drop_first() == rest@);
                    }
                }
                r
            },
        }
    }
}

/// The rest of a path that fits, fits.
pub proof fn lemma_rest_fits(path: Seq<Option<usize>>)
    requires
        path_fits(path),
        path.len() > 0,
    ensures
        path_fits(path.drop_first()),
{
    assert forall|j: int| 0 <= j < path.drop_first().len() && (#[trigger] path.drop_first()[j]) is Some implies path.drop_first()[j]->0
        < usize::MAX by {
        assert(path.drop_first()[j] == path[j + 1]);
    }
}

/// Inserts into `t`, giving whether it succeeded and the trie after.
fn insert_owned<T, R>(t: IndexTrie<T, R>, path: &[Option<usize>], sender: T, receiver: Option<R>) -> (r: (
    bool,
    IndexTrie<T, R>,
))
    requires
        path_fits(path@),
    ensures
        r.0 == insert_ok(t, path@),
        forall|q: Seq<Option<usize>>|
            #[trigger] lookup(r.1, q) == if r.0 && q == path@ {
                Some((Some(sender), receiver))
            } else {
                lookup(t, q)
            },
        well_shaped(t) && r.0 ==> well_shaped(r.1),
    decreases path.len(),
{
    let ghost s = sender;
    let ghost rcv = receiver;
    match t {
        IndexTrie::Empty => {
            let n = IndexTrie::from(path, sender, receiver);
            (true, n)
        },
        IndexTrie::Leaf { tx, rx } => {
            if path.len() == 0 {
                let n = IndexTrie::Leaf { tx, rx };
                return (false, n);
            }
            let rest = vstd::slice::slice_subrange(path, 1, path.len());
            assert(rest@ =~= path@.drop_first());
            proof {
                lemma_rest_fits(path@);
            }
            let child = IndexTrie::from(rest, sender, receiver);
            match path[0] {
                None => {
                    assert(path@[0] is None);
                    let n = IndexTrie::WildcardNode { tx: Some(tx), rx, nested: Some(Box::new(child)) };
                    assert forall|q: Seq<Option<usize>>|
                        #[trigger] lookup(n, q) == if q == path@ {
                            Some((Some(s), rcv))
                        } else {
                            lookup(IndexTrie::Leaf { tx, rx }, q)
                        } by {
                        if q.len() > 0 && q[0] is None {
                            assert(lookup(n, q) == lookup(child, q.drop_first()));
                            if q.drop_first() == path@.drop_first() {
                                lemma_cons_eq(q, path@);
                            }
                        }
                        if q == path@ {
                            assert(q.drop_first() == rest@);
                        }
                    }
                    (true, n)
                },
                Some(i) => {
                    assert(path@[0] is Some);
                    let mut nested: Vec<Option<IndexTrie<T, R>>> = Vec::new();
                    while nested.len() < i
                        invariant
                            nested.len() <= i,
                            forall|j: int| 0 <= j < nested.len() ==> nested@[j] is None,
                        decreases i - nested.len(),
                    {
                        nested.push(None);
                    }
                    nested.push(Some(child));
                    assert(nested@[i as int] is Some);
                    let n = IndexTrie::IndexNode { tx: Some(tx), rx, nested };
                    assert forall|q: Seq<Option<usize>>|
                        #[trigger] lookup(n, q) == if q == path@ {
                            Some((Some(s), rcv))
                        } else {
                            lookup(IndexTrie::Leaf { tx, rx }, q)
                        } by {
                        if q.len() > 0 && q[0] == Some(i) {
                            assert(lookup(n, q) == lookup(child, q.drop_first()));
                            if q.drop_first() == path@.drop_first() {
                                lemma_cons_eq(q, path@);
                            }
                        }
                        if q == path@ {
                            assert(q.drop_first() == rest@);
                        }
                    }
                    (true, n)
                },
            }
        },
        IndexTrie::IndexNode { tx, rx, mut nested } => {
            let ghost old_t = IndexTrie::IndexNode { tx, rx, nested };
            let ghost old_nested = nested@;
            if path.len() == 0 {
                if tx.is_none() && rx.is_none() {
                    let n = IndexTrie::IndexNode { tx: Some(sender), rx: receiver, nested };
                    assert forall|q: Seq<Option<usize>>|
                        #[trigger] lookup(n, q) == if q == path@ {
                            Some((Some(s), rcv))
                        } else {
                            lookup(old_t, q)
                        } by {
                        if q.len() == 0 {
                            assert(q =~= path@);
                        }
                    }
                    return (true, n);
                }
                let n = IndexTrie::IndexNode { tx, rx, nested };
                return (false, n);
            }
            match path[0] {
                None => {
                    assert(path@[0] is None);
                    let n = IndexTrie::IndexNode { tx, rx, nested };
                    (false, n)
                },
                Some(i) => {
                    assert(path@[0] is Some);
                    let rest = vstd::slice::slice_subrange(path, 1, path.len());
                    assert(rest@ =~= path@.drop_first());
                    proof {
                        lemma_rest_fits(path@);
                    }
                    while nested.len() <= i
                        invariant
                            old_nested.len() <= nested.len(),
                            forall|j: int| 0 <= j < old_nested.len() ==> nested@[j] == old_nested[j],
                            forall|j: int| old_nested.len() <= j < nested.len() ==> nested@[j] is None,
                        decreases i + 1 - nested.len(),
                    {
                        nested.push(None);
                    }
                    let c = nested[i].take();
                    let ghost c0 = c;
                    let (ok, c2) = match c {
                        Some(c) => {
                            let (ok, c2) = insert_owned(c, rest, sender, receiver);
                            (ok, c2)
                        },
                        None => {
                            let c2 = IndexTrie::from(rest, sender, receiver);
                            (true, c2)
                        },
                    };
                    nested[i] = Some(c2);
                    proof {
                        if ok {
                            assert(lookup(c2, rest@) is Some);
                        }
                        if ok && well_shaped(old_t) {
                            assert(nested@[i as int] is Some);
                            assert forall|j: int| 0 <= j < nested@.len() implies match #[trigger] nested@[j] {
                                Some(c) => !(c is Empty) && well_shaped(c),
                                None => true,
                            } by {
                                if j != i && j < old_nested.len() {
                                    assert(nested@[j] == old_nested[j]);
                                }
                            }
                        }
                    }
                    let n = IndexTrie::IndexNode { tx, rx, nested };
                    assert(ok == insert_ok(old_t, path@));
                    assert forall|q: Seq<Option<usize>>|
                        #[trigger] lookup(n, q) == if ok && q == path@ {
                            Some((Some(s), rcv))
                        } else {
                            lookup(old_t, q)
                        } by {
                        if q.len() > 0 && q[0] == Some(i) {
                            assert(lookup(n, q) == lookup(c2, q.drop_first()));
                            if q.drop_first() == path@.drop_first() {
                                lemma_cons_eq(q, path@);
                            }
                        }
                        if q == path@ {
                            assert(q.drop_first() == rest@);
                        }
                    }
                    (ok, n)
                },
            }
        },
        IndexTrie::WildcardNode { tx, rx, nested } => {
            let ghost old_t = IndexTrie::WildcardNode { tx, rx, nested };
            if path.len() == 0 {
                if tx.is_none() && rx.is_none() {
                    let n = IndexTrie::WildcardNode { tx: Some(sender), rx: receiver, nested };
                    assert forall|q: Seq<Option<usize>>|
                        #[trigger] lookup(n, q) == if q == path@ {
                            Some((Some(s), rcv))
                        } else {
                            lookup(old_t, q)
                        } by {
                        if q.len() == 0 {
                            assert(q =~= path@);
                        }
                    }
                    return (true, n);
                }
                let n = IndexTrie::WildcardNode { tx, rx, nested };
                return (false, n);
            }
            match path[0] {
                Some(_) => {
                    assert(path@[0] is Some);
                    let n = IndexTrie::WildcardNode { tx, rx, nested };
                    (false, n)
                },
                None => {
                    assert(path@[0] is None);
                    let rest = vstd::slice::slice_subrange(path, 1, path.len());
                    assert(rest@ =~= path@.drop_first());
                    proof {
                        lemma_rest_fits(path@);
                    }
                    let (ok, c2) = match nested {
                        Some(c) => {
                            let (ok, c2) = insert_owned(*c, rest, sender, receiver);
                            (ok, c2)
                        },
                        None => {
                            let c2 = IndexTrie::from(rest, sender, receiver);
                            (true, c2)
                        },
                    };
                    proof {
                        if ok {
                            assert(lookup(c2, rest@) is Some);
                        }
                    }
                    let n = IndexTrie::WildcardNode { tx, rx, nested: Some(Box::new(c2)) };
                    assert forall|q: Seq<Option<usize>>|
                        #[trigger] lookup(n, q) == if ok && q == path@ {
                            Some((Some(s), rcv))
                        } else {
                            lookup(old_t, q)
                        } by {
                        if q.len() > 0 && q[0] is None {
                            assert(lookup(n, q) == lookup(c2, q.drop_first()));
                            if q.drop_first() == path@.drop_first() {
                                lemma_cons_eq(q, path@);
                            }
                        }
                        if q == path@ {
                            assert(q.drop_first() == rest@);
                        }
                    }
                    (ok, n)
                },
            }
        },
    }
}

impl<T, R> IndexTrie<T, R> {
    /// Inserts `sender` and `receiver` at `path`, and says whether it could:
    /// on success the trie holds them at `path` and is otherwise unchanged;
    /// on failure it holds what it held.
    pub fn insert(&mut self, path: &[Option<usize>], sender: T, receiver: Option<R>) -> (r: bool)
        requires
            path_fits(path@),
        ensures
            r == insert_ok(*old(self), path@),
            forall|q: Seq<Option<usize>>|
                #[trigger] lookup(*final(self), q) == if r && q == path@ {
                    Some((Some(sender), receiver))
                } else {
                    lookup(*old(self), q)
                },
            well_shaped(*old(self)) && r ==> well_shaped(*final(self)),
    {
        let mut cur = IndexTrie::Empty;
        std::mem::swap(self, &mut cur);
        let (r, next) = insert_owned(cur, path, sender, receiver);
        *self = next;
        r
    }
}

/// The rest of a definite path is the rest of its positions.
pub proof fn lemma_definite_rest(path: Seq<usize>)
    requires
        path.len() > 0,
    ensures
        definite(path).len() == path.len(),
        definite(path)[0] == Some(path[0]),
        definite(path).drop_first() == definite(path.drop_first()),
{
    assert(definite(path).drop_first() =~= definite(path.drop_first()));
}

/// The receiving end that `t` holds at `path`, if any.
pub open spec fn rx_at<T, R>(t: IndexTrie<T, R>, path: Seq<usize>) -> Option<R> {
    match lookup(t, definite(path)) {
        Some((_, rx)) => rx,
        None => None,
    }
}

/// Takes the receiving end at `path` out of `t`.
fn take_rx_owned<T, R>(t: IndexTrie<T, R>, path: &[usize]) -> (r: (Option<R>, IndexTrie<T, R>))
    ensures
        r.0 == rx_at(t, path@),
        forall|q: Seq<Option<usize>>|
            #[trigger] lookup(r.1, q) == if q == definite(path@) {
                without_rx(lookup(t, q))
            } else {
                lookup(t, q)
            },
        well_shaped(t) ==> well_shaped(r.1) && (!(t is Empty) ==> !(r.1 is Empty)),
    decreases path.len(),
{
    if path.len() == 0 {
        assert(definite(path@) =~= Seq::<Option<usize>>::empty());
        match t {
            IndexTrie::Empty => (None, IndexTrie::Empty),
            IndexTrie::Leaf { tx, rx } => {
                let n = IndexTrie::Leaf { tx, rx: None };
                assert forall|q: Seq<Option<usize>>|
                    #[trigger] lookup(n, q) == if q == definite(path@) {
                        without_rx(lookup(IndexTrie::<T, R>::Leaf { tx, rx }, q))
                    } else {
                        lookup(IndexTrie::<T, R>::Leaf { tx, rx }, q)
                    } by {
                    if q.len() == 0 {
                        assert(q =~= definite(path@));
                    }
                }
                (rx, n)
            },
            IndexTrie::IndexNode { tx, rx, nested } => {
                let ghost old_t = IndexTrie::IndexNode { tx, rx, nested };
                let n = if nested.len() == 0 && tx.is_none() {
                    IndexTrie::Empty
                } else {
                    IndexTrie::IndexNode { tx, rx: None, nested }
                };
                assert forall|q: Seq<Option<usize>>|
                    #[trigger] lookup(n, q) == if q == definite(path@) {
                        without_rx(lookup(old_t, q))
                    } else {
                        lookup(old_t, q)
                    } by {
                    if q.len() == 0 {
                        assert(q =~= definite(path@));
                    }
                }
                (rx, n)
            },
            IndexTrie::WildcardNode { tx, rx, nested } => {
                let ghost old_t = IndexTrie::WildcardNode { tx, rx, nested };
                let n = if nested.is_none() && tx.is_none() {
                    IndexTrie::Empty
                } else {
                    IndexTrie::WildcardNode { tx, rx: None, nested }
                };
                assert forall|q: Seq<Option<usize>>|
                    #[trigger] lookup(n, q) == if q == definite(path@) {
                        without_rx(lookup(old_t, q))
                    } else {
                        lookup(old_t, q)
                    } by {
                    if q.len() == 0 {
                        assert(q =~= definite(path@));
                    }
                }
                (rx, n)
            },
        }
    } else {
        proof {
            lemma_definite_rest(path@);
        }
        let i = path[0];
        let rest = vstd::slice::slice_subrange(path, 1, path.len());
        assert(rest@ =~= path@.drop_first());
        match t {
            IndexTrie::IndexNode { tx, rx, mut nested } => {
                let ghost old_t = IndexTrie::IndexNode { tx, rx, nested };
                let ghost old_nested = nested@;
                if i >= nested.len() {
                    let n = IndexTrie::IndexNode { tx, rx, nested };
                    return (None, n);
                }
                let c = nested[i].take();
                match c {
                    None => {
                        nested[i] = None;
                        assert(nested@ =~= old_nested);
                        let n = IndexTrie::IndexNode { tx, rx, nested };
                        (None, n)
                    },
                    Some(c) => {
                        let ghost c0 = c;
                        let (r, c2) = take_rx_owned(c, rest);
                        nested[i] = Some(c2);
                        proof {
                            if well_shaped(old_t) {
                                assert(old_nested[i as int] == Some(c0));
                                assert(nested@[i as int] is Some);
                                assert forall|j: int| 0 <= j < nested@.len() implies match #[trigger] nested@[j] {
                                    Some(c) => !(c is Empty) && well_shaped(c),
                                    None => true,
                                } by {
                                    if j != i {
                                        assert(nested@[j] == old_nested[j]);
                                    }
                                }
                            }
                        }
                        let n = IndexTrie::IndexNode { tx, rx, nested };
                        assert forall|q: Seq<Option<usize>>|
                            #[trigger] lookup(n, q) == if q == definite(path@) {
                                without_rx(lookup(old_t, q))
                            } else {
                                lookup(old_t, q)
                            } by {
                            if q.len() > 0 && q[0] == Some(i) {
                                assert(lookup(n, q) == lookup(c2, q.drop_first()));
                                assert(lookup(old_t, q) == lookup(c0, q.drop_first()));
                                if q.drop_first() == definite(rest@) {
                                    lemma_cons_eq(q, definite(path@));
                                }
                            }
                            if q == definite(path@) {
                                assert(q.drop_first() == definite(rest@));
                            }
                        }
                        (r, n)
                    },
                }
            },
            IndexTrie::Empty => (None, IndexTrie::Empty),
            IndexTrie::Leaf { tx, rx } => (None, IndexTrie::Leaf { tx, rx }),
            IndexTrie::WildcardNode { tx, rx, nested } => (None, IndexTrie::WildcardNode { tx, rx, nested }),
        }
    }
}

impl<T, R> IndexTrie<T, R> {
    /// Takes the receiving end at the definite `path`: the trie no longer
    /// holds it there, and holds everything else it held.
    pub fn take_rx(&mut self, path: &[usize]) -> (r: Option<R>)
        ensures
            r == rx_at(*old(self), path@),
            forall|q: Seq<Option<usize>>|
                #[trigger] lookup(*final(self), q) == if q == definite(path@) {
                    without_rx(lookup(*old(self), q))
                } else {
                    lookup(*old(self), q)
                },
            well_shaped(*old(self)) ==> well_shaped(*final(self)),
    {
        let mut cur = IndexTrie::Empty;
        std::mem::swap(self, &mut cur);
        let (r, next) = take_rx_owned(cur, path);
        *self = next;
        r
    }
}

impl<T: Clone, R> IndexTrie<T, R> {
    /// A clone of the sending end at the definite `path`, if the trie holds
    /// one there.
    pub fn get_tx(&self, path: &[usize]) -> (r: Option<T>)
        ensures
            match lookup(*self, definite(path@)) {
                Some((Some(tx), _)) => r matches Some(c) && cloned(tx, c),
                _ => r is None,
            },
        decreases path.len(),
    {
        if path.len() == 0 {
            assert(definite(path@) =~= Seq::<Option<usize>>::empty());
            return match self {
                IndexTrie::Empty => None,
                IndexTrie::Leaf { tx, .. } => Some(tx.clone()),
                IndexTrie::IndexNode { tx, .. } => match tx {
                    Some(t) => Some(t.clone()),
                    None => None,
                },
                IndexTrie::WildcardNode { tx, .. } => match tx {
                    Some(t) => Some(t.clone()),
                    None => None,
                },
            };
        }
        proof {
            lemma_definite_rest(path@);
        }
        let rest = vstd::slice::slice_subrange(path, 1, path.len());
        assert(rest@ =~= path@.drop_first());
        match self {
            IndexTrie::IndexNode { nested, .. } => {
                let i = path[0];
                if i >= nested.len() {
                    return None;
                }
                match &nested[i] {
                    Some(c) => c.get_tx(rest),
                    None => None,
                }
            },
            _ => None,
        }
    }
}

/// A path at which the trie already holds something cannot be inserted at
/// again: `insert` refuses it.
pub proof fn lemma_occupied_refuses_insert<T, R>(t: IndexTrie<T, R>, path: Seq<Option<usize>>)
    requires
        lookup(t, path) is Some,
    ensures
        !insert_ok(t, path),
    decreases path.len(),
{
    if path.len() > 0 {
        match (t, path[0]) {
            (IndexTrie::IndexNode { nested, .. }, Some(i)) => {
                if i < nested.len() {
                    if let Some(c) = nested@[i as int] {
                        lemma_occupied_refuses_insert(c, path.drop_first());
                    }
                }
            },
            (IndexTrie::WildcardNode { nested: Some(c), .. }, None) => {
                lemma_occupied_refuses_insert(*c, path.drop_first());
            },
            _ => {},
        }
    }
}

/// What an insert at a definite path put there is read back: `get_tx`
/// finds the sender and `take_rx` gives the receiver.
pub proof fn lemma_insert_then_read<T, R>(
    before: IndexTrie<T, R>,
    after: IndexTrie<T, R>,
    path: Seq<usize>,
    tx: T,
    rx: Option<R>,
)
    requires
        insert_ok(before, definite(path)),
        forall|q: Seq<Option<usize>>|
            #[trigger] lookup(after, q) == if q == definite(path) {
                Some((Some(tx), rx))
            } else {
                lookup(before, q)
            },
    ensures
        lookup(after, definite(path)) == Some((Some(tx), rx)),
        rx_at(after, path) == rx,
{
    assert(lookup(after, definite(path)) == Some((Some(tx), rx)));
}

/// Taking a receiver leaves the sender where it was, and a second take at
/// the same path gives nothing.
pub proof fn lemma_take_rx_twice<T, R>(
    before: IndexTrie<T, R>,
    after: IndexTrie<T, R>,
    path: Seq<usize>,
)
    requires
        forall|q: Seq<Option<usize>>|
            #[trigger] lookup(after, q) == if q == definite(path) {
                without_rx(lookup(before, q))
            } else {
                lookup(before, q)
            },
    ensures
        rx_at(after, path) is None,
        match lookup(before, definite(path)) {
            Some((Some(tx), _)) => lookup(after, definite(path)) == Some((Some(tx), None::<R>)),
            _ => lookup(after, definite(path)) is None,
        },
{
    assert(lookup(after, definite(path)) == without_rx(lookup(before, definite(path))));
}

/// Whether every inner node of `t` leads somewhere: an index node has a
/// child, a wildcard node has its child, and no child is empty. Every trie
/// that `from` and `insert` build is well shaped.
pub open spec fn well_shaped<T, R>(t: IndexTrie<T, R>) -> bool
    decreases t,
{
    match t {
        IndexTrie::Empty => true,
        IndexTrie::Leaf { .. } => true,
        IndexTrie::IndexNode { nested, .. } => {
            &&& exists|i: int| 0 <= i < nested@.len() && #[trigger] nested@[i] is Some
            &&& forall|i: int|
                0 <= i < nested@.len() ==> match #[trigger] nested@[i] {
                    Some(c) => !(c is Empty) && well_shaped(c),
                    None => true,
                }
        },
        IndexTrie::WildcardNode { nested, .. } => match nested {
            Some(c) => !(*c is Empty) && well_shaped(*c),
            None => false,
        },
    }
}

/// Whether two paths cannot both be inserted into one trie: they are equal,
/// or after a common start one has a definite position where the other has
/// a wildcard.
pub open spec fn clash(p: Seq<Option<usize>>, q: Seq<Option<usize>>) -> bool
    decreases p.len(),
{
    if p.len() == 0 || q.len() == 0 {
        p.len() == 0 && q.len() == 0
    } else if (p[0] is Some) != (q[0] is Some) {
        true
    } else if p[0] == q[0] {
        clash(p.drop_first(), q.drop_first())
    } else {
        false
    }
}

/// A well-shaped trie that is not empty holds something.
proof fn lemma_some_entry<T, R>(t: IndexTrie<T, R>) -> (p: Seq<Option<usize>>)
    requires
        well_shaped(t),
        !(t is Empty),
    ensures
        lookup(t, p) is Some,
    decreases t,
{
    match t {
        IndexTrie::Empty => seq![],
        IndexTrie::Leaf { .. } => seq![],
        IndexTrie::IndexNode { nested, .. } => {
            let i = choose|i: int| 0 <= i < nested@.len() && #[trigger] nested@[i] is Some;
            let c = nested@[i]->0;
            assert(decreases_to!(t => nested));
            assert(decreases_to!(nested => nested@));
            assert(decreases_to!(nested@ => nested@[i]));
            let pc = lemma_some_entry(c);
            let p = seq![Some(i as usize)] + pc;
            assert(p.drop_first() =~= pc);
            p
        },
        IndexTrie::WildcardNode { nested, .. } => {
            let c = *nested->0;
            let pc = lemma_some_entry(c);
            let p = seq![None::<usize>] + pc;
            assert(p.drop_first() =~= pc);
            p
        },
    }
}

/// A well-shaped trie refuses a path only where the path clashes with one
/// at which it holds something.
proof fn lemma_refused_clash<T, R>(t: IndexTrie<T, R>, q: Seq<Option<usize>>) -> (p: Seq<Option<usize>>)
    requires
        well_shaped(t),
        !insert_ok(t, q),
    ensures
        lookup(t, p) is Some,
        clash(p, q),
    decreases q.len(),
{
    match t {
        IndexTrie::Empty => seq![],
        IndexTrie::Leaf { .. } => seq![],
        IndexTrie::IndexNode { tx, rx, nested } => {
            if q.len() == 0 {
                seq![]
            } else if q[0] is None {
                let i = choose|i: int| 0 <= i < nested@.len() && #[trigger] nested@[i] is Some;
                let c = nested@[i]->0;
                let pc = lemma_some_entry(c);
                let p = seq![Some(i as usize)] + pc;
                assert(p.drop_first() =~= pc);
                p
            } else {
                let i = q[0]->0;
                let c = nested@[i as int]->0;
                let pc = lemma_refused_clash(c, q.drop_first());
                let p = seq![Some(i)] + pc;
                assert(p.drop_first() =~= pc);
                p
            }
        },
        IndexTrie::WildcardNode { tx, rx, nested } => {
            let c = *nested->0;
            if q.len() == 0 {
                seq![]
            } else if q[0] is Some {
                let pc = lemma_some_entry(c);
                let p = seq![None::<usize>] + pc;
                assert(p.drop_first() =~= pc);
                p
            } else {
                let pc = lemma_refused_clash(c, q.drop_first());
                let p = seq![None::<usize>] + pc;
                assert(p.drop_first() =~= pc);
                p
            }
        },
    }
}

/// Where a trie accepts a path, the path clashes with none at which it
/// holds something.
proof fn lemma_accepted_no_clash<T, R>(t: IndexTrie<T, R>, q: Seq<Option<usize>>, p: Seq<Option<usize>>)
    requires
        insert_ok(t, q),
        lookup(t, p) is Some,
    ensures
        !clash(p, q),
    decreases q.len(),
{
    if p.len() > 0 && q.len() > 0 && p[0] == q[0] {
        match (t, q[0]) {
            (IndexTrie::IndexNode { nested, .. }, Some(i)) => {
                lemma_accepted_no_clash(nested@[i as int]->0, q.drop_first(), p.drop_first());
            },
            (IndexTrie::WildcardNode { nested: Some(c), .. }, None) => {
                lemma_accepted_no_clash(*c, q.drop_first(), p.drop_first());
            },
            _ => {},
        }
    }
}

/// Clashing is symmetric.
pub proof fn lemma_clash_symmetric(p: Seq<Option<usize>>, q: Seq<Option<usize>>)
    ensures
        clash(p, q) == clash(q, p),
    decreases p.len(),
{
    if p.len() > 0 && q.len() > 0 && p[0] == q[0] {
        lemma_clash_symmetric(p.drop_first(), q.drop_first());
    }
}

/// A path clashes with itself.
pub proof fn lemma_clash_refl(p: Seq<Option<usize>>)
    ensures
        clash(p, p),
    decreases p.len(),
{
    if p.len() > 0 {
        lemma_clash_refl(p.drop_first());
    }
}

/// Two paths of definite positions clash exactly when they are equal.
pub proof fn lemma_definite_clash(p: Seq<usize>, q: Seq<usize>)
    ensures
        clash(definite(p), definite(q)) == (p == q),
    decreases p.len(),
{
    if p.len() > 0 && q.len() > 0 {
        lemma_definite_rest(p);
        lemma_definite_rest(q);
        lemma_definite_clash(p.drop_first(), q.drop_first());
        if p[0] == q[0] && p.drop_first() == q.drop_first() {
            lemma_cons_eq(p, q);
        }
        if p == q {
            assert(p.drop_first() == q.drop_first());
        }
    } else if p.len() > 0 {
        lemma_definite_rest(p);
    } else if q.len() > 0 {
        lemma_definite_rest(q);
    } else {
        assert(p =~= q);
    }
}

/// Pairwise distinct paths of definite positions never clash, so one trie
/// holds them all.
pub proof fn lemma_distinct_definite_compatible(ps: Seq<Seq<usize>>)
    requires
        forall|i: int, j: int| 0 <= i < j < ps.len() ==> ps[i] != ps[j],
    ensures
        paths_compatible(ps.map_values(|p: Seq<usize>| definite(p))),
{
    let ds = ps.map_values(|p: Seq<usize>| definite(p));
    assert forall|i: int, j: int| 0 <= i < j < ds.len() implies !clash(#[trigger] ds[i], #[trigger] ds[j]) by {
        lemma_definite_clash(ps[i], ps[j]);
    }
}

/// A well-shaped trie that holds entries only at definite paths other than
/// `p` accepts an entry at `p`.
pub proof fn lemma_definite_insert_accepted<T, R>(t: IndexTrie<T, R>, held: Seq<Seq<usize>>, p: Seq<usize>)
    requires
        well_shaped(t),
        forall|x: Seq<Option<usize>>|
            #[trigger] lookup(t, x) is Some ==> exists|k: int| 0 <= k < held.len() && x == definite(held[k]),
        forall|k: int| 0 <= k < held.len() ==> held[k] != p,
    ensures
        insert_ok(t, definite(p)),
{
    if !insert_ok(t, definite(p)) {
        let x = lemma_refused_clash(t, definite(p));
        let k = choose|k: int| 0 <= k < held.len() && x == definite(held[k]);
        lemma_definite_clash(held[k], p);
    }
}

/// The paths of a list of entries.
pub open spec fn entry_paths<T, R>(entries: Seq<(Vec<Option<usize>>, T, Option<R>)>) -> Seq<Seq<Option<usize>>> {
    entries.map_values(|e: (Vec<Option<usize>>, T, Option<R>)| e.0@)
}

/// Whether no two of the paths clash, so that one trie can hold them all.
pub open spec fn paths_compatible(ps: Seq<Seq<Option<usize>>>) -> bool {
    forall|i: int, j: int| 0 <= i < j < ps.len() ==> !clash(#[trigger] ps[i], #[trigger] ps[j])
}

impl<T, R> IndexTrie<T, R> {
    /// A trie that holds each entry at its path, or the empty trie when
    /// there are no entries or two of their paths clash.
    pub fn from_iter(entries: Vec<(Vec<Option<usize>>, T, Option<R>)>) -> (r: IndexTrie<T, R>)
        requires
            forall|j: int| 0 <= j < entries@.len() ==> path_fits((#[trigger] entries@[j]).0@),
        ensures
            (r is Empty) == (entries@.len() == 0 || !paths_compatible(entry_paths(entries@))),
            well_shaped(r),
            !(r is Empty) ==> forall|j: int|
                0 <= j < entries@.len() ==> #[trigger] lookup(r, entries@[j].0@) == Some(
                    (Some(entries@[j].1), entries@[j].2),
                ),
            forall|q: Seq<Option<usize>>|
                (forall|j: int| 0 <= j < entries@.len() ==> entries@[j].0@ != q) ==> #[trigger] lookup(
                    r,
                    q,
                ) is None,
    {
        let ghost es = entries@;
        let ghost ps = entry_paths(es);
        let n = entries.len();
        let mut rest = entries;
        let mut root: IndexTrie<T, R> = IndexTrie::Empty;
        let mut k: usize = 0;
        while k < n
            invariant
                n == es.len(),
                es == entries@,
                ps == entry_paths(es),
                k == 0 ==> root is Empty,
                k <= n,
                rest@ == es.subrange(k as int, n as int),
                forall|j: int| 0 <= j < es.len() ==> path_fits((#[trigger] es[j]).0@),
                well_shaped(root),
                forall|j: int| 0 <= j < k ==> #[trigger] lookup(root, es[j].0@) == Some(
                    (Some(es[j].1), es[j].2),
                ),
                forall|q: Seq<Option<usize>>|
                    (forall|j: int| 0 <= j < k ==> es[j].0@ != q) ==> #[trigger] lookup(root, q) is None,
                forall|i: int, j: int| 0 <= i < j < k ==> !clash(#[trigger] ps[i], #[trigger] ps[j]),
                k > 0 ==> !(root is Empty),
            decreases n - k,
        {
            let (path, tx, rx) = rest.remove(0);
            assert(es[k as int] == (path, tx, rx));
            let ghost before = root;
            let ok = root.insert(path.as_slice(), tx, rx);
            if !ok {
                proof {
                    let p = lemma_refused_clash(before, path@);
                    let j = choose|j: int| 0 <= j < k && es[j].0@ == p;
                    lemma_clash_symmetric(p, path@);
                    assert(ps[j] == p);
                    assert(ps[k as int] == path@);
                    assert(clash(ps[j], ps[k as int]));
                }
                return IndexTrie::Empty;
            }
            proof {
                assert forall|i: int, j: int| 0 <= i < j < k + 1 implies !clash(#[trigger] ps[i], #[trigger] ps[j]) by {
                    if j == k {
                        assert(ps[i] == es[i].0@);
                        assert(lookup(before, es[i].0@) is Some);
                        lemma_accepted_no_clash(before, path@, es[i].0@);
                    }
                }
                assert forall|j: int| 0 <= j < k + 1 implies #[trigger] lookup(root, es[j].0@) == Some(
                    (Some(es[j].1), es[j].2),
                ) by {
                    if j < k {
                        lemma_accepted_no_clash(before, path@, es[j].0@);
                        if es[j].0@ == path@ {
                            lemma_clash_refl(path@);
                        }
                    }
                }
                assert(lookup(root, path@) is Some);
            }
            k = k + 1;
            assert(rest@ =~= es.subrange(k as int, n as int));
        }
        assert(paths_compatible(ps));
        root
    }
}

} // verus!
