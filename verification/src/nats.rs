//! The NATS transport's subjects.

use vstd::prelude::*;
use vstd::utf8::encode_utf8;

use crate::conn::{
    clash, definite, lemma_clash_refl, lemma_definite_clash, lemma_clash_symmetric, lemma_cons_eq, lemma_definite_rest,
    lemma_rest_fits, path_fits, paths_compatible,
};
use vstd::string::{StringExecFns, StringSliceAdditionalSpecFns};

use crate::subject::{
    lemma_invocation_bytes, lemma_join_indices_bytes, lemma_join_segments_bytes, lemma_protocol_bytes,
    concat, is_alphanumeric, index_segments, invocation, invocation_string, join_indices, join_segments,
    wildcard_segments,
};
use crate::subject::unique_id;
use crate::handshake::{
    connect, connected, corrupted_error, error_with, fails_with, plain_error, response_failure,
    status_failure, ErrorKind, HandshakeAction, HandshakeEvent, HandshakeState,
};

verus! {

/// Protocol name that leads every invocation subject.
pub const PROTOCOL: &'static str = "wrpc.0.0.1";

/// Subject carrying the parameters of the invocation at `prefix`.
#[must_use]
pub fn param_subject(prefix: &str) -> (r: String)
    ensures
        r@ == prefix@ + ".params"@,
{
    proof {
        reveal_strlit(".params");
    }
    concat(prefix, ".params")
}

/// Subject carrying the results of the invocation at `prefix`.
#[must_use]
pub fn result_subject(prefix: &str) -> (r: String)
    ensures
        r@ == prefix@ + ".results"@,
{
    proof {
        reveal_strlit(".results");
    }
    concat(prefix, ".results")
}

/// `prefix` followed by the indices of `path` in decimal, separated by `.`
/// (an empty prefix is left out).
#[must_use]
pub fn index_path(prefix: &str, path: &[usize]) -> (r: String)
    requires
        prefix.spec_bytes().len() + path.len() * 2 <= usize::MAX,
    ensures
        r@ == join_indices(prefix@, path@, '.'),
        encode_utf8(r@).len() <= prefix.spec_bytes().len() + 21 * path.len(),
{
    let r = index_segments(String::from_str(prefix), path, '.');
    proof {
        lemma_join_indices_bytes(prefix@, path@, '.');
    }
    r
}

/// `prefix` followed by the segments of `path` separated by `.`: the
/// decimal index, or `*` where any index matches (an empty prefix is left
/// out).
#[must_use]
pub fn subscribe_path(prefix: &str, path: &[Option<usize>]) -> (r: String)
    requires
        prefix.spec_bytes().len() + path.len() * 2 <= usize::MAX,
    ensures
        r@ == join_segments(prefix@, path@, '.'),
        encode_utf8(r@).len() <= prefix.spec_bytes().len() + 21 * path.len(),
{
    let r = wildcard_segments(String::from_str(prefix), path, '.');
    proof {
        lemma_join_segments_bytes(prefix@, path@, '.');
    }
    r
}

/// Subject on which `func` of `instance` is invoked: the prefix, the protocol,
/// the instance and the function, separated by `.`; an empty prefix and an
/// empty instance are left out.
#[must_use]
pub fn invocation_subject(prefix: &str, instance: &str, func: &str) -> (r: String)
    requires
        prefix.spec_bytes().len() + 10 + instance.spec_bytes().len() + func.spec_bytes().len() + 3
            <= usize::MAX,
    ensures
        r@ == invocation(prefix@, PROTOCOL@, instance@, func@, '.'),
        encode_utf8(r@).len() <= prefix.spec_bytes().len() + 10 + instance.spec_bytes().len()
            + func.spec_bytes().len() + 3,
{
    let r = invocation_string(prefix, PROTOCOL, instance, func, '.');
    proof {
        lemma_invocation_bytes(prefix@, PROTOCOL@, instance@, func@, '.');
        lemma_protocol_bytes();
    }
    r
}

/// A fresh inbox subject: `inbox` followed by a unique identifier of 22
/// ASCII letters and digits.
pub fn new_inbox(inbox: &str) -> (r: String)
    ensures
        r@.len() == inbox@.len() + 22,
        r@.subrange(0, inbox@.len() as int) == inbox@,
        forall|i: int|
            inbox@.len() <= i < r@.len() ==> is_alphanumeric(#[trigger] r@[i]),
{
    let id = unique_id();
    let r = concat(inbox, id.as_str());
    proof {
        assert(r@.subrange(0, inbox@.len() as int) =~= inbox@);
        assert forall|i: int| inbox@.len() <= i < r@.len() implies is_alphanumeric(#[trigger] r@[i]) by {
            assert(r@[i] == id@[i - inbox@.len()]);
        }
    }
    r
}

/// A trie of subscriptions, keyed by paths of positions; `None` in a path is
/// a wildcard position.
pub enum IndexTrie<S> {
    Empty,
    Leaf(S),
    IndexNode { subscriber: Option<S>, nested: Vec<Option<IndexTrie<S>>> },
    WildcardNode { subscriber: Option<S>, nested: Option<Box<IndexTrie<S>>> },
}

/// The subscription that `t` holds at `path`, if any.
pub open spec fn trie_lookup<S>(t: IndexTrie<S>, path: Seq<Option<usize>>) -> Option<S>
    decreases path.len(),
{
    if path.len() == 0 {
        match t {
            IndexTrie::Empty => None,
            IndexTrie::Leaf(s) => Some(s),
            IndexTrie::IndexNode { subscriber, .. } => subscriber,
            IndexTrie::WildcardNode { subscriber, .. } => subscriber,
        }
    } else {
        match (t, path[0]) {
            (IndexTrie::IndexNode { nested, .. }, Some(i)) => if i < nested.len() {
                match nested@[i as int] {
                    Some(c) => trie_lookup(c, path.drop_first()),
                    None => None,
                }
            } else {
                None
            },
            (IndexTrie::WildcardNode { nested: Some(c), .. }, None) => trie_lookup(*c, path.drop_first()),
            _ => None,
        }
    }
}

/// Whether inserting at `path` into `t` succeeds: every node along the path
/// is of the kind its next position asks for (a leaf grows into one), and
/// the node at the path holds no subscription yet.
pub open spec fn trie_insert_ok<S>(t: IndexTrie<S>, path: Seq<Option<usize>>) -> bool
    decreases path.len(),
{
    match t {
        IndexTrie::Empty => true,
        IndexTrie::Leaf(_) => path.len() > 0,
        IndexTrie::IndexNode { subscriber, nested } => if path.len() == 0 {
            subscriber is None
        } else {
            match path[0] {
                Some(i) => if i < nested.len() {
                    match nested@[i as int] {
                        Some(c) => trie_insert_ok(c, path.drop_first()),
                        None => true,
                    }
                } else {
                    true
                },
                None => false,
            }
        },
        IndexTrie::WildcardNode { subscriber, nested } => if path.len() == 0 {
            subscriber is None
        } else {
            match path[0] {
                None => match nested {
                    Some(c) => trie_insert_ok(*c, path.drop_first()),
                    None => true,
                },
                Some(_) => false,
            }
        },
    }
}

/// Whether the node at the definite `path` of `t` is a wildcard node.
pub open spec fn trie_wild_at<S>(t: IndexTrie<S>, path: Seq<usize>) -> bool
    decreases path.len(),
{
    if path.len() == 0 {
        t is WildcardNode
    } else {
        match t {
            IndexTrie::IndexNode { nested, .. } => if path[0] < nested.len() {
                match nested@[path[0] as int] {
                    Some(c) => trie_wild_at(c, path.drop_first()),
                    None => false,
                }
            } else {
                false
            },
            _ => false,
        }
    }
}

/// What taking at the definite `path` of `t` gives: the subscription there,
/// unless the node there is a wildcard node.
pub open spec fn trie_taken<S>(t: IndexTrie<S>, path: Seq<usize>) -> Option<S> {
    if trie_wild_at(t, path) {
        None
    } else {
        trie_lookup(t, definite(path))
    }
}

/// Whether taking at the definite `path` removes what `t` holds at `q`: the
/// subscription at the path itself, or everything under a wildcard node
/// there.
pub open spec fn trie_removed<S>(t: IndexTrie<S>, path: Seq<usize>, q: Seq<Option<usize>>) -> bool {
    q == definite(path) || (trie_wild_at(t, path) && definite(path).is_prefix_of(q))
}

impl<S> IndexTrie<S> {
    /// A trie that holds `sub` at `path` and nothing else.
    pub fn from(path: &[Option<usize>], sub: S) -> (r: IndexTrie<S>)
        requires
            path_fits(path@),
        ensures
            forall|q: Seq<Option<usize>>|
                #[trigger] trie_lookup(r, q) == if q == path@ {
                    Some(sub)
                } else {
                    None::<S>
                },
            trie_well_shaped(r),
            !(r is Empty),
        decreases path.len(),
    {
        if path.len() == 0 {
            let r = IndexTrie::Leaf(sub);
            assert forall|q: Seq<Option<usize>>|
                #[trigger] trie_lookup(r, q) == if q == path@ {
                    Some(sub)
                } else {
                    None::<S>
                } by {
                if q.len() == 0 {
                    assert(q =~= path@);
                }
            }
            return r;
        }
        let rest = vstd::slice::slice_subrange(path, 1, path.len());
        assert(rest@ =~= path@.drop_first());
        proof {
            lemma_rest_fits(path@);
        }
        let child = IndexTrie::from(rest, sub);
        match path[0] {
            None => {
                assert(path@[0] is None);
                let r = IndexTrie::WildcardNode { subscriber: None, nested: Some(Box::new(child)) };
                assert forall|q: Seq<Option<usize>>|
                    #[trigger] trie_lookup(r, q) == if q == path@ {
                        Some(sub)
                    } else {
                        None::<S>
                    } by {
                    if q.len() > 0 && q[0] is None {
                        assert(trie_lookup(child, q.drop_first()) == trie_lookup(r, q));
                        if q.drop_first() == path@.drop_first() {
                            lemma_cons_eq(q, path@);
                        }
                    }
                    if q == path@ {
                        assert(q.drop_first() == rest@);
                    }
                }
                r
            },
            Some(i) => {
                assert(path@[0] is Some);
                let mut nested: Vec<Option<IndexTrie<S>>> = Vec::new();
                while nested.len() < i
                    invariant
                        nested.len() <= i,
                        forall|j: int| 0 <= j < nested.len() ==> nested@[j] is None,
                    decreases i - nested.len(),
                {
                    nested.push(None);
                }
                nested.push(Some(child));
                assert(nested@[i as int] is Some);
                let r = IndexTrie::IndexNode { subscriber: None, nested };
                assert forall|q: Seq<Option<usize>>|
                    #[trigger] trie_lookup(r, q) == if q == path@ {
                        Some(sub)
                    } else {
                        None::<S>
                    } by {
                    if q.len() > 0 && q[0] == Some(i) {
                        assert(trie_lookup(child, q.drop_first()) == trie_lookup(r, q));
                        if q.drop_first() == path@.drop_first() {
                            lemma_cons_eq(q, path@);
                        }
                    }
                    if q == path@ {
                        assert(q.drop_first() == rest@);
                    }
                }
                r
            },
        }
    }

    /// Whether the trie holds nothing at all, being empty.
    pub fn is_empty(&self) -> (r: bool)
        ensures
            r == (*self is Empty),
    {
        match self {
            IndexTrie::Empty => true,
            _ => false,
        }
    }

    /// Inserts `sub` at `path`, and says whether it could: on success the
    /// trie holds it at `path` and is otherwise unchanged; on failure it
    /// holds what it held.
    pub fn insert(&mut self, path: &[Option<usize>], sub: S) -> (r: bool)
        requires
            path_fits(path@),
        ensures
            r == trie_insert_ok(*old(self), path@),
            forall|q: Seq<Option<usize>>|
                #[trigger] trie_lookup(*final(self), q) == if r && q == path@ {
                    Some(sub)
                } else {
                    trie_lookup(*old(self), q)
                },
            trie_well_shaped(*old(self)) && r ==> trie_well_shaped(*final(self)),
    {
        let mut cur = IndexTrie::Empty;
        std::mem::swap(self, &mut cur);
        let (r, next) = trie_insert_owned(cur, path, sub);
        *self = next;
        r
    }

    /// Takes the subscription at the definite `path`. A wildcard node there
    /// gives nothing and is dropped with everything under it.
    pub fn take(&mut self, path: &[usize]) -> (r: Option<S>)
        ensures
            r == trie_taken(*old(self), path@),
            forall|q: Seq<Option<usize>>|
                #[trigger] trie_lookup(*final(self), q) == if trie_removed(*old(self), path@, q) {
                    None
                } else {
                    trie_lookup(*old(self), q)
                },
    {
        let mut cur = IndexTrie::Empty;
        std::mem::swap(self, &mut cur);
        let (r, next) = trie_take_owned(cur, path);
        *self = next;
        r
    }
}

/// Inserts into `t`, giving whether it succeeded and the trie after.
fn trie_insert_owned<S>(t: IndexTrie<S>, path: &[Option<usize>], sub: S) -> (r: (bool, IndexTrie<S>))
    requires
        path_fits(path@),
    ensures
        r.0 == trie_insert_ok(t, path@),
        forall|q: Seq<Option<usize>>|
            #[trigger] trie_lookup(r.1, q) == if r.0 && q == path@ {
                Some(sub)
            } else {
                trie_lookup(t, q)
            },
        trie_well_shaped(t) && r.0 ==> trie_well_shaped(r.1),
    decreases path.len(),
{
    let ghost s = sub;
    match t {
        IndexTrie::Empty => {
            let n = IndexTrie::from(path, sub);
            (true, n)
        },
        IndexTrie::Leaf(old_sub) => {
            let ghost old_t = IndexTrie::<S>::Leaf(old_sub);
            if path.len() == 0 {
                return (false, IndexTrie::Leaf(old_sub));
            }
            let rest = vstd::slice::slice_subrange(path, 1, path.len());
            assert(rest@ =~= path@.drop_first());
            proof {
                lemma_rest_fits(path@);
            }
            let child = IndexTrie::from(rest, sub);
            match path[0] {
                None => {
                    assert(path@[0] is None);
                    let n = IndexTrie::WildcardNode { subscriber: Some(old_sub), nested: Some(Box::new(child)) };
                    assert forall|q: Seq<Option<usize>>|
                        #[trigger] trie_lookup(n, q) == if q == path@ {
                            Some(s)
                        } else {
                            trie_lookup(old_t, q)
                        } by {
                        if q.len() > 0 && q[0] is None {
                            assert(trie_lookup(n, q) == trie_lookup(child, q.drop_first()));
                            if q.drop_first() == path@.drop_first() {
                                lemma_cons_eq(q, path@);
                            }
                        }
                        if q == path@ {
                            assert(q.drop_first() == rest@);
                        }
                    }
                    (true, n)
                },
                Some(i) => {
                    assert(path@[0] is Some);
                    let mut nested: Vec<Option<IndexTrie<S>>> = Vec::new();
                    while nested.len() < i
                        invariant
                            nested.len() <= i,
                            forall|j: int| 0 <= j < nested.len() ==> nested@[j] is None,
                        decreases i - nested.len(),
                    {
                        nested.push(None);
                    }
                    nested.push(Some(child));
                    assert(nested@[i as int] is Some);
                    let n = IndexTrie::IndexNode { subscriber: Some(old_sub), nested };
                    assert forall|q: Seq<Option<usize>>|
                        #[trigger] trie_lookup(n, q) == if q == path@ {
                            Some(s)
                        } else {
                            trie_lookup(old_t, q)
                        } by {
                        if q.len() > 0 && q[0] == Some(i) {
                            assert(trie_lookup(n, q) == trie_lookup(child, q.drop_first()));
                            if q.drop_first() == path@.drop_first() {
                                lemma_cons_eq(q, path@);
                            }
                        }
                        if q == path@ {
                            assert(q.drop_first() == rest@);
                        }
                    }
                    (true, n)
                },
            }
        },
        IndexTrie::IndexNode { subscriber, mut nested } => {
            let ghost old_t = IndexTrie::IndexNode { subscriber, nested };
            let ghost old_nested = nested@;
            if path.len() == 0 {
                if subscriber.is_none() {
                    let n = IndexTrie::IndexNode { subscriber: Some(sub), nested };
                    assert forall|q: Seq<Option<usize>>|
                        #[trigger] trie_lookup(n, q) == if q == path@ {
                            Some(s)
                        } else {
                            trie_lookup(old_t, q)
                        } by {
                        if q.len() == 0 {
                            assert(q =~= path@);
                        }
                    }
                    return (true, n);
                }
                return (false, IndexTrie::IndexNode { subscriber, nested });
            }
            match path[0] {
                None => {
                    assert(path@[0] is None);
                    (false, IndexTrie::IndexNode { subscriber, nested })
                },
                Some(i) => {
                    assert(path@[0] is Some);
                    let rest = vstd::slice::slice_subrange(path, 1, path.len());
                    assert(rest@ =~= path@.drop_first());
                    proof {
                        lemma_rest_fits(path@);
                    }
                    if nested.len() <= i {
                        while nested.len() <= i
                            invariant
                                old_nested.len() <= nested.len(),
                                forall|j: int| 0 <= j < old_nested.len() ==> nested@[j] == old_nested[j],
                                forall|j: int| old_nested.len() <= j < nested.len() ==> nested@[j] is None,
                            decreases i + 1 - nested.len(),
                        {
                            nested.push(None);
                        }
                    }
                    let c = nested[i].take();
                    let (ok, c2) = match c {
                        Some(c) => {
                            let (ok, c2) = trie_insert_owned(c, rest, sub);
                            (ok, c2)
                        },
                        None => {
                            let c2 = IndexTrie::from(rest, sub);
                            (true, c2)
                        },
                    };
                    nested[i] = Some(c2);
                    proof {
                        if ok {
                            assert(trie_lookup(c2, rest@) is Some);
                        }
                        if ok && trie_well_shaped(old_t) {
                            assert(nested@[i as int] is Some);
                            assert forall|j: int| 0 <= j < nested@.len() implies match #[trigger] nested@[j] {
                                Some(c) => !(c is Empty) && trie_well_shaped(c),
                                None => true,
                            } by {
                                if j != i && j < old_nested.len() {
                                    assert(nested@[j] == old_nested[j]);
                                }
                            }
                        }
                    }
                    let n = IndexTrie::IndexNode { subscriber, nested };
                    assert(ok == trie_insert_ok(old_t, path@));
                    assert forall|q: Seq<Option<usize>>|
                        #[trigger] trie_lookup(n, q) == if ok && q == path@ {
                            Some(s)
                        } else {
                            trie_lookup(old_t, q)
                        } by {
                        if q.len() > 0 && q[0] == Some(i) {
                            assert(trie_lookup(n, q) == trie_lookup(c2, q.drop_first()));
                            if q.drop_first() == path@.drop_first() {
                                lemma_cons_eq(q, path@);
                            }
                        }
                        if q == path@ {
                            assert(q.drop_first() == rest@);
                        }
                    }
                    (ok, n)
                },
            }
        },
        IndexTrie::WildcardNode { subscriber, nested } => {
            let ghost old_t = IndexTrie::WildcardNode { subscriber, nested };
            if path.len() == 0 {
                if subscriber.is_none() {
                    let n = IndexTrie::WildcardNode { subscriber: Some(sub), nested };
                    assert forall|q: Seq<Option<usize>>|
                        #[trigger] trie_lookup(n, q) == if q == path@ {
                            Some(s)
                        } else {
                            trie_lookup(old_t, q)
                        } by {
                        if q.len() == 0 {
                            assert(q =~= path@);
                        }
                    }
                    return (true, n);
                }
                return (false, IndexTrie::WildcardNode { subscriber, nested });
            }
            match path[0] {
                Some(_) => {
                    assert(path@[0] is Some);
                    (false, IndexTrie::WildcardNode { subscriber, nested })
                },
                None => {
                    assert(path@[0] is None);
                    let rest = vstd::slice::slice_subrange(path, 1, path.len());
                    assert(rest@ =~= path@.drop_first());
                    proof {
                        lemma_rest_fits(path@);
                    }
                    let (ok, c2) = match nested {
                        Some(c) => {
                            let (ok, c2) = trie_insert_owned(*c, rest, sub);
                            (ok, c2)
                        },
                        None => {
                            let c2 = IndexTrie::from(rest, sub);
                            (true, c2)
                        },
                    };
                    proof {
                        if ok {
                            assert(trie_lookup(c2, rest@) is Some);
                        }
                    }
                    let n = IndexTrie::WildcardNode { subscriber, nested: Some(Box::new(c2)) };
                    assert forall|q: Seq<Option<usize>>|
                        #[trigger] trie_lookup(n, q) == if ok && q == path@ {
                            Some(s)
                        } else {
                            trie_lookup(old_t, q)
                        } by {
                        if q.len() > 0 && q[0] is None {
                            assert(trie_lookup(n, q) == trie_lookup(c2, q.drop_first()));
                            if q.drop_first() == path@.drop_first() {
                                lemma_cons_eq(q, path@);
                            }
                        }
                        if q == path@ {
                            assert(q.drop_first() == rest@);
                        }
                    }
                    (ok, n)
                },
            }
        },
    }
}

/// Takes out of `t` at the definite `path`.
fn trie_take_owned<S>(t: IndexTrie<S>, path: &[usize]) -> (r: (Option<S>, IndexTrie<S>))
    ensures
        r.0 == trie_taken(t, path@),
        forall|q: Seq<Option<usize>>|
            #[trigger] trie_lookup(r.1, q) == if trie_removed(t, path@, q) {
                None
            } else {
                trie_lookup(t, q)
            },
    decreases path.len(),
{
    if path.len() == 0 {
        assert(definite(path@) =~= Seq::<Option<usize>>::empty());
        match t {
            IndexTrie::Empty => (None, IndexTrie::Empty),
            IndexTrie::Leaf(s) => {
                assert forall|q: Seq<Option<usize>>|
                    #[trigger] trie_lookup(IndexTrie::<S>::Empty, q) == if trie_removed(IndexTrie::Leaf(s), path@, q) {
                        None
                    } else {
                        trie_lookup(IndexTrie::Leaf(s), q)
                    } by {
                    if q.len() == 0 {
                        assert(q =~= definite(path@));
                    }
                }
                (Some(s), IndexTrie::Empty)
            },
            IndexTrie::IndexNode { subscriber, nested } => {
                let ghost old_t = IndexTrie::IndexNode { subscriber, nested };
                let n = if nested.len() == 0 {
                    IndexTrie::Empty
                } else {
                    IndexTrie::IndexNode { subscriber: None, nested }
                };
                assert forall|q: Seq<Option<usize>>|
                    #[trigger] trie_lookup(n, q) == if trie_removed(old_t, path@, q) {
                        None
                    } else {
                        trie_lookup(old_t, q)
                    } by {
                    if q.len() == 0 {
                        assert(q =~= definite(path@));
                    }
                }
                (subscriber, n)
            },
            IndexTrie::WildcardNode { subscriber, nested } => {
                let ghost old_t = IndexTrie::WildcardNode { subscriber, nested };
                assert forall|q: Seq<Option<usize>>|
                    #[trigger] trie_lookup(IndexTrie::<S>::Empty, q) == if trie_removed(old_t, path@, q) {
                        None
                    } else {
                        trie_lookup(old_t, q)
                    } by {
                    assert(definite(path@).is_prefix_of(q));
                }
                (None, IndexTrie::Empty)
            },
        }
    } else {
        proof {
            lemma_definite_rest(path@);
        }
        let i = path[0];
        let rest = vstd::slice::slice_subrange(path, 1, path.len());
        assert(rest@ =~= path@.drop_first());
        match t {
            IndexTrie::IndexNode { subscriber, mut nested } => {
                let ghost old_t = IndexTrie::IndexNode { subscriber, nested };
                let ghost old_nested = nested@;
                if i >= nested.len() {
                    let n = IndexTrie::IndexNode { subscriber, nested };
                    assert forall|q: Seq<Option<usize>>|
                        #[trigger] trie_lookup(n, q) == if trie_removed(old_t, path@, q) {
                            None
                        } else {
                            trie_lookup(old_t, q)
                        } by {
                        if q == definite(path@) {
                            assert(q[0] == Some(i));
                        }
                    }
                    return (None, n);
                }
                let c = nested[i].take();
                match c {
                    None => {
                        nested[i] = None;
                        assert(nested@ =~= old_nested);
                        let n = IndexTrie::IndexNode { subscriber, nested };
                        assert forall|q: Seq<Option<usize>>|
                            #[trigger] trie_lookup(n, q) == if trie_removed(old_t, path@, q) {
                                None
                            } else {
                                trie_lookup(old_t, q)
                            } by {
                            if q == definite(path@) {
                                assert(q[0] == Some(i));
                            }
                        }
                        (None, n)
                    },
                    Some(c) => {
                        let ghost c0 = c;
                        let (r, c2) = trie_take_owned(c, rest);
                        nested[i] = Some(c2);
                        let n = IndexTrie::IndexNode { subscriber, nested };
                        assert forall|q: Seq<Option<usize>>|
                            #[trigger] trie_lookup(n, q) == if trie_removed(old_t, path@, q) {
                                None
                            } else {
                                trie_lookup(old_t, q)
                            } by {
                            if q.len() > 0 && q[0] == Some(i) {
                                assert(trie_lookup(n, q) == trie_lookup(c2, q.drop_first()));
                                assert(trie_lookup(old_t, q) == trie_lookup(c0, q.drop_first()));
                                assert(trie_removed(old_t, path@, q) == trie_removed(c0, rest@, q.drop_first())) by {
                                    if q.drop_first() == definite(rest@) {
                                        lemma_cons_eq(q, definite(path@));
                                    }
                                    if q == definite(path@) {
                                        assert(q.drop_first() == definite(rest@));
                                    }
                                    if definite(rest@).is_prefix_of(q.drop_first()) {
                                        assert(definite(path@).is_prefix_of(q)) by {
                                            assert forall|k: int| 0 <= k < definite(path@).len() implies definite(path@)[k] == q[k] by {
                                                if k > 0 {
                                                    assert(definite(path@)[k] == definite(rest@)[k - 1]);
                                                    assert(q[k] == q.drop_first()[k - 1]);
                                                }
                                            }
                                        }
                                    }
                                    if definite(path@).is_prefix_of(q) {
                                        assert(definite(rest@).is_prefix_of(q.drop_first())) by {
                                            assert forall|k: int| 0 <= k < definite(rest@).len() implies definite(rest@)[k] == q.drop_first()[k] by {
                                                assert(definite(rest@)[k] == definite(path@)[k + 1]);
                                            }
                                        }
                                    }
                                }
                            }
                            if trie_removed(old_t, path@, q) {
                                assert(q.len() > 0 && q[0] == definite(path@)[0]);
                            }
                        }
                        (r, n)
                    },
                }
            },
            IndexTrie::Empty => (None, IndexTrie::Empty),
            IndexTrie::Leaf(s) => (None, IndexTrie::Leaf(s)),
            IndexTrie::WildcardNode { subscriber, nested } => (None, IndexTrie::WildcardNode { subscriber, nested }),
        }
    }
}


/// A path at which the trie already holds a subscription cannot be inserted
/// at again: `insert` refuses it.
pub proof fn lemma_occupied_refuses_insert<S>(t: IndexTrie<S>, path: Seq<Option<usize>>)
    requires
        trie_lookup(t, path) is Some,
    ensures
        !trie_insert_ok(t, path),
    decreases path.len(),
{
    if path.len() > 0 {
        match (t, path[0]) {
            (IndexTrie::IndexNode { nested, .. }, Some(i)) => {
                if i < nested.len() {
                    if let Some(c) = nested@[i as int] {
                        lemma_occupied_refuses_insert(c, path.drop_first());
                    }
                }
            },
            (IndexTrie::WildcardNode { nested: Some(c), .. }, None) => {
                lemma_occupied_refuses_insert(*c, path.drop_first());
            },
            _ => {},
        }
    }
}

/// Once `take` has run at a definite path, a second `take` there gives
/// nothing.
pub proof fn lemma_take_twice<S>(before: IndexTrie<S>, after: IndexTrie<S>, path: Seq<usize>)
    requires
        forall|q: Seq<Option<usize>>|
            #[trigger] trie_lookup(after, q) == if trie_removed(before, path, q) {
                None
            } else {
                trie_lookup(before, q)
            },
    ensures
        trie_taken(after, path) is None,
{
    assert(trie_lookup(after, definite(path)) is None);
}

/// Whether every inner node of `t` leads somewhere: an index node has a
/// child, a wildcard node has its child, and no child is empty. Every trie
/// that `from` and `insert` build is well shaped.
pub open spec fn trie_well_shaped<S>(t: IndexTrie<S>) -> bool
    decreases t,
{
    match t {
        IndexTrie::Empty => true,
        IndexTrie::Leaf(_) => true,
        IndexTrie::IndexNode { nested, .. } => {
            &&& exists|i: int| 0 <= i < nested@.len() && #[trigger] nested@[i] is Some
            &&& forall|i: int|
                0 <= i < nested@.len() ==> match #[trigger] nested@[i] {
                    Some(c) => !(c is Empty) && trie_well_shaped(c),
                    None => true,
                }
        },
        IndexTrie::WildcardNode { nested, .. } => match nested {
            Some(c) => !(*c is Empty) && trie_well_shaped(*c),
            None => false,
        },
    }
}

/// A well-shaped trie that is not empty holds something.
proof fn lemma_some_sub<S>(t: IndexTrie<S>) -> (p: Seq<Option<usize>>)
    requires
        trie_well_shaped(t),
        !(t is Empty),
    ensures
        trie_lookup(t, p) is Some,
    decreases t,
{
    match t {
        IndexTrie::Empty => seq![],
        IndexTrie::Leaf(_) => seq![],
        IndexTrie::IndexNode { nested, .. } => {
            let i = choose|i: int| 0 <= i < nested@.len() && #[trigger] nested@[i] is Some;
            let c = nested@[i]->0;
            assert(decreases_to!(t => nested));
            assert(decreases_to!(nested => nested@));
            assert(decreases_to!(nested@ => nested@[i]));
            let pc = lemma_some_sub(c);
            let p = seq![Some(i as usize)] + pc;
            assert(p.drop_first() =~= pc);
            p
        },
        IndexTrie::WildcardNode { nested, .. } => {
            let c = *nested->0;
            let pc = lemma_some_sub(c);
            let p = seq![None::<usize>] + pc;
            assert(p.drop_first() =~= pc);
            p
        },
    }
}

/// A well-shaped trie refuses a path only where the path clashes with one
/// at which it holds a subscription.
proof fn lemma_refused_clash<S>(t: IndexTrie<S>, q: Seq<Option<usize>>) -> (p: Seq<Option<usize>>)
    requires
        trie_well_shaped(t),
        !trie_insert_ok(t, q),
    ensures
        trie_lookup(t, p) is Some,
        clash(p, q),
    decreases q.len(),
{
    match t {
        IndexTrie::Empty => seq![],
        IndexTrie::Leaf(_) => seq![],
        IndexTrie::IndexNode { nested, .. } => {
            if q.len() == 0 {
                seq![]
            } else if q[0] is None {
                let i = choose|i: int| 0 <= i < nested@.len() && #[trigger] nested@[i] is Some;
                let c = nested@[i]->0;
                let pc = lemma_some_sub(c);
                let p = seq![Some(i as usize)] + pc;
                assert(p.drop_first() =~= pc);
                p
            } else {
                let i = q[0]->0;
                let c = nested@[i as int]->0;
                let pc = lemma_refused_clash(c, q.drop_first());
                let p = seq![Some(i)] + pc;
                assert(p.drop_first() =~= pc);
                p
            }
        },
        IndexTrie::WildcardNode { nested, .. } => {
            let c = *nested->0;
            if q.len() == 0 {
                seq![]
            } else if q[0] is Some {
                let pc = lemma_some_sub(c);
                let p = seq![None::<usize>] + pc;
                assert(p.drop_first() =~= pc);
                p
            } else {
                let pc = lemma_refused_clash(c, q.drop_first());
                let p = seq![None::<usize>] + pc;
                assert(p.drop_first() =~= pc);
                p
            }
        },
    }
}

/// Where a trie accepts a path, the path clashes with none at which it
/// holds a subscription.
proof fn lemma_accepted_no_clash<S>(t: IndexTrie<S>, q: Seq<Option<usize>>, p: Seq<Option<usize>>)
    requires
        trie_insert_ok(t, q),
        trie_lookup(t, p) is Some,
    ensures
        !clash(p, q),
    decreases q.len(),
{
    if p.len() > 0 && q.len() > 0 && p[0] == q[0] {
        match (t, q[0]) {
            (IndexTrie::IndexNode { nested, .. }, Some(i)) => {
                lemma_accepted_no_clash(nested@[i as int]->0, q.drop_first(), p.drop_first());
            },
            (IndexTrie::WildcardNode { nested: Some(c), .. }, None) => {
                lemma_accepted_no_clash(*c, q.drop_first(), p.drop_first());
            },
            _ => {},
        }
    }
}

/// A well-shaped trie that holds subscriptions only at definite paths other
/// than `p` accepts one at `p`.
pub proof fn lemma_definite_insert_accepted<S>(t: IndexTrie<S>, held: Seq<Seq<usize>>, p: Seq<usize>)
    requires
        trie_well_shaped(t),
        forall|x: Seq<Option<usize>>|
            #[trigger] trie_lookup(t, x) is Some ==> exists|k: int| 0 <= k < held.len() && x == definite(held[k]),
        forall|k: int| 0 <= k < held.len() ==> held[k] != p,
    ensures
        trie_insert_ok(t, definite(p)),
{
    if !trie_insert_ok(t, definite(p)) {
        let x = lemma_refused_clash(t, definite(p));
        let k = choose|k: int| 0 <= k < held.len() && x == definite(held[k]);
        lemma_definite_clash(held[k], p);
    }
}

/// The paths of a list of subscriptions.
pub open spec fn sub_paths<S>(entries: Seq<(Vec<Option<usize>>, S)>) -> Seq<Seq<Option<usize>>> {
    entries.map_values(|e: (Vec<Option<usize>>, S)| e.0@)
}

impl<S> IndexTrie<S> {
    /// A trie that holds each subscription at its path, or the empty trie
    /// when there are none or two of their paths clash.
    pub fn from_iter(entries: Vec<(Vec<Option<usize>>, S)>) -> (r: IndexTrie<S>)
        requires
            forall|j: int| 0 <= j < entries@.len() ==> path_fits((#[trigger] entries@[j]).0@),
        ensures
            (r is Empty) == (entries@.len() == 0 || !paths_compatible(sub_paths(entries@))),
            trie_well_shaped(r),
            !(r is Empty) ==> forall|j: int|
                0 <= j < entries@.len() ==> #[trigger] trie_lookup(r, entries@[j].0@) == Some(
                    entries@[j].1,
                ),
            forall|q: Seq<Option<usize>>|
                (forall|j: int| 0 <= j < entries@.len() ==> entries@[j].0@ != q) ==> #[trigger] trie_lookup(
                    r,
                    q,
                ) is None,
    {
        let ghost es = entries@;
        let ghost ps = sub_paths(es);
        let n = entries.len();
        let mut rest = entries;
        let mut root: IndexTrie<S> = IndexTrie::Empty;
        let mut k: usize = 0;
        while k < n
            invariant
                n == es.len(),
                es == entries@,
                ps == sub_paths(es),
                k == 0 ==> root is Empty,
                k <= n,
                rest@ == es.subrange(k as int, n as int),
                forall|j: int| 0 <= j < es.len() ==> path_fits((#[trigger] es[j]).0@),
                trie_well_shaped(root),
                forall|j: int| 0 <= j < k ==> #[trigger] trie_lookup(root, es[j].0@) == Some(es[j].1),
                forall|q: Seq<Option<usize>>|
                    (forall|j: int| 0 <= j < k ==> es[j].0@ != q) ==> #[trigger] trie_lookup(root, q) is None,
                forall|i: int, j: int| 0 <= i < j < k ==> !clash(#[trigger] ps[i], #[trigger] ps[j]),
                k > 0 ==> !(root is Empty),
            decreases n - k,
        {
            let (path, sub) = rest.remove(0);
            assert(es[k as int] == (path, sub));
            let ghost before = root;
            let ok = root.insert(path.as_slice(), sub);
            if !ok {
                proof {
                    let p = lemma_refused_clash(before, path@);
                    let j = choose|j: int| 0 <= j < k && es[j].0@ == p;
                    lemma_clash_symmetric(p, path@);
                    assert(ps[j] == p);
                    assert(ps[k as int] == path@);
                    assert(clash(ps[j], ps[k as int]));
                }
                return IndexTrie::Empty;
            }
            proof {
                assert forall|i: int, j: int| 0 <= i < j < k + 1 implies !clash(#[trigger] ps[i], #[trigger] ps[j]) by {
                    if j == k {
                        assert(ps[i] == es[i].0@);
                        assert(trie_lookup(before, es[i].0@) is Some);
                        lemma_accepted_no_clash(before, path@, es[i].0@);
                    }
                }
                assert forall|j: int| 0 <= j < k + 1 implies #[trigger] trie_lookup(root, es[j].0@) == Some(
                    es[j].1,
                ) by {
                    if j < k {
                        lemma_accepted_no_clash(before, path@, es[j].0@);
                        if es[j].0@ == path@ {
                            lemma_clash_refl(path@);
                        }
                    }
                }
                assert(trie_lookup(root, path@) is Some);
            }
            k = k + 1;
            assert(rest@ =~= es.subrange(k as int, n as int));
        }
        assert(paths_compatible(ps));
        root
    }
}

/// One step of the root parameter writer while it waits for the handshake
/// response. A response with a failing status is answered with its error
/// and the writer keeps waiting; one that names a reply subject connects the
/// parameters to its `.params` subject, draining what was buffered first; one
/// that names none is refused; the end of the subscription leaves the writer
/// corrupted. A writer past the handshake has nothing to decide.
pub fn handshake_step(state: HandshakeState, event: HandshakeEvent) -> (r: (HandshakeState, HandshakeAction))
    ensures
        match state {
            HandshakeState::Handshaking { buffer } => match status_failure(event) {
                Some((kind, message)) => r.0 == state && fails_with(r.1, kind, message),
                None => match event {
                    HandshakeEvent::Response { reply: Some(tx) } => {
                        &&& r.1 matches HandshakeAction::Connect { params, errors } && params@ == tx@ + ".params"@
                            && errors is None
                        &&& connected(r.0, tx@ + ".params"@, buffer@)
                    },
                    HandshakeEvent::Response { reply: None } => r.0 == state && fails_with(
                        r.1,
                        ErrorKind::InvalidInput,
                        Some("peer did not specify a reply subject"@),
                    ),
                    _ => r.0 is Corrupted && fails_with(r.1, ErrorKind::BrokenPipe, None),
                },
            },
            HandshakeState::Corrupted => r.0 is Corrupted && fails_with(
                r.1,
                ErrorKind::Other,
                Some("corrupted memory state"@),
            ),
            _ => r.0 == state && r.1 is Done,
        },
{
    match state {
        HandshakeState::Handshaking { buffer } => {
            if let Some(e) = response_failure(&event) {
                return (HandshakeState::Handshaking { buffer }, HandshakeAction::Fail(e));
            }
            match event {
                HandshakeEvent::Response { reply: Some(tx) } => {
                    let params = param_subject(tx.as_str());
                    let s = connect(&params, buffer);
                    (s, HandshakeAction::Connect { params, errors: None })
                },
                HandshakeEvent::Response { reply: None } => (
                    HandshakeState::Handshaking { buffer },
                    HandshakeAction::Fail(error_with(ErrorKind::InvalidInput, "peer did not specify a reply subject")),
                ),
                _ => (HandshakeState::Corrupted, HandshakeAction::Fail(plain_error(ErrorKind::BrokenPipe))),
            }
        },
        HandshakeState::Corrupted => (HandshakeState::Corrupted, HandshakeAction::Fail(corrupted_error())),
        other => (other, HandshakeAction::Done),
    }
}

/// `m` less `c`, or 0 when `c` is larger.
pub open spec fn clamp_sub(m: int, c: int) -> nat {
    if m - c < 0 {
        0
    } else {
        (m - c) as nat
    }
}

/// The bytes that the values `vs` of a header named by `klen` bytes take in
/// the header block: for each, `name: value` and a line end.
pub open spec fn values_cost(klen: nat, vs: Seq<String>) -> nat
    decreases vs.len(),
{
    if vs.len() == 0 {
        0
    } else {
        values_cost(klen, vs.drop_last()) + klen + 2 + encode_utf8(vs.last()@).len() + 2
    }
}

/// The bytes that the lines of the headers `hs` take in the header block.
pub open spec fn headers_cost(hs: Seq<(String, Vec<String>)>) -> nat
    decreases hs.len(),
{
    if hs.len() == 0 {
        0
    } else {
        headers_cost(hs.drop_last()) + values_cost(encode_utf8(hs.last().0@).len(), hs.last().1@)
    }
}

/// How many parameter bytes the handshake message carries: a message may
/// carry `max_payload` bytes, less the reply subject of `reply_len` bytes
/// and, when there are headers, the header block (`NATS/1.0`, its line end,
/// each header line and the closing line end), each subtraction stopping at
/// 0; of `params_len` bytes, as many as fit.
pub fn handshake_payload_len(
    max_payload: usize,
    reply_len: usize,
    headers: Option<&Vec<(String, Vec<String>)>>,
    params_len: usize,
) -> (n: usize)
    ensures
        ({
            let budget = clamp_sub(
                max_payload as int,
                reply_len + match headers {
                    Some(hs) => 12 + headers_cost(hs@),
                    None => 0,
                },
            );
            n == if params_len <= budget {
                params_len as nat
            } else {
                budget
            }
        }),
{
    let mut m = max_payload.saturating_sub(reply_len);
    if let Some(hs) = headers {
        m = m.saturating_sub(10).saturating_sub(2);
        let mut i: usize = 0;
        while i < hs.len()
            invariant
                i <= hs.len(),
                m == clamp_sub(max_payload as int, reply_len + 12 + headers_cost(hs@.take(i as int))),
            decreases hs.len() - i,
        {
            let k = hs[i].0.as_str();
            let vs = &hs[i].1;
            let ghost base = reply_len + 12 + headers_cost(hs@.take(i as int));
            let ghost klen = encode_utf8(hs@[i as int].0@).len();
            let mut j: usize = 0;
            while j < vs.len()
                invariant
                    j <= vs.len(),
                    i < hs.len(),
                    vs == hs@[i as int].1,
                    k@ == hs@[i as int].0@,
                    klen == encode_utf8(k@).len(),
                    m == clamp_sub(max_payload as int, base + values_cost(klen, vs@.take(j as int))),
                decreases vs.len() - j,
            {
                let v = vs[j].as_str();
                let kl = k.as_bytes().len();
                let vl = v.as_bytes().len();
                let ghost m0 = m;
                m = m.saturating_sub(kl).saturating_sub(2).saturating_sub(vl).saturating_sub(2);
                proof {
                    assert(kl == klen);
                    assert(vl == encode_utf8(v@).len());
                    assert(m == clamp_sub(m0 as int, kl + 2 + vl + 2));
                    let t = vs@.take(j + 1);
                    assert(t.drop_last() =~= vs@.take(j as int));
                    assert(t.last() == vs@[j as int]);
                    assert(values_cost(klen, t) == values_cost(klen, vs@.take(j as int)) + klen + 2 + encode_utf8(
                        v@,
                    ).len() + 2);
                }
                j = j + 1;
            }
            proof {
                assert(vs@.take(vs.len() as int) =~= vs@);
                assert(hs@.take(i + 1).drop_last() =~= hs@.take(i as int));
            }
            i = i + 1;
        }
        proof {
            assert(hs@.take(hs.len() as int) =~= hs@);
        }
    }
    if params_len <= m {
        params_len
    } else {
        m
    }
}

} // verus!
