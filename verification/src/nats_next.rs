//! The subjects of the next NATS transport.

use vstd::prelude::*;
use vstd::utf8::encode_utf8;

use crate::conn::{
    clash, definite, lemma_clash_refl, lemma_clash_symmetric, lemma_cons_eq, lemma_definite_rest,
    lemma_rest_fits, path_fits, paths_compatible,
};
use vstd::string::{StringExecFns, StringSliceAdditionalSpecFns};

use crate::subject::{
    lemma_invocation_bytes, lemma_join_indices_bytes, lemma_join_segments_bytes, lemma_protocol_bytes,
    concat, index_segments, invocation, invocation_string, join_indices, join_segments,
    wildcard_segments,
};
use crate::handshake::{
    connect, connected, corrupted_error, error_with, fails_with, plain_error, response_failure,
    status_failure, ErrorKind, HandshakeAction, HandshakeEvent, HandshakeState,
};

verus! {

/// Protocol name that leads every invocation subject.
pub const PROTOCOL: &'static str = "wrpc.0.0.1";

/// Subject carrying the error of the invocation at `prefix`.
#[must_use]
pub fn error_subject(prefix: &str) -> (r: String)
    ensures
        r@ == prefix@ + ".error"@,
{
    proof {
        reveal_strlit(".error");
    }
    concat(prefix, ".error")
}

/// Subject carrying the parameters of the invocation at `prefix`.
#[must_use]
pub fn param_subject(prefix: &str) -> (r: String)
    ensures
        r@ == prefix@ + ".params"@,
{
    proof {
        reveal_strlit(".params");
    }
    concat(prefix, ".params")
}

/// Subject carrying the results of the invocation at `prefix`.
#[must_use]
pub fn result_subject(prefix: &str) -> (r: String)
    ensures
        r@ == prefix@ + ".results"@,
{
    proof {
        reveal_strlit(".results");
    }
    concat(prefix, ".results")
}

/// The indices of `path` in decimal, separated by `.`.
///
/// The prefix only counts toward the capacity reserved, which is one less
/// than its length plus twice the path's length: that must not be negative.
#[must_use]
pub fn index_path(prefix: &str, path: &[usize]) -> (r: String)
    requires
        1 <= prefix.spec_bytes().len() + path.len() * 2 <= usize::MAX + 1,
    ensures
        r@ == join_indices(Seq::<char>::empty(), path@, '.'),
        encode_utf8(r@).len() <= 21 * path.len(),
{
    let r = index_segments(String::new(), path, '.');
    proof {
        lemma_join_indices_bytes(Seq::<char>::empty(), path@, '.');
    }
    r
}

/// The segments of `path` separated by `.`: the decimal index, or `*` where
/// any index matches.
///
/// The prefix only counts toward the capacity reserved, which is one less
/// than its length plus twice the path's length: that must not be negative.
#[must_use]
pub fn subsribe_path(prefix: &str, path: &[Option<usize>]) -> (r: String)
    requires
        1 <= prefix.spec_bytes().len() + path.len() * 2 <= usize::MAX + 1,
    ensures
        r@ == join_segments(Seq::<char>::empty(), path@, '.'),
        encode_utf8(r@).len() <= 21 * path.len(),
{
    let r = wildcard_segments(String::new(), path, '.');
    proof {
        lemma_join_segments_bytes(Seq::<char>::empty(), path@, '.');
    }
    r
}

/// Subject on which `func` of `instance` is invoked: the prefix, the protocol,
/// the instance and the function, separated by `.`; an empty prefix and an
/// empty instance are left out.
#[must_use]
pub fn invocation_subject(prefix: &str, instance: &str, func: &str) -> (r: String)
    requires
        prefix.spec_bytes().len() + 10 + instance.spec_bytes().len() + func.spec_bytes().len() + 3
            <= usize::MAX,
    ensures
        r@ == invocation(prefix@, PROTOCOL@, instance@, func@, '.'),
        encode_utf8(r@).len() <= prefix.spec_bytes().len() + 10 + instance.spec_bytes().len()
            + func.spec_bytes().len() + 3,
{
    let r = invocation_string(prefix, PROTOCOL, instance, func, '.');
    proof {
        lemma_invocation_bytes(prefix@, PROTOCOL@, instance@, func@, '.');
        lemma_protocol_bytes();
    }
    r
}

/// A trie of subscriptions, keyed by paths of positions; `None` in a path is
/// a wildcard position.
pub enum SubscriberTree<S> {
    Empty,
    Leaf(S),
    IndexNode { subscriber: Option<S>, nested: Vec<Option<SubscriberTree<S>>> },
    WildcardNode { subscriber: Option<S>, nested: Option<Box<SubscriberTree<S>>> },
}

/// The subscription that `t` holds at `path`, if any.
pub open spec fn tree_lookup<S>(t: SubscriberTree<S>, path: Seq<Option<usize>>) -> Option<S>
    decreases path.len(),
{
    if path.len() == 0 {
        match t {
            SubscriberTree::Empty => None,
            SubscriberTree::Leaf(s) => Some(s),
            SubscriberTree::IndexNode { subscriber, .. } => subscriber,
            SubscriberTree::WildcardNode { subscriber, .. } => subscriber,
        }
    } else {
        match (t, path[0]) {
            (SubscriberTree::IndexNode { nested, .. }, Some(i)) => if i < nested.len() {
                match nested@[i as int] {
                    Some(c) => tree_lookup(c, path.drop_first()),
                    None => None,
                }
            } else {
                None
            },
            (SubscriberTree::WildcardNode { nested: Some(c), .. }, None) => tree_lookup(*c, path.drop_first()),
            _ => None,
        }
    }
}

/// Whether inserting at `path` into `t` succeeds: every node along the path
/// is of the kind its next position asks for (a leaf grows into one), and
/// the node at the path holds no subscription yet.
pub open spec fn tree_insert_ok<S>(t: SubscriberTree<S>, path: Seq<Option<usize>>) -> bool
    decreases path.len(),
{
    match t {
        SubscriberTree::Empty => true,
        SubscriberTree::Leaf(_) => path.len() > 0,
        SubscriberTree::IndexNode { subscriber, nested } => if path.len() == 0 {
            subscriber is None
        } else {
            match path[0] {
                Some(i) => if i < nested.len() {
                    match nested@[i as int] {
                        Some(c) => tree_insert_ok(c, path.drop_first()),
                        None => true,
                    }
                } else {
                    true
                },
                None => false,
            }
        },
        SubscriberTree::WildcardNode { subscriber, nested } => if path.len() == 0 {
            subscriber is None
        } else {
            match path[0] {
                None => match nested {
                    Some(c) => tree_insert_ok(*c, path.drop_first()),
                    None => true,
                },
                Some(_) => false,
            }
        },
    }
}

/// Whether inserting at `path` into `t` panics: an index node on the way
/// holds exactly as many children as the index, and is not grown before it
/// is indexed.
pub open spec fn tree_insert_panics<S>(t: SubscriberTree<S>, path: Seq<Option<usize>>) -> bool
    decreases path.len(),
{
    match t {
        SubscriberTree::IndexNode { nested, .. } => if path.len() == 0 {
            false
        } else {
            match path[0] {
                Some(i) => if nested.len() == i {
                    true
                } else if i < nested.len() {
                    match nested@[i as int] {
                        Some(c) => tree_insert_panics(c, path.drop_first()),
                        None => false,
                    }
                } else {
                    false
                },
                None => false,
            }
        },
        SubscriberTree::WildcardNode { nested, .. } => if path.len() == 0 {
            false
        } else {
            match (path[0], nested) {
                (None, Some(c)) => tree_insert_panics(*c, path.drop_first()),
                _ => false,
            }
        },
        _ => false,
    }
}

/// Whether the node at the definite `path` of `t` is a wildcard node.
pub open spec fn tree_wild_at<S>(t: SubscriberTree<S>, path: Seq<usize>) -> bool
    decreases path.len(),
{
    if path.len() == 0 {
        t is WildcardNode
    } else {
        match t {
            SubscriberTree::IndexNode { nested, .. } => if path[0] < nested.len() {
                match nested@[path[0] as int] {
                    Some(c) => tree_wild_at(c, path.drop_first()),
                    None => false,
                }
            } else {
                false
            },
            _ => false,
        }
    }
}

/// What taking at the definite `path` of `t` gives: the subscription there,
/// unless the node there is a wildcard node.
pub open spec fn tree_taken<S>(t: SubscriberTree<S>, path: Seq<usize>) -> Option<S> {
    if tree_wild_at(t, path) {
        None
    } else {
        tree_lookup(t, definite(path))
    }
}

/// Whether taking at the definite `path` removes what `t` holds at `q`: the
/// subscription at the path itself, or everything under a wildcard node
/// there.
pub open spec fn tree_removed<S>(t: SubscriberTree<S>, path: Seq<usize>, q: Seq<Option<usize>>) -> bool {
    q == definite(path) || (tree_wild_at(t, path) && definite(path).is_prefix_of(q))
}

impl<S> SubscriberTree<S> {
    /// A trie that holds `sub` at `path` and nothing else.
    pub fn from(path: &[Option<usize>], sub: S) -> (r: SubscriberTree<S>)
        requires
            path_fits(path@),
        ensures
            forall|q: Seq<Option<usize>>|
                #[trigger] tree_lookup(r, q) == if q == path@ {
                    Some(sub)
                } else {
                    None::<S>
                },
            tree_well_shaped(r),
            !(r is Empty),
        decreases path.len(),
    {
        if path.len() == 0 {
            let r = SubscriberTree::Leaf(sub);
            assert forall|q: Seq<Option<usize>>|
                #[trigger] tree_lookup(r, q) == if q == path@ {
                    Some(sub)
                } else {
                    None::<S>
                } by {
                if q.len() == 0 {
                    assert(q =~= path@);
                }
            }
            return r;
        }
        let rest = vstd::slice::slice_subrange(path, 1, path.len());
        assert(rest@ =~= path@.drop_first());
        proof {
            lemma_rest_fits(path@);
        }
        let child = SubscriberTree::from(rest, sub);
        match path[0] {
            None => {
                assert(path@[0] is None);
                let r = SubscriberTree::WildcardNode { subscriber: None, nested: Some(Box::new(child)) };
                assert forall|q: Seq<Option<usize>>|
                    #[trigger] tree_lookup(r, q) == if q == path@ {
                        Some(sub)
                    } else {
                        None::<S>
                    } by {
                    if q.len() > 0 && q[0] is None {
                        assert(tree_lookup(child, q.drop_first()) == tree_lookup(r, q));
                        if q.drop_first() == path@.drop_first() {
                            lemma_cons_eq(q, path@);
                        }
                    }
                    if q == path@ {
                        assert(q.drop_first() == rest@);
                    }
                }
                r
            },
            Some(i) => {
                assert(path@[0] is Some);
                let mut nested: Vec<Option<SubscriberTree<S>>> = Vec::new();
                while nested.len() < i
                    invariant
                        nested.len() <= i,
                        forall|j: int| 0 <= j < nested.len() ==> nested@[j] is None,
                    decreases i - nested.len(),
                {
                    nested.push(None);
                }
                nested.push(Some(child));
                assert(nested@.last() is Some);
                let r = SubscriberTree::IndexNode { subscriber: None, nested };
                assert forall|q: Seq<Option<usize>>|
                    #[trigger] tree_lookup(r, q) == if q == path@ {
                        Some(sub)
                    } else {
                        None::<S>
                    } by {
                    if q.len() > 0 && q[0] == Some(i) {
                        assert(tree_lookup(child, q.drop_first()) == tree_lookup(r, q));
                        if q.drop_first() == path@.drop_first() {
                            lemma_cons_eq(q, path@);
                        }
                    }
                    if q == path@ {
                        assert(q.drop_first() == rest@);
                    }
                }
                r
            },
        }
    }

    /// Whether the trie holds nothing at all, being empty.
    pub fn is_empty(&self) -> (r: bool)
        ensures
            r == (*self is Empty),
    {
        match self {
            SubscriberTree::Empty => true,
            _ => false,
        }
    }

    /// Inserts `sub` at `path`, and says whether it could: on success the
    /// trie holds it at `path` and is otherwise unchanged; on failure it
    /// holds what it held.
    pub fn insert(&mut self, path: &[Option<usize>], sub: S) -> (r: bool)
        requires
            path_fits(path@),
            !tree_insert_panics(*old(self), path@),
        ensures
            r == tree_insert_ok(*old(self), path@),
            forall|q: Seq<Option<usize>>|
                #[trigger] tree_lookup(*final(self), q) == if r && q == path@ {
                    Some(sub)
                } else {
                    tree_lookup(*old(self), q)
                },
            tree_well_shaped(*old(self)) && r ==> tree_well_shaped(*final(self)),
    {
        let mut cur = SubscriberTree::Empty;
        std::mem::swap(self, &mut cur);
        let (r, next) = tree_insert_owned(cur, path, sub);
        *self = next;
        r
    }

    /// Takes the subscription at the definite `path`. A wildcard node there
    /// gives nothing and is dropped with everything under it.
    pub fn take(&mut self, path: &[usize]) -> (r: Option<S>)
        ensures
            r == tree_taken(*old(self), path@),
            forall|q: Seq<Option<usize>>|
                #[trigger] tree_lookup(*final(self), q) == if tree_removed(*old(self), path@, q) {
                    None
                } else {
                    tree_lookup(*old(self), q)
                },
    {
        let mut cur = SubscriberTree::Empty;
        std::mem::swap(self, &mut cur);
        let (r, next) = tree_take_owned(cur, path);
        *self = next;
        r
    }
}

/// Inserts into `t`, giving whether it succeeded and the trie after.
fn tree_insert_owned<S>(t: SubscriberTree<S>, path: &[Option<usize>], sub: S) -> (r: (bool, SubscriberTree<S>))
    requires
        path_fits(path@),
        !tree_insert_panics(t, path@),
    ensures
        r.0 == tree_insert_ok(t, path@),
        forall|q: Seq<Option<usize>>|
            #[trigger] tree_lookup(r.1, q) == if r.0 && q == path@ {
                Some(sub)
            } else {
                tree_lookup(t, q)
            },
        tree_well_shaped(t) && r.0 ==> tree_well_shaped(r.1),
    decreases path.len(),
{
    let ghost s = sub;
    match t {
        SubscriberTree::Empty => {
            let n = SubscriberTree::from(path, sub);
            (true, n)
        },
        SubscriberTree::Leaf(old_sub) => {
            let ghost old_t = SubscriberTree::<S>::Leaf(old_sub);
            if path.len() == 0 {
                return (false, SubscriberTree::Leaf(old_sub));
            }
            let rest = vstd::slice::slice_subrange(path, 1, path.len());
            assert(rest@ =~= path@.drop_first());
            proof {
                lemma_rest_fits(path@);
            }
            let child = SubscriberTree::from(rest, sub);
            match path[0] {
                None => {
                    assert(path@[0] is None);
                    let n = SubscriberTree::WildcardNode { subscriber: Some(old_sub), nested: Some(Box::new(child)) };
                    assert forall|q: Seq<Option<usize>>|
                        #[trigger] tree_lookup(n, q) == if q == path@ {
                            Some(s)
                        } else {
                            tree_lookup(old_t, q)
                        } by {
                        if q.len() > 0 && q[0] is None {
                            assert(tree_lookup(n, q) == tree_lookup(child, q.drop_first()));
                            if q.drop_first() == path@.drop_first() {
                                lemma_cons_eq(q, path@);
                            }
                        }
                        if q == path@ {
                            assert(q.drop_first() == rest@);
                        }
                    }
                    (true, n)
                },
                Some(i) => {
                    assert(path@[0] is Some);
                    let mut nested: Vec<Option<SubscriberTree<S>>> = Vec::new();
                    while nested.len() < i
                        invariant
                            nested.len() <= i,
                            forall|j: int| 0 <= j < nested.len() ==> nested@[j] is None,
                        decreases i - nested.len(),
                    {
                        nested.push(None);
                    }
                    nested.push(Some(child));
                    assert(nested@.last() is Some);
                    let n = SubscriberTree::IndexNode { subscriber: Some(old_sub), nested };
                    assert forall|q: Seq<Option<usize>>|
                        #[trigger] tree_lookup(n, q) == if q == path@ {
                            Some(s)
                        } else {
                            tree_lookup(old_t, q)
                        } by {
                        if q.len() > 0 && q[0] == Some(i) {
                            assert(tree_lookup(n, q) == tree_lookup(child, q.drop_first()));
                            if q.drop_first() == path@.drop_first() {
                                lemma_cons_eq(q, path@);
                            }
                        }
                        if q == path@ {
                            assert(q.drop_first() == rest@);
                        }
                    }
                    (true, n)
                },
            }
        },
        SubscriberTree::IndexNode { subscriber, mut nested } => {
            let ghost old_t = SubscriberTree::IndexNode { subscriber, nested };
            let ghost old_nested = nested@;
            if path.len() == 0 {
                if subscriber.is_none() {
                    let n = SubscriberTree::IndexNode { subscriber: Some(sub), nested };
                    assert forall|q: Seq<Option<usize>>|
                        #[trigger] tree_lookup(n, q) == if q == path@ {
                            Some(s)
                        } else {
                            tree_lookup(old_t, q)
                        } by {
                        if q.len() == 0 {
                            assert(q =~= path@);
                        }
                    }
                    return (true, n);
                }
                return (false, SubscriberTree::IndexNode { subscriber, nested });
            }
            match path[0] {
                None => {
                    assert(path@[0] is None);
                    (false, SubscriberTree::IndexNode { subscriber, nested })
                },
                Some(i) => {
                    assert(path@[0] is Some);
                    let rest = vstd::slice::slice_subrange(path, 1, path.len());
                    assert(rest@ =~= path@.drop_first());
                    proof {
                        lemma_rest_fits(path@);
                    }
                    if nested.len() < i {
                        while nested.len() <= i
                            invariant
                                old_nested.len() <= nested.len() <= i + 1,
                                forall|j: int| 0 <= j < old_nested.len() ==> nested@[j] == old_nested[j],
                                forall|j: int| old_nested.len() <= j < nested.len() ==> nested@[j] is None,
                            decreases i + 1 - nested.len(),
                        {
                            nested.push(None);
                        }
                    }
                    let c = nested[i].take();
                    let (ok, c2) = match c {
                        Some(c) => {
                            let (ok, c2) = tree_insert_owned(c, rest, sub);
                            (ok, c2)
                        },
                        None => {
                            let c2 = SubscriberTree::from(rest, sub);
                            (true, c2)
                        },
                    };
                    nested[i] = Some(c2);
                    proof {
                        if ok {
                            assert(tree_lookup(c2, rest@) is Some);
                        }
                        if ok && tree_well_shaped(old_t) {
                            if old_nested.len() > i {
                                assert(nested@.len() == old_nested.len());
                                if i < nested@.len() - 1 {
                                    assert(nested@.last() == old_nested.last());
                                }
                            }
                            assert(nested@.last() is Some);
                            assert forall|j: int| 0 <= j < nested@.len() implies match #[trigger] nested@[j] {
                                Some(c) => !(c is Empty) && tree_well_shaped(c),
                                None => true,
                            } by {
                                if j != i && j < old_nested.len() {
                                    assert(nested@[j] == old_nested[j]);
                                }
                            }
                        }
                    }
                    let n = SubscriberTree::IndexNode { subscriber, nested };
                    assert(ok == tree_insert_ok(old_t, path@));
                    assert forall|q: Seq<Option<usize>>|
                        #[trigger] tree_lookup(n, q) == if ok && q == path@ {
                            Some(s)
                        } else {
                            tree_lookup(old_t, q)
                        } by {
                        if q.len() > 0 && q[0] == Some(i) {
                            assert(tree_lookup(n, q) == tree_lookup(c2, q.drop_first()));
                            if q.drop_first() == path@.drop_first() {
                                lemma_cons_eq(q, path@);
                            }
                        }
                        if q == path@ {
                            assert(q.drop_first() == rest@);
                        }
                    }
                    (ok, n)
                },
            }
        },
        SubscriberTree::WildcardNode { subscriber, nested } => {
            let ghost old_t = SubscriberTree::WildcardNode { subscriber, nested };
            if path.len() == 0 {
                if subscriber.is_none() {
                    let n = SubscriberTree::WildcardNode { subscriber: Some(sub), nested };
                    assert forall|q: Seq<Option<usize>>|
                        #[trigger] tree_lookup(n, q) == if q == path@ {
                            Some(s)
                        } else {
                            tree_lookup(old_t, q)
                        } by {
                        if q.len() == 0 {
                            assert(q =~= path@);
                        }
                    }
                    return (true, n);
                }
                return (false, SubscriberTree::WildcardNode { subscriber, nested });
            }
            match path[0] {
                Some(_) => {
                    assert(path@[0] is Some);
                    (false, SubscriberTree::WildcardNode { subscriber, nested })
                },
                None => {
                    assert(path@[0] is None);
                    let rest = vstd::slice::slice_subrange(path, 1, path.len());
                    assert(rest@ =~= path@.drop_first());
                    proof {
                        lemma_rest_fits(path@);
                    }
                    let (ok, c2) = match nested {
                        Some(c) => {
                            let (ok, c2) = tree_insert_owned(*c, rest, sub);
                            (ok, c2)
                        },
                        None => {
                            let c2 = SubscriberTree::from(rest, sub);
                            (true, c2)
                        },
                    };
                    proof {
                        if ok {
                            assert(tree_lookup(c2, rest@) is Some);
                        }
                    }
                    let n = SubscriberTree::WildcardNode { subscriber, nested: Some(Box::new(c2)) };
                    assert forall|q: Seq<Option<usize>>|
                        #[trigger] tree_lookup(n, q) == if ok && q == path@ {
                            Some(s)
                        } else {
                            tree_lookup(old_t, q)
                        } by {
                        if q.len() > 0 && q[0] is None {
                            assert(tree_lookup(n, q) == tree_lookup(c2, q.drop_first()));
                            if q.drop_first() == path@.drop_first() {
                                lemma_cons_eq(q, path@);
                            }
                        }
                        if q == path@ {
                            assert(q.drop_first() == rest@);
                        }
                    }
                    (ok, n)
                },
            }
        },
    }
}

/// Takes out of `t` at the definite `path`.
fn tree_take_owned<S>(t: SubscriberTree<S>, path: &[usize]) -> (r: (Option<S>, SubscriberTree<S>))
    ensures
        r.0 == tree_taken(t, path@),
        forall|q: Seq<Option<usize>>|
            #[trigger] tree_lookup(r.1, q) == if tree_removed(t, path@, q) {
                None
            } else {
                tree_lookup(t, q)
            },
    decreases path.len(),
{
    if path.len() == 0 {
        assert(definite(path@) =~= Seq::<Option<usize>>::empty());
        match t {
            SubscriberTree::Empty => (None, SubscriberTree::Empty),
            SubscriberTree::Leaf(s) => {
                assert forall|q: Seq<Option<usize>>|
                    #[trigger] tree_lookup(SubscriberTree::<S>::Empty, q) == if tree_removed(SubscriberTree::Leaf(s), path@, q) {
                        None
                    } else {
                        tree_lookup(SubscriberTree::Leaf(s), q)
                    } by {
                    if q.len() == 0 {
                        assert(q =~= definite(path@));
                    }
                }
                (Some(s), SubscriberTree::Empty)
            },
            SubscriberTree::IndexNode { subscriber, nested } => {
                let ghost old_t = SubscriberTree::IndexNode { subscriber, nested };
                let n = if nested.len() == 0 {
                    SubscriberTree::Empty
                } else {
                    SubscriberTree::IndexNode { subscriber: None, nested }
                };
                assert forall|q: Seq<Option<usize>>|
                    #[trigger] tree_lookup(n, q) == if tree_removed(old_t, path@, q) {
                        None
                    } else {
                        tree_lookup(old_t, q)
                    } by {
                    if q.len() == 0 {
                        assert(q =~= definite(path@));
                    }
                }
                (subscriber, n)
            },
            SubscriberTree::WildcardNode { subscriber, nested } => {
                let ghost old_t = SubscriberTree::WildcardNode { subscriber, nested };
                assert forall|q: Seq<Option<usize>>|
                    #[trigger] tree_lookup(SubscriberTree::<S>::Empty, q) == if tree_removed(old_t, path@, q) {
                        None
                    } else {
                        tree_lookup(old_t, q)
                    } by {
                    assert(definite(path@).is_prefix_of(q));
                }
                (None, SubscriberTree::Empty)
            },
        }
    } else {
        proof {
            lemma_definite_rest(path@);
        }
        let i = path[0];
        let rest = vstd::slice::slice_subrange(path, 1, path.len());
        assert(rest@ =~= path@.drop_first());
        match t {
            SubscriberTree::IndexNode { subscriber, mut nested } => {
                let ghost old_t = SubscriberTree::IndexNode { subscriber, nested };
                let ghost old_nested = nested@;
                if i >= nested.len() {
                    let n = SubscriberTree::IndexNode { subscriber, nested };
                    assert forall|q: Seq<Option<usize>>|
                        #[trigger] tree_lookup(n, q) == if tree_removed(old_t, path@, q) {
                            None
                        } else {
                            tree_lookup(old_t, q)
                        } by {
                        if q == definite(path@) {
                            assert(q[0] == Some(i));
                        }
                    }
                    return (None, n);
                }
                let c = nested[i].take();
                match c {
                    None => {
                        nested[i] = None;
                        assert(nested@ =~= old_nested);
                        let n = SubscriberTree::IndexNode { subscriber, nested };
                        assert forall|q: Seq<Option<usize>>|
                            #[trigger] tree_lookup(n, q) == if tree_removed(old_t, path@, q) {
                                None
                            } else {
                                tree_lookup(old_t, q)
                            } by {
                            if q == definite(path@) {
                                assert(q[0] == Some(i));
                            }
                        }
                        (None, n)
                    },
                    Some(c) => {
                        let ghost c0 = c;
                        let (r, c2) = tree_take_owned(c, rest);
                        nested[i] = Some(c2);
                        let n = SubscriberTree::IndexNode { subscriber, nested };
                        assert forall|q: Seq<Option<usize>>|
                            #[trigger] tree_lookup(n, q) == if tree_removed(old_t, path@, q) {
                                None
                            } else {
                                tree_lookup(old_t, q)
                            } by {
                            if q.len() > 0 && q[0] == Some(i) {
                                assert(tree_lookup(n, q) == tree_lookup(c2, q.drop_first()));
                                assert(tree_lookup(old_t, q) == tree_lookup(c0, q.drop_first()));
                                assert(tree_removed(old_t, path@, q) == tree_removed(c0, rest@, q.drop_first())) by {
                                    if q.drop_first() == definite(rest@) {
                                        lemma_cons_eq(q, definite(path@));
                                    }
                                    if q == definite(path@) {
                                        assert(q.drop_first() == definite(rest@));
                                    }
                                    if definite(rest@).is_prefix_of(q.drop_first()) {
                                        assert(definite(path@).is_prefix_of(q)) by {
                                            assert forall|k: int| 0 <= k < definite(path@).len() implies definite(path@)[k] == q[k] by {
                                                if k > 0 {
                                                    assert(definite(path@)[k] == definite(rest@)[k - 1]);
                                                    assert(q[k] == q.drop_first()[k - 1]);
                                                }
                                            }
                                        }
                                    }
                                    if definite(path@).is_prefix_of(q) {
                                        assert(definite(rest@).is_prefix_of(q.drop_first())) by {
                                            assert forall|k: int| 0 <= k < definite(rest@).len() implies definite(rest@)[k] == q.drop_first()[k] by {
                                                assert(definite(rest@)[k] == definite(path@)[k + 1]);
                                            }
                                        }
                                    }
                                }
                            }
                            if tree_removed(old_t, path@, q) {
                                assert(q.len() > 0 && q[0] == definite(path@)[0]);
                            }
                        }
                        (r, n)
                    },
                }
            },
            SubscriberTree::Empty => (None, SubscriberTree::Empty),
            SubscriberTree::Leaf(s) => (None, SubscriberTree::Leaf(s)),
            SubscriberTree::WildcardNode { subscriber, nested } => (None, SubscriberTree::WildcardNode { subscriber, nested }),
        }
    }
}


/// A path at which the trie already holds a subscription cannot be inserted
/// at again: `insert` refuses it.
pub proof fn lemma_occupied_refuses_insert<S>(t: SubscriberTree<S>, path: Seq<Option<usize>>)
    requires
        tree_lookup(t, path) is Some,
    ensures
        !tree_insert_ok(t, path),
    decreases path.len(),
{
    if path.len() > 0 {
        match (t, path[0]) {
            (SubscriberTree::IndexNode { nested, .. }, Some(i)) => {
                if i < nested.len() {
                    if let Some(c) = nested@[i as int] {
                        lemma_occupied_refuses_insert(c, path.drop_first());
                    }
                }
            },
            (SubscriberTree::WildcardNode { nested: Some(c), .. }, None) => {
                lemma_occupied_refuses_insert(*c, path.drop_first());
            },
            _ => {},
        }
    }
}

/// Once `take` has run at a definite path, a second `take` there gives
/// nothing.
pub proof fn lemma_take_twice<S>(before: SubscriberTree<S>, after: SubscriberTree<S>, path: Seq<usize>)
    requires
        forall|q: Seq<Option<usize>>|
            #[trigger] tree_lookup(after, q) == if tree_removed(before, path, q) {
                None
            } else {
                tree_lookup(before, q)
            },
    ensures
        tree_taken(after, path) is None,
{
    assert(tree_lookup(after, definite(path)) is None);
}

/// Whether every inner node of `t` leads somewhere and no index node holds
/// more room than its last child needs: an index node's last child is
/// there, a wildcard node has its child, and no child is empty. Every trie
/// that `from` and `insert` build is well shaped.
pub open spec fn tree_well_shaped<S>(t: SubscriberTree<S>) -> bool
    decreases t,
{
    match t {
        SubscriberTree::Empty => true,
        SubscriberTree::Leaf(_) => true,
        SubscriberTree::IndexNode { nested, .. } => {
            &&& nested@.len() > 0
            &&& nested@.last() is Some
            &&& forall|i: int|
                0 <= i < nested@.len() ==> match #[trigger] nested@[i] {
                    Some(c) => !(c is Empty) && tree_well_shaped(c),
                    None => true,
                }
        },
        SubscriberTree::WildcardNode { nested, .. } => match nested {
            Some(c) => !(*c is Empty) && tree_well_shaped(*c),
            None => false,
        },
    }
}

/// A well-shaped trie that is not empty holds something.
proof fn lemma_some_sub<S>(t: SubscriberTree<S>) -> (p: Seq<Option<usize>>)
    requires
        tree_well_shaped(t),
        !(t is Empty),
    ensures
        tree_lookup(t, p) is Some,
    decreases t,
{
    match t {
        SubscriberTree::Empty => seq![],
        SubscriberTree::Leaf(_) => seq![],
        SubscriberTree::IndexNode { nested, .. } => {
            let i = nested@.len() - 1;
            let c = nested@[i]->0;
            assert(decreases_to!(t => nested));
            assert(decreases_to!(nested => nested@));
            assert(decreases_to!(nested@ => nested@[i]));
            let pc = lemma_some_sub(c);
            let p = seq![Some(i as usize)] + pc;
            assert(p.drop_first() =~= pc);
            p
        },
        SubscriberTree::WildcardNode { nested, .. } => {
            let c = *nested->0;
            let pc = lemma_some_sub(c);
            let p = seq![None::<usize>] + pc;
            assert(p.drop_first() =~= pc);
            p
        },
    }
}

/// A well-shaped trie refuses a path only where the path clashes with one
/// at which it holds a subscription.
proof fn lemma_refused_clash<S>(t: SubscriberTree<S>, q: Seq<Option<usize>>) -> (p: Seq<Option<usize>>)
    requires
        tree_well_shaped(t),
        !tree_insert_ok(t, q),
    ensures
        tree_lookup(t, p) is Some,
        clash(p, q),
    decreases q.len(),
{
    match t {
        SubscriberTree::Empty => seq![],
        SubscriberTree::Leaf(_) => seq![],
        SubscriberTree::IndexNode { nested, .. } => {
            if q.len() == 0 {
                seq![]
            } else if q[0] is None {
                let i = nested@.len() - 1;
                let c = nested@[i]->0;
                let pc = lemma_some_sub(c);
                let p = seq![Some(i as usize)] + pc;
                assert(p.drop_first() =~= pc);
                p
            } else {
                let i = q[0]->0;
                let c = nested@[i as int]->0;
                let pc = lemma_refused_clash(c, q.drop_first());
                let p = seq![Some(i)] + pc;
                assert(p.drop_first() =~= pc);
                p
            }
        },
        SubscriberTree::WildcardNode { nested, .. } => {
            let c = *nested->0;
            if q.len() == 0 {
                seq![]
            } else if q[0] is Some {
                let pc = lemma_some_sub(c);
                let p = seq![None::<usize>] + pc;
                assert(p.drop_first() =~= pc);
                p
            } else {
                let pc = lemma_refused_clash(c, q.drop_first());
                let p = seq![None::<usize>] + pc;
                assert(p.drop_first() =~= pc);
                p
            }
        },
    }
}

/// Where a trie accepts a path, the path clashes with none at which it
/// holds a subscription.
proof fn lemma_accepted_no_clash<S>(t: SubscriberTree<S>, q: Seq<Option<usize>>, p: Seq<Option<usize>>)
    requires
        tree_insert_ok(t, q),
        tree_lookup(t, p) is Some,
    ensures
        !clash(p, q),
    decreases q.len(),
{
    if p.len() > 0 && q.len() > 0 && p[0] == q[0] {
        match (t, q[0]) {
            (SubscriberTree::IndexNode { nested, .. }, Some(i)) => {
                lemma_accepted_no_clash(nested@[i as int]->0, q.drop_first(), p.drop_first());
            },
            (SubscriberTree::WildcardNode { nested: Some(c), .. }, None) => {
                lemma_accepted_no_clash(*c, q.drop_first(), p.drop_first());
            },
            _ => {},
        }
    }
}

/// Whether a subscription of `t` lies below the prefix `w`, with `x` as the
/// index that follows it.
pub open spec fn tree_entry_through<S>(t: SubscriberTree<S>, w: Seq<Option<usize>>, x: usize) -> bool {
    exists|p: Seq<Option<usize>>|
        #[trigger] tree_lookup(t, p) is Some && p.len() > w.len() && p.subrange(0, w.len() as int) == w
            && p[w.len() as int] == Some(x)
}

/// Whether inserting `q` into `t` reaches, after its first `m` positions,
/// an index node whose largest child index is one below the index `q` has
/// there: the node has exactly that many children, and indexing it panics.
pub open spec fn tree_panics_at<S>(t: SubscriberTree<S>, q: Seq<Option<usize>>, m: int) -> bool {
    &&& 0 <= m < q.len()
    &&& q[m] is Some
    &&& q[m]->0 > 0
    &&& tree_entry_through(t, q.subrange(0, m), (q[m]->0 - 1) as usize)
    &&& forall|p: Seq<Option<usize>>|
        #[trigger] tree_lookup(t, p) is Some && p.len() > m && p.subrange(0, m) == q.subrange(0, m)
            && p[m] is Some ==> p[m]->0 < q[m]->0
}

/// In a well-shaped trie, inserting panics only at a position where the
/// path's index is one more than the largest index that the subscriptions
/// below the same prefix have there.
proof fn lemma_panics_at<S>(t: SubscriberTree<S>, q: Seq<Option<usize>>) -> (m: int)
    requires
        tree_well_shaped(t),
        tree_insert_panics(t, q),
    ensures
        tree_panics_at(t, q, m),
    decreases q.len(),
{
    match t {
        SubscriberTree::IndexNode { nested, .. } => {
            let i = q[0]->0;
            if nested.len() == i {
                let c = nested@[i - 1]->0;
                let pc = lemma_some_sub(c);
                let p = seq![Some((i - 1) as usize)] + pc;
                assert(p.drop_first() =~= pc);
                assert(p.subrange(0, 0) =~= q.subrange(0, 0));
                assert(tree_lookup(t, p) is Some);
                assert forall|p2: Seq<Option<usize>>|
                    #[trigger] tree_lookup(t, p2) is Some && p2.len() > 0 && p2.subrange(0, 0) == q.subrange(0, 0)
                        && p2[0] is Some implies p2[0]->0 < q[0]->0 by {}
                0
            } else {
                let c = nested@[i as int]->0;
                let q2 = q.drop_first();
                let m2 = lemma_panics_at(c, q2);
                let m = m2 + 1;
                let w2 = q2.subrange(0, m2);
                let x = (q2[m2]->0 - 1) as usize;
                let pw = choose|p: Seq<Option<usize>>|
                    #[trigger] tree_lookup(c, p) is Some && p.len() > w2.len() && p.subrange(0, w2.len() as int) == w2
                        && p[w2.len() as int] == Some(x);
                let p = seq![Some(i)] + pw;
                assert(p.drop_first() =~= pw);
                assert(q.subrange(0, m) =~= seq![Some(i)] + w2);
                assert(p.subrange(0, m) =~= seq![Some(i)] + w2);
                assert(tree_lookup(t, p) is Some);
                assert forall|p2: Seq<Option<usize>>|
                    #[trigger] tree_lookup(t, p2) is Some && p2.len() > m && p2.subrange(0, m) == q.subrange(0, m)
                        && p2[m] is Some implies p2[m]->0 < q[m]->0 by {
                    assert(p2[0] == p2.subrange(0, m)[0]);
                    assert(p2.drop_first().subrange(0, m2) =~= p2.subrange(0, m).drop_first());
                    assert(q2.subrange(0, m2) =~= q.subrange(0, m).drop_first());
                    assert(tree_lookup(c, p2.drop_first()) is Some);
                }
                m
            }
        },
        SubscriberTree::WildcardNode { nested, .. } => {
            let c = *nested->0;
            let q2 = q.drop_first();
            let m2 = lemma_panics_at(c, q2);
            let m = m2 + 1;
            let w2 = q2.subrange(0, m2);
            let x = (q2[m2]->0 - 1) as usize;
            let pw = choose|p: Seq<Option<usize>>|
                #[trigger] tree_lookup(c, p) is Some && p.len() > w2.len() && p.subrange(0, w2.len() as int) == w2
                    && p[w2.len() as int] == Some(x);
            let p = seq![None::<usize>] + pw;
            assert(p.drop_first() =~= pw);
            assert(q.subrange(0, m) =~= seq![None::<usize>] + w2);
            assert(p.subrange(0, m) =~= seq![None::<usize>] + w2);
            assert(tree_lookup(t, p) is Some);
            assert forall|p2: Seq<Option<usize>>|
                #[trigger] tree_lookup(t, p2) is Some && p2.len() > m && p2.subrange(0, m) == q.subrange(0, m)
                    && p2[m] is Some implies p2[m]->0 < q[m]->0 by {
                assert(p2[0] == p2.subrange(0, m)[0]);
                assert(p2.drop_first().subrange(0, m2) =~= p2.subrange(0, m).drop_first());
                assert(q2.subrange(0, m2) =~= q.subrange(0, m).drop_first());
                assert(tree_lookup(c, p2.drop_first()) is Some);
            }
            m
        },
        _ => 0,
    }
}

/// Whether inserting `q` into the trie that holds the paths `ps` panics:
/// after some prefix of `q` that paths of `ps` extend with an index, `q`
/// has the index one past the largest of theirs.
pub open spec fn insert_panics_after(ps: Seq<Seq<Option<usize>>>, q: Seq<Option<usize>>) -> bool {
    exists|m: int|
        {
            &&& 0 <= m < q.len()
            &&& #[trigger] q[m] is Some
            &&& q[m]->0 > 0
            &&& exists|i: int|
                0 <= i < ps.len() && (#[trigger] ps[i]).len() > m && ps[i].subrange(0, m) == q.subrange(0, m)
                    && ps[i][m] == Some((q[m]->0 - 1) as usize)
            &&& forall|i: int|
                0 <= i < ps.len() && (#[trigger] ps[i]).len() > m && ps[i].subrange(0, m) == q.subrange(0, m)
                    && ps[i][m] is Some ==> ps[i][m]->0 < q[m]->0
        }
}

/// The paths of a list of subscriptions.
pub open spec fn tree_paths<S>(entries: Seq<(Vec<Option<usize>>, S)>) -> Seq<Seq<Option<usize>>> {
    entries.map_values(|e: (Vec<Option<usize>>, S)| e.0@)
}

impl<S> SubscriberTree<S> {
    /// A trie that holds each subscription at its path, or the empty trie
    /// when there are none or two of their paths clash. No insertion may
    /// reach an index node with exactly as many children as its index.
    pub fn from_iter(entries: Vec<(Vec<Option<usize>>, S)>) -> (r: SubscriberTree<S>)
        requires
            forall|j: int| 0 <= j < entries@.len() ==> path_fits((#[trigger] entries@[j]).0@),
            forall|k: int|
                0 <= k < entries@.len() && paths_compatible(#[trigger] tree_paths(entries@).subrange(0, k))
                    ==> !insert_panics_after(tree_paths(entries@).subrange(0, k), tree_paths(entries@)[k]),
        ensures
            (r is Empty) == (entries@.len() == 0 || !paths_compatible(tree_paths(entries@))),
            tree_well_shaped(r),
            !(r is Empty) ==> forall|j: int|
                0 <= j < entries@.len() ==> #[trigger] tree_lookup(r, entries@[j].0@) == Some(
                    entries@[j].1,
                ),
            forall|q: Seq<Option<usize>>|
                (forall|j: int| 0 <= j < entries@.len() ==> entries@[j].0@ != q) ==> #[trigger] tree_lookup(
                    r,
                    q,
                ) is None,
    {
        let ghost es = entries@;
        let ghost ps = tree_paths(es);
        let n = entries.len();
        let mut rest = entries;
        let mut root: SubscriberTree<S> = SubscriberTree::Empty;
        let mut k: usize = 0;
        while k < n
            invariant
                n == es.len(),
                es == entries@,
                ps == tree_paths(es),
                k == 0 ==> root is Empty,
                k <= n,
                rest@ == es.subrange(k as int, n as int),
                forall|j: int| 0 <= j < es.len() ==> path_fits((#[trigger] es[j]).0@),
                forall|k: int|
                    0 <= k < es.len() && paths_compatible(#[trigger] ps.subrange(0, k)) ==> !insert_panics_after(
                        ps.subrange(0, k),
                        ps[k],
                    ),
                tree_well_shaped(root),
                forall|j: int| 0 <= j < k ==> #[trigger] tree_lookup(root, es[j].0@) == Some(es[j].1),
                forall|q: Seq<Option<usize>>|
                    (forall|j: int| 0 <= j < k ==> es[j].0@ != q) ==> #[trigger] tree_lookup(root, q) is None,
                forall|i: int, j: int| 0 <= i < j < k ==> !clash(#[trigger] ps[i], #[trigger] ps[j]),
                k > 0 ==> !(root is Empty),
            decreases n - k,
        {
            let (path, sub) = rest.remove(0);
            assert(es[k as int] == (path, sub));
            let ghost before = root;
            proof {
                let pre = ps.subrange(0, k as int);
                assert(paths_compatible(pre));
                if tree_insert_panics(root, path@) {
                    let m = lemma_panics_at(root, path@);
                    let q = path@;
                    let w = q.subrange(0, m);
                    let x = (q[m]->0 - 1) as usize;
                    let p = choose|p: Seq<Option<usize>>|
                        #[trigger] tree_lookup(root, p) is Some && p.len() > w.len() && p.subrange(0, w.len() as int) == w
                            && p[w.len() as int] == Some(x);
                    let j = choose|j: int| 0 <= j < k && es[j].0@ == p;
                    assert(pre[j] == p);
                    assert(ps[k as int] == q);
                    assert forall|i: int|
                        0 <= i < pre.len() && (#[trigger] pre[i]).len() > m && pre[i].subrange(0, m) == q.subrange(0, m)
                            && pre[i][m] is Some implies pre[i][m]->0 < q[m]->0 by {
                        assert(pre[i] == es[i].0@);
                        assert(tree_lookup(root, es[i].0@) is Some);
                    }
                    assert(q[m] is Some);
                    assert(insert_panics_after(pre, ps[k as int]));
                    assert(false);
                }
            }
            let ok = root.insert(path.as_slice(), sub);
            if !ok {
                proof {
                    let p = lemma_refused_clash(before, path@);
                    let j = choose|j: int| 0 <= j < k && es[j].0@ == p;
                    lemma_clash_symmetric(p, path@);
                    assert(ps[j] == p);
                    assert(ps[k as int] == path@);
                    assert(clash(ps[j], ps[k as int]));
                }
                return SubscriberTree::Empty;
            }
            proof {
                assert forall|i: int, j: int| 0 <= i < j < k + 1 implies !clash(#[trigger] ps[i], #[trigger] ps[j]) by {
                    if j == k {
                        assert(ps[i] == es[i].0@);
                        assert(tree_lookup(before, es[i].0@) is Some);
                        lemma_accepted_no_clash(before, path@, es[i].0@);
                    }
                }
                assert forall|j: int| 0 <= j < k + 1 implies #[trigger] tree_lookup(root, es[j].0@) == Some(
                    es[j].1,
                ) by {
                    if j < k {
                        lemma_accepted_no_clash(before, path@, es[j].0@);
                        if es[j].0@ == path@ {
                            lemma_clash_refl(path@);
                        }
                    }
                }
                assert(tree_lookup(root, path@) is Some);
            }
            k = k + 1;
            assert(rest@ =~= es.subrange(k as int, n as int));
        }
        assert(paths_compatible(ps));
        root
    }
}

/// One step of the parameter writer while it waits for the handshake
/// response. A response with a failing status is answered with its error
/// and the writer keeps waiting; one that names a reply subject connects the
/// parameters to its `.params` subject and the peer's errors to its `.error`
/// subject, draining what was buffered first; one
/// that names none is refused; the end of the subscription leaves the writer
/// corrupted. A writer past the handshake has nothing to decide.
pub fn handshake_step(state: HandshakeState, event: HandshakeEvent) -> (r: (HandshakeState, HandshakeAction))
    ensures
        match state {
            HandshakeState::Handshaking { buffer } => match status_failure(event) {
                Some((kind, message)) => r.0 == state && fails_with(r.1, kind, message),
                None => match event {
                    HandshakeEvent::Response { reply: Some(tx) } => {
                        &&& r.1 matches HandshakeAction::Connect { params, errors } && params@ == tx@ + ".params"@
                            && (errors matches Some(e) && e@ == tx@ + ".error"@)
                        &&& connected(r.0, tx@ + ".params"@, buffer@)
                    },
                    HandshakeEvent::Response { reply: None } => r.0 == state && fails_with(
                        r.1,
                        ErrorKind::InvalidInput,
                        Some("peer did not specify a reply subject"@),
                    ),
                    _ => r.0 is Corrupted && fails_with(r.1, ErrorKind::BrokenPipe, None),
                },
            },
            HandshakeState::Corrupted => r.0 is Corrupted && fails_with(
                r.1,
                ErrorKind::Other,
                Some("corrupted memory state"@),
            ),
            _ => r.0 == state && r.1 is Done,
        },
{
    match state {
        HandshakeState::Handshaking { buffer } => {
            if let Some(e) = response_failure(&event) {
                return (HandshakeState::Handshaking { buffer }, HandshakeAction::Fail(e));
            }
            match event {
                HandshakeEvent::Response { reply: Some(tx) } => {
                    let params = param_subject(tx.as_str());
                    let errors = error_subject(tx.as_str());
                    let s = connect(&params, buffer);
                    (s, HandshakeAction::Connect { params, errors: Some(errors) })
                },
                HandshakeEvent::Response { reply: None } => (
                    HandshakeState::Handshaking { buffer },
                    HandshakeAction::Fail(error_with(ErrorKind::InvalidInput, "peer did not specify a reply subject")),
                ),
                _ => (HandshakeState::Corrupted, HandshakeAction::Fail(plain_error(ErrorKind::BrokenPipe))),
            }
        },
        HandshakeState::Corrupted => (HandshakeState::Corrupted, HandshakeAction::Fail(corrupted_error())),
        other => (other, HandshakeAction::Done),
    }
}

} // verus!
