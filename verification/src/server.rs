//! The table of handlers a framed server dispatches invocations through: one
//! handler per instance and function, registered once.

use vstd::prelude::*;

use crate::codec::str_eq;

verus! {

/// Why a handler could not be registered.
#[derive(Clone, Copy, Debug, PartialEq, Eq, Structural)]
pub enum ServeError {
    /// A handler for the same instance and function is already registered.
    AlreadyExists,
}

/// The handler that `entries` hold for `instance` and `func`: the last one
/// added for them.
pub open spec fn handler_lookup<S>(entries: Seq<(String, String, S)>, instance: Seq<char>, func: Seq<char>) -> Option<S>
    decreases entries.len(),
{
    if entries.len() == 0 {
        None
    } else if entries.last().0@ == instance && entries.last().1@ == func {
        Some(entries.last().2)
    } else {
        handler_lookup(entries.drop_last(), instance, func)
    }
}

/// The handlers of a server, by instance and function.
pub struct Handlers<S> {
    entries: Vec<(String, String, S)>,
}

impl<S> View for Handlers<S> {
    type V = Map<(Seq<char>, Seq<char>), S>;

    closed spec fn view(&self) -> Map<(Seq<char>, Seq<char>), S> {
        Map::new(
            |k: (Seq<char>, Seq<char>)| handler_lookup(self.entries@, k.0, k.1) is Some,
            |k: (Seq<char>, Seq<char>)| handler_lookup(self.entries@, k.0, k.1)->0,
        )
    }
}

/// An entry added last is found for its instance and function, and hides no
/// other.
proof fn lemma_handler_push<S>(entries: Seq<(String, String, S)>, e: (String, String, S), i: Seq<char>, f: Seq<char>)
    ensures
        handler_lookup(entries.push(e), i, f) == if e.0@ == i && e.1@ == f {
            Some(e.2)
        } else {
            handler_lookup(entries, i, f)
        },
{
    assert(entries.push(e).drop_last() =~= entries);
}

impl<S> Handlers<S> {
    /// A server with no handlers.
    pub fn new() -> (r: Self)
        ensures
            r@ == Map::<(Seq<char>, Seq<char>), S>::empty(),
    {
        let r = Handlers { entries: Vec::new() };
        assert(r@ =~= Map::<(Seq<char>, Seq<char>), S>::empty());
        r
    }

    /// The handler of `func` of `instance`, if one is registered; an
    /// invocation of a function without one is refused as unhandled.
    pub fn get(&self, instance: &str, func: &str) -> (r: Option<&S>)
        ensures
            r is Some <==> self@.dom().contains((instance@, func@)),
            r is Some ==> *r.unwrap() == self@[(instance@, func@)],
    {
        let mut i = self.entries.len();
        assert(self.entries@.subrange(0, i as int) =~= self.entries@);
        while i > 0
            invariant
                i <= self.entries@.len(),
                handler_lookup(self.entries@, instance@, func@) == handler_lookup(
                    self.entries@.subrange(0, i as int),
                    instance@,
                    func@,
                ),
            decreases i,
        {
            let ghost pre = self.entries@.subrange(0, i as int);
            assert(pre.drop_last() =~= self.entries@.subrange(0, i - 1));
            let e = &self.entries[i - 1];
            if str_eq(e.0.as_str(), instance) && str_eq(e.1.as_str(), func) {
                return Some(&e.2);
            }
            i = i - 1;
        }
        None
    }

    /// Registers `handler` for `func` of `instance`, refusing when one is
    /// already registered for them (the table is then unchanged).
    pub fn serve(&mut self, instance: &str, func: &str, handler: S) -> (r: Result<(), ServeError>)
        ensures
            old(self)@.dom().contains((instance@, func@)) ==> r == Err::<(), ServeError>(ServeError::AlreadyExists)
                && final(self)@ == old(self)@,
            !old(self)@.dom().contains((instance@, func@)) ==> r is Ok && final(self)@ == old(self)@.insert(
                (instance@, func@),
                handler,
            ),
    {
        if self.get(instance, func).is_some() {
            return Err(ServeError::AlreadyExists);
        }
        let ghost before = self.entries@;
        let e = (String::from_str(instance), String::from_str(func), handler);
        let ghost ge = e;
        self.entries.push(e);
        assert forall|k: (Seq<char>, Seq<char>)| #[trigger] handler_lookup(self.entries@, k.0, k.1) == if ge.0@ == k.0
            && ge.1@ == k.1 {
            Some(ge.2)
        } else {
            handler_lookup(before, k.0, k.1)
        } by {
            lemma_handler_push(before, ge, k.0, k.1);
        }
        assert(self@ =~= old(self)@.insert((instance@, func@), handler));
        Ok(())
    }
}

} // verus!
