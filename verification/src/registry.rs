//! The table of subscribers by subject through which a transport client
//! routes the messages it receives, and the commands that change it.

use vstd::prelude::*;

use vstd::hash_map::StringHashMap;

verus! {

/// A change to the table of subscribers.
pub enum Command<T> {
    /// Route the messages on a subject to a subscriber, in place of any
    /// subscriber it had.
    Subscribe(String, T),
    /// Stop routing the messages on a subject.
    Unsubscribe(String),
    /// Several changes, in order.
    Batch(Vec<Command<T>>),
}

/// The table after `cmd`.
pub open spec fn apply<T>(m: Map<Seq<char>, T>, cmd: Command<T>) -> Map<Seq<char>, T>
    decreases cmd, 0nat,
{
    match cmd {
        Command::Subscribe(s, t) => m.insert(s@, t),
        Command::Unsubscribe(s) => m.remove(s@),
        Command::Batch(cs) => {
            proof {
                assert(decreases_to!(cmd => cs));
                assert(decreases_to!(cs => cs@));
            }
            apply_all(m, cs@, cs@.len())
        },
    }
}

/// The table after the first `n` of `cmds`, in order.
pub open spec fn apply_all<T>(m: Map<Seq<char>, T>, cmds: Seq<Command<T>>, n: nat) -> Map<Seq<char>, T>
    decreases cmds, n,
{
    if n == 0 || n > cmds.len() {
        m
    } else {
        proof {
            assert(decreases_to!(cmds => cmds[n - 1]));
        }
        apply(apply_all(m, cmds, (n - 1) as nat), cmds[n - 1])
    }
}

/// The subscribers of a transport client, by subject.
#[verifier::reject_recursive_types(T)]
pub struct Subscriptions<T> {
    subs: StringHashMap<T>,
}

impl<T> View for Subscriptions<T> {
    type V = Map<Seq<char>, T>;

    closed spec fn view(&self) -> Map<Seq<char>, T> {
        self.subs@
    }
}

impl<T> Subscriptions<T> {
    /// An empty table.
    pub fn new() -> (r: Self)
        ensures
            r@ == Map::<Seq<char>, T>::empty(),
    {
        Subscriptions { subs: StringHashMap::new() }
    }

    /// Stops routing the messages on `subject`.
    pub fn unsubscribe(&mut self, subject: &str)
        ensures
            final(self)@ == old(self)@.remove(subject@),
    {
        self.subs.remove(subject);
    }
}

impl<T> Subscriptions<T> {
    /// Routes the messages on `subject` to `sub`, in place of any subscriber
    /// it had.
    pub fn subscribe(&mut self, subject: String, sub: T)
        ensures
            final(self)@ == old(self)@.insert(subject@, sub),
    {
        self.subs.insert(subject, sub);
    }

    /// The subscriber of `subject`, if it has one.
    pub fn get(&self, subject: &str) -> (r: Option<&T>)
        ensures
            r is Some <==> self@.dom().contains(subject@),
            r is Some ==> *r.unwrap() == self@[subject@],
    {
        self.subs.get(subject)
    }

    /// Applies `cmd` to the table.
    pub fn handle_command(&mut self, cmd: Command<T>)
        ensures
            final(self)@ == apply(old(self)@, cmd),
        decreases cmd,
    {
        match cmd {
            Command::Subscribe(subject, sub) => self.subscribe(subject, sub),
            Command::Unsubscribe(subject) => self.unsubscribe(subject.as_str()),
            Command::Batch(cmds) => {
                let ghost cs = cmds@;
                let ghost m0 = self@;
                assert(decreases_to!(cmd => cmds));
                assert(decreases_to!(cmds => cmds@));
                let mut rest = cmds;
                let total = rest.len();
                assert(cs.len() == total);
                let mut k: usize = 0;
                while rest.len() > 0
                    invariant
                        k <= cs.len() <= usize::MAX,
                        rest@ == cs.subrange(k as int, cs.len() as int),
                        self@ == apply_all(m0, cs, k as nat),
                        cs == cmds@,
                        forall|j: int| 0 <= j < cs.len() ==> decreases_to!(cmd => #[trigger] cs[j]),
                    decreases rest@.len(),
                {
                    let c = rest.remove(0);
                    assert(c == cs[k as int]);
                    self.handle_command(c);
                    k = k + 1;
                    assert(rest@ =~= cs.subrange(k as int, cs.len() as int));
                }
            },
        }
    }
}

} // verus!
