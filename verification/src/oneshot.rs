//! A stream pair that serves exactly one invocation or acceptance.

use vstd::prelude::*;

verus! {

/// Why the stream pair could not be had.
#[derive(Clone, Copy, Debug, PartialEq, Eq, Structural)]
pub enum OneshotError {
    /// The pair was taken before: "stream was already used".
    AlreadyUsed,
}

/// A stream pair, `I` to read from and `O` to write to, that can be taken
/// once.
pub struct Oneshot<I, O> {
    pub inner: Option<(I, O)>,
}

impl<I, O> Oneshot<I, O> {
    /// A pair not used yet.
    pub fn from(pair: (I, O)) -> (r: Self)
        ensures
            r.inner == Some(pair),
    {
        Oneshot { inner: Some(pair) }
    }

    /// The stream pair, if it has not been taken yet; it can be taken once.
    pub fn try_take_inner(&mut self) -> (r: Result<(I, O), OneshotError>)
        ensures
            final(self).inner is None,
            match old(self).inner {
                Some(p) => r == Ok::<(I, O), OneshotError>(p),
                None => r == Err::<(I, O), OneshotError>(OneshotError::AlreadyUsed),
            },
    {
        match self.inner.take() {
            Some(p) => Ok(p),
            None => Err(OneshotError::AlreadyUsed),
        }
    }
}

} // verus!
