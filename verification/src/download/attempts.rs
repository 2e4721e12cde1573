//! Attempts to download one piece from one peer after another.

use vstd::prelude::*;
use crate::tracker::address::PeerAddr;

verus! {

/// The attempts to download a piece: the peers are tried in order, until one of them succeeds.
pub struct Attempts<T, E> {
    tried: usize,
    success: Option<T>,
    last_error: Option<E>,
}

/// The model of the attempts.
#[verifier::ext_equal]
pub struct Tries<T, E> {
    /// How many peers were tried.
    pub tried: nat,
    /// What the peer that succeeded gave.
    pub success: Option<T>,
    /// The error of the last peer that failed.
    pub last_error: Option<E>,
}

impl<T, E> View for Attempts<T, E> {
    type V = Tries<T, E>;

    closed spec fn view(&self) -> Tries<T, E> {
        Tries { tried: self.tried as nat, success: self.success, last_error: self.last_error }
    }
}

/// The attempts once a peer has succeeded or failed.
pub open spec fn after<T, E>(state: Tries<T, E>, outcome: Result<T, E>) -> Tries<T, E> {
    match outcome {
        Ok(data) => Tries { success: Some(data), ..state },
        Err(e) => Tries { last_error: Some(e), ..state },
    }
}

impl<T, E> Attempts<T, E> {
    pub fn new() -> (r: Self)
        ensures
            r@ == (Tries::<T, E> { tried: 0, success: None, last_error: None }),
    {
        Attempts { tried: 0, success: None, last_error: None }
    }

    /// The peer to try next. There is none once a peer has succeeded.
    pub fn next_peer(&mut self, peers: &[PeerAddr]) -> (r: Option<PeerAddr>)
        ensures
            if old(self)@.success is None && old(self)@.tried < peers@.len() {
                &&& r == Some(peers@[old(self)@.tried as int])
                &&& final(self)@ == (Tries { tried: old(self)@.tried + 1, ..old(self)@ })
            } else {
                r is None && final(self)@ == old(self)@
            },
    {
        if self.success.is_none() && self.tried < peers.len() {
            let peer = peers[self.tried];
            self.tried = self.tried + 1;
            Some(peer)
        } else {
            None
        }
    }

    /// Takes in what the peer gave.
    pub fn succeeded(&mut self, data: T)
        ensures
            final(self)@ == after(old(self)@, Ok(data)),
    {
        self.success = Some(data);
    }

    /// Takes in that the peer failed.
    pub fn failed(&mut self, error: E)
        ensures
            final(self)@ == after(old(self)@, Err(error)),
    {
        self.last_error = Some(error);
    }

    /// The result of the attempts: what a peer gave, or else the error of the last peer that
    /// failed, if one did.
    pub fn finish(self) -> (r: Result<T, Option<E>>)
        ensures
            r == match self@.success {
                Some(data) => Ok::<T, Option<E>>(data),
                None => Err(self@.last_error),
            },
    {
        match self.success {
            Some(data) => Ok(data),
            None => Err(self.last_error),
        }
    }
}

/// A success keeps what the peer gave and changes nothing else; a failure leaves its error and
/// changes nothing else.
pub proof fn law_outcomes<T, E>(state: Tries<T, E>, data: T, e: E)
    ensures
        after(state, Ok(data)).success == Some(data),
        after(state, Ok(data)).tried == state.tried,
        after(state, Ok(data)).last_error == state.last_error,
        after(state, Err(e)).last_error == Some(e),
        after(state, Err(e)).tried == state.tried,
        after(state, Err(e)).success == state.success,
{
}

/// The attempts once the peers have succeeded or failed in turn. They end with the first success.
pub open spec fn attempted<T, E>(state: Tries<T, E>, outcomes: Seq<Result<T, E>>) -> Tries<T, E>
    decreases outcomes.len(),
{
    if state.success is Some || outcomes.len() == 0 {
        state
    } else {
        attempted(after(state, outcomes[0]), outcomes.skip(1))
    }
}

/// The first success decides, whatever comes after it.
pub proof fn law_first_success_decides<T, E>(
    state: Tries<T, E>,
    outcomes: Seq<Result<T, E>>,
    k: int,
)
    requires
        state.success is None,
        0 <= k < outcomes.len(),
        outcomes[k] is Ok,
        forall|i: int| 0 <= i < k ==> (#[trigger] outcomes[i]) is Err,
    ensures
        attempted(state, outcomes).success == Some(outcomes[k]->Ok_0),
    decreases k,
{
    let next = after(state, outcomes[0]);
    let rest = outcomes.skip(1);
    if k == 0 {
        assert(attempted(next, rest) == next);
    } else {
        assert(outcomes[0] is Err);
        assert forall|i: int| 0 <= i < k - 1 implies (#[trigger] rest[i]) is Err by {
            assert(rest[i] == outcomes[i + 1]);
        }
        law_first_success_decides(next, rest, k - 1);
    }
}

/// Where every peer fails, there is no success, and the error of the last one counts.
pub proof fn law_last_failure_counts<T, E>(state: Tries<T, E>, outcomes: Seq<Result<T, E>>)
    requires
        state.success is None,
        outcomes.len() > 0,
        forall|i: int| 0 <= i < outcomes.len() ==> (#[trigger] outcomes[i]) is Err,
    ensures
        attempted(state, outcomes).success is None,
        attempted(state, outcomes).last_error == Some(outcomes.last()->Err_0),
    decreases outcomes.len(),
{
    let next = after(state, outcomes[0]);
    let rest = outcomes.skip(1);
    assert(outcomes[0] is Err);
    if rest.len() == 0 {
        assert(attempted(next, rest) == next);
    } else {
        assert forall|i: int| 0 <= i < rest.len() implies (#[trigger] rest[i]) is Err by {
            assert(rest[i] == outcomes[i + 1]);
        }
        assert(rest.last() == outcomes.last());
        law_last_failure_counts(next, rest);
    }
}

} // verus!
