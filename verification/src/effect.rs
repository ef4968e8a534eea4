//! What the reactor asks its caller to do with the poll, and what the
//! caller reports back.

use vstd::prelude::*;
use crate::endpoint::{Endpoint, Interest};

verus! {

/// The readiness that the poll reported for a token.
#[derive(Clone, Copy, Debug, PartialEq, Eq, Structural)]
pub struct Readiness {
    pub readable: bool,
    pub writable: bool,
    pub hup: bool,
    pub error: bool,
}

/// One readiness event of a batch.
#[derive(Clone, Copy, Debug, PartialEq, Eq, Structural)]
pub struct Event {
    pub token: usize,
    pub readiness: Readiness,
}

/// What the caller has to do next for the event at hand.
#[derive(Clone, Copy, Debug, PartialEq, Eq, Structural)]
pub enum Step {
    /// The event is finished: go on with the next one.
    Done,
    /// Accept one connection from the listener and report it.
    Accept,
    /// Run one drain step on the endpoint of the event and report it.
    Drain(Event),
    /// Run one flush step on the endpoint of the event and report it.
    Flush(Event),
}

/// What one drain step on an endpoint came to.
pub enum DrainOutcome {
    /// The engine made progress: `produced` are the bytes it has ready
    /// for the peer, and `peer` is the endpoint it spawned, if any.
    Advanced { produced: Vec<u8>, peer: Option<Endpoint> },
    /// The socket has nothing more for now.
    WouldBlock,
    /// The connection failed.
    Fatal,
}

/// What one flush step on an endpoint came to.
pub enum FlushOutcome {
    /// The socket took the first `written` bytes of the outbound buffer.
    Advanced { written: usize },
    /// The socket takes nothing more for now.
    WouldBlock,
    /// The connection failed.
    Fatal,
}

/// An operation on the poll, or on a socket that never reached it.
#[derive(Clone, Copy, Debug, PartialEq, Eq, Structural)]
pub enum Effect {
    /// Register the socket under the token, edge-triggered and one-shot.
    Register { sock: u64, token: usize, interest: Interest },
    /// Arm the registered socket again with its present interest.
    Reregister { sock: u64, token: usize, interest: Interest },
    /// Take the socket off the poll and dispose of it.
    Deregister { sock: u64, token: usize },
    /// Dispose of a socket that was never registered.
    Discard { sock: u64 },
}

/// Whether the poll, which has `registered` on it, takes the effect.
pub open spec fn performable(registered: Set<usize>, effect: Effect) -> bool {
    match effect {
        Effect::Register { token, .. } => !registered.contains(token),
        Effect::Reregister { token, .. } => registered.contains(token),
        Effect::Deregister { token, .. } => registered.contains(token),
        Effect::Discard { .. } => true,
    }
}

/// The tokens on the poll after the effect.
pub open spec fn perform(registered: Set<usize>, effect: Effect) -> Set<usize> {
    match effect {
        Effect::Register { token, .. } => registered.insert(token),
        Effect::Reregister { .. } => registered,
        Effect::Deregister { token, .. } => registered.remove(token),
        Effect::Discard { .. } => registered,
    }
}

/// The tokens on the poll after the effects, performed in order.
pub open spec fn perform_all(registered: Set<usize>, effects: Seq<Effect>) -> Set<usize>
    decreases effects.len(),
{
    if effects.len() == 0 {
        registered
    } else {
        perform(perform_all(registered, effects.drop_last()), effects.last())
    }
}

/// Whether the poll takes each of the effects in its turn.
pub open spec fn all_performable(registered: Set<usize>, effects: Seq<Effect>) -> bool
    decreases effects.len(),
{
    if effects.len() == 0 {
        true
    } else {
        &&& all_performable(registered, effects.drop_last())
        &&& performable(perform_all(registered, effects.drop_last()), effects.last())
    }
}

/// The effects lead a poll that holds the tokens `before` to one that
/// holds the tokens `after`, and none of them is refused on the way.
pub open spec fn in_step(before: Set<usize>, effects: Seq<Effect>, after: Set<usize>) -> bool {
    all_performable(before, effects) && perform_all(before, effects) == after
}

/// One more effect at the end is performed after all the others.
pub proof fn lemma_perform_push(registered: Set<usize>, effects: Seq<Effect>, effect: Effect)
    ensures
        perform_all(registered, effects.push(effect)) == perform(
            perform_all(registered, effects),
            effect,
        ),
        all_performable(registered, effects.push(effect)) == (all_performable(registered, effects)
            && performable(perform_all(registered, effects), effect)),
{
    assert(effects.push(effect).drop_last() =~= effects);
}

/// Two runs of effects, one after the other, act as their concatenation.
pub proof fn lemma_perform_concat(registered: Set<usize>, first: Seq<Effect>, second: Seq<Effect>)
    ensures
        perform_all(registered, first + second) == perform_all(
            perform_all(registered, first),
            second,
        ),
        all_performable(registered, first + second) == (all_performable(registered, first)
            && all_performable(perform_all(registered, first), second)),
    decreases second.len(),
{
    if second.len() == 0 {
        assert(first + second =~= first);
    } else {
        lemma_perform_concat(registered, first, second.drop_last());
        assert((first + second).drop_last() =~= first + second.drop_last());
        assert((first + second).last() == second.last());
    }
}

/// A token that the poll holds is not taken off twice unless it was put
/// on again in between.
pub proof fn lemma_no_double_deregister(
    registered: Set<usize>,
    effects: Seq<Effect>,
    i: int,
    j: int,
)
    requires
        all_performable(registered, effects),
        0 <= i < j < effects.len(),
        effects[i] is Deregister,
        effects[j] is Deregister,
        effects[i]->Deregister_token == effects[j]->Deregister_token,
    ensures
        exists|k: int|
            i < k < j && #[trigger] effects[k] is Register && effects[k]->Register_token
                == effects[i]->Deregister_token,
    decreases effects.len(),
{
    let token = effects[i]->Deregister_token;
    if j < effects.len() - 1 {
        lemma_no_double_deregister(registered, effects.drop_last(), i, j);
        let k = choose|k: int|
            i < k < j && #[trigger] effects.drop_last()[k] is Register
                && effects.drop_last()[k]->Register_token == token;
        assert(effects[k] is Register && effects[k]->Register_token == token);
    } else {
        if !exists|k: int|
            i < k < j && #[trigger] effects[k] is Register && effects[k]->Register_token == token {
            assert forall|k: int| i < k < effects.drop_last().len() implies !(
            #[trigger] effects.drop_last()[k] is Register && effects.drop_last()[k]->Register_token
                == token) by {
                assert(effects.drop_last()[k] == effects[k]);
            }
            lemma_absent_until_registered(registered, effects.drop_last(), i);
            assert(effects.last() == effects[j]);
            assert(false);
        }
    }
}

/// After a token was taken off the poll it stays off as long as no
/// effect puts it on again.
pub proof fn lemma_absent_until_registered(registered: Set<usize>, effects: Seq<Effect>, i: int)
    requires
        all_performable(registered, effects),
        0 <= i < effects.len(),
        effects[i] is Deregister,
        forall|k: int|
            i < k < effects.len() ==> !(#[trigger] effects[k] is Register
                && effects[k]->Register_token == effects[i]->Deregister_token),
    ensures
        !perform_all(registered, effects).contains(effects[i]->Deregister_token),
    decreases effects.len(),
{
    if i < effects.len() - 1 {
        assert forall|k: int| i < k < effects.drop_last().len() implies !(
        #[trigger] effects.drop_last()[k] is Register && effects.drop_last()[k]->Register_token
            == effects[i]->Deregister_token) by {
            assert(effects.drop_last()[k] == effects[k]);
        }
        lemma_absent_until_registered(registered, effects.drop_last(), i);
        assert(effects[effects.len() - 1] == effects.last());
    }
}

} // verus!
