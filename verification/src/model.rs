//! The reactor as a mathematical state, and its transitions.

use vstd::prelude::*;
use crate::effect::{DrainOutcome, Effect, Event, FlushOutcome, Step, in_step};
use crate::endpoint::{
    EndpointView, spec_consume, spec_interest, spec_pull, spec_push, spec_receive,
};
use crate::links::{spec_unlink, symmetric};

verus! {

/// The number of endpoints a server admits unless told otherwise.
pub const MAX_PUMPS: usize = 2048;

/// The token under which the listener is registered with the poll.
pub const ROOT_TOKEN: usize = usize::MAX - 1;

/// The state of the reactor.
#[verifier::ext_equal]
pub struct State {
    /// The configured maximum number of endpoints.
    pub limit: nat,
    /// The key handed to every endpoint's engine.
    pub secret: Seq<u8>,
    /// The live endpoints by token.
    pub table: Map<usize, EndpointView>,
    /// The tunnels: each token with its peer.
    pub links: Map<usize, usize>,
    /// Endpoints that lost their peer and wait for removal.
    pub zombies: Set<usize>,
    /// Endpoints that failed during the batch at hand.
    pub stale: Set<usize>,
    /// Endpoints spawned during the batch at hand, each with the token
    /// of its initiator, in the order of arrival.
    pub pending: Seq<(usize, EndpointView)>,
}

/// What one report from the caller leads to.
#[verifier::ext_equal]
pub struct Outcome {
    pub state: State,
    pub next: Step,
    pub effects: Seq<Effect>,
}

impl State {
    /// The slots in use or promised to a pending endpoint.
    pub open spec fn reserved(self) -> nat {
        self.table.len() + self.pending.len()
    }

    /// Whether one more endpoint can be admitted.
    pub open spec fn has_room(self) -> bool {
        self.reserved() < self.limit
    }

    /// Whether a spawned endpoint is waiting for `token` as its initiator.
    pub open spec fn awaits_peer(self, token: usize) -> bool {
        exists|i: int| 0 <= i < self.pending.len() && (#[trigger] self.pending[i]).0 == token
    }

    /// The place in the pending queue of the endpoint that waits for
    /// `token`.
    pub open spec fn place_of(self, token: usize) -> int
        recommends
            self.awaits_peer(token),
    {
        choose|i: int| 0 <= i < self.pending.len() && (#[trigger] self.pending[i]).0 == token
    }

    /// The invariant of the reactor: the table stays within its limit,
    /// tunnels are symmetric and join live endpoints, every queue names
    /// live endpoints only, and no endpoint has two spawned endpoints
    /// waiting for it.
    pub open spec fn wf(self) -> bool {
        &&& self.table.dom().finite()
        &&& self.links.dom().finite()
        &&& self.reserved() <= self.limit
        &&& symmetric(self.links)
        &&& forall|t: usize| #[trigger] self.links.contains_key(t) ==> self.table.contains_key(t)
        &&& forall|t: usize| #[trigger] self.zombies.contains(t) ==> self.table.contains_key(t)
        &&& forall|t: usize| #[trigger] self.stale.contains(t) ==> self.table.contains_key(t)
        &&& forall|i: int|
            0 <= i < self.pending.len() ==> self.table.contains_key((#[trigger] self.pending[i]).0)
        &&& forall|i: int, j: int|
            0 <= i < j < self.pending.len() ==> (#[trigger] self.pending[i]).0 != (
            #[trigger] self.pending[j]).0
    }

    /// No batch is under way: nothing is marked stale and no spawned
    /// endpoint is waiting.
    pub open spec fn quiescent(self) -> bool {
        self.stale == Set::<usize>::empty() && self.pending.len() == 0
    }

    /// The tokens that the poll holds when it is in step with the table.
    pub open spec fn registered(self) -> Set<usize> {
        self.table.dom()
    }
}

/// The state of a server that was just made.
pub open spec fn initial(limit: nat, secret: Seq<u8>) -> State {
    State {
        limit,
        secret,
        table: Map::empty(),
        links: Map::empty(),
        zombies: Set::empty(),
        stale: Set::empty(),
        pending: Seq::empty(),
    }
}

/// The effect that arms `token` again with its present interest.
pub open spec fn rearm(s: State, token: usize) -> Effect {
    Effect::Reregister {
        sock: s.table[token].sock,
        token,
        interest: spec_interest(s.table[token]),
    }
}

/// The state with `token` marked for removal at the end of the batch.
pub open spec fn mark_stale(s: State, token: usize) -> State {
    State { stale: s.stale.insert(token), ..s }
}

/// Fan-out: what `token` has received moves to the end of its peer's
/// outbound buffer, and the peer is armed again.  Nothing happens where
/// `token` has no peer or has received nothing.
pub open spec fn spec_fan_out(s: State, token: usize) -> (State, Seq<Effect>) {
    if s.links.contains_key(token) && s.table[token].inbound.len() > 0 {
        let peer = s.links[token];
        let bytes = s.table[token].inbound;
        let table = s.table.insert(token, spec_pull(s.table[token])).insert(
            peer,
            spec_push(s.table[peer], bytes),
        );
        let after = State { table, ..s };
        (after, seq![rearm(after, peer)])
    } else {
        (s, Seq::empty())
    }
}

/// Fan-in: what the peer of `token` has received moves to the end of the
/// outbound buffer of `token`, and the peer is armed again.  Nothing
/// happens where `token` has no peer or the peer has received nothing.
pub open spec fn spec_fan_in(s: State, token: usize) -> (State, Seq<Effect>) {
    if s.links.contains_key(token) && s.table[s.links[token]].inbound.len() > 0 {
        let peer = s.links[token];
        let bytes = s.table[peer].inbound;
        let table = s.table.insert(peer, spec_pull(s.table[peer])).insert(
            token,
            spec_push(s.table[token], bytes),
        );
        let after = State { table, ..s };
        (after, seq![rearm(after, peer)])
    } else {
        (s, Seq::empty())
    }
}

/// The end of an event: hangup or error marks the endpoint stale; an
/// endpoint that is not stale is armed again.
pub open spec fn spec_settle(s: State, event: Event) -> (State, Seq<Effect>) {
    let token = event.token;
    if !s.table.contains_key(token) {
        (s, Seq::empty())
    } else if event.readiness.hup || event.readiness.error {
        (mark_stale(s, token), Seq::empty())
    } else if s.stale.contains(token) {
        (s, Seq::empty())
    } else {
        (s, seq![rearm(s, token)])
    }
}

/// The part of an event after reading: a writable endpoint takes over
/// what its peer has for it and is then flushed; any other is settled.
pub open spec fn spec_begin_write(s: State, event: Event) -> Outcome {
    if event.readiness.writable {
        let (state, effects) = spec_fan_in(s, event.token);
        Outcome { state, next: Step::Flush(event), effects }
    } else {
        let (state, effects) = spec_settle(s, event);
        Outcome { state, next: Step::Done, effects }
    }
}

/// The start of an event.  The listener's token asks for an accept while
/// there is room; an unknown token is passed over; a readable endpoint is
/// drained first.
pub open spec fn spec_dispatch(s: State, event: Event) -> Outcome {
    if event.token == ROOT_TOKEN {
        Outcome {
            state: s,
            next: if s.has_room() {
                Step::Accept
            } else {
                Step::Done
            },
            effects: Seq::empty(),
        }
    } else if !s.table.contains_key(event.token) {
        Outcome { state: s, next: Step::Done, effects: Seq::empty() }
    } else if event.readiness.readable {
        Outcome { state: s, next: Step::Drain(event), effects: Seq::empty() }
    } else {
        spec_begin_write(s, event)
    }
}

/// The end of draining: fan-out to the peer, then the write part.
pub open spec fn spec_after_drain(s: State, event: Event) -> Outcome {
    let (fanned, first) = spec_fan_out(s, event.token);
    let rest = spec_begin_write(fanned, event);
    Outcome { state: rest.state, next: rest.next, effects: first + rest.effects }
}

/// A drain step spawned the endpoint `peer` on behalf of the event's
/// token.  Where an earlier one is still waiting for the same token, the
/// newcomer takes its place and the earlier one is discarded.  Otherwise
/// the newcomer is queued while there is room; without room it is
/// discarded, the token marked stale and draining ends.
pub open spec fn spec_spawn(s: State, event: Event, peer: EndpointView) -> Outcome {
    let token = event.token;
    if s.awaits_peer(token) {
        let place = s.place_of(token);
        Outcome {
            state: State { pending: s.pending.update(place, (token, peer)), ..s },
            next: Step::Drain(event),
            effects: seq![Effect::Discard { sock: s.pending[place].1.sock }],
        }
    } else if !s.has_room() {
        let rest = spec_after_drain(mark_stale(s, token), event);
        Outcome {
            state: rest.state,
            next: rest.next,
            effects: seq![Effect::Discard { sock: peer.sock }] + rest.effects,
        }
    } else {
        Outcome {
            state: State { pending: s.pending.push((token, peer)), ..s },
            next: Step::Drain(event),
            effects: Seq::empty(),
        }
    }
}

/// The state after the endpoint of `token` received `bytes`.
pub open spec fn spec_received(s: State, token: usize, bytes: Seq<u8>) -> State {
    State { table: s.table.insert(token, spec_receive(s.table[token], bytes)), ..s }
}

/// The state after the socket of `token` took `written` bytes.
pub open spec fn spec_written(s: State, token: usize, written: nat) -> State {
    State { table: s.table.insert(token, spec_consume(s.table[token], written)), ..s }
}

/// The report of one drain step on the endpoint of the event.  Progress
/// adds what was produced to the inbound buffer, takes note of a spawned
/// endpoint, and asks for another step.  A socket that would block ends
/// draining.  A failure marks the endpoint stale and ends draining.  For a
/// token without an endpoint nothing is done but to discard what was
/// spawned.
pub open spec fn spec_drained(s: State, event: Event, outcome: DrainOutcome) -> Outcome {
    let token = event.token;
    if !s.table.contains_key(token) {
        Outcome {
            state: s,
            next: Step::Done,
            effects: match outcome {
                DrainOutcome::Advanced { peer: Some(peer), .. } => seq![
                    Effect::Discard { sock: peer@.sock },
                ],
                _ => Seq::empty(),
            },
        }
    } else {
        match outcome {
            DrainOutcome::Advanced { produced, peer } => {
                let received = spec_received(s, token, produced@);
                match peer {
                    Some(peer) => spec_spawn(received, event, peer@),
                    None => Outcome {
                        state: received,
                        next: Step::Drain(event),
                        effects: Seq::empty(),
                    },
                }
            },
            DrainOutcome::WouldBlock => spec_after_drain(s, event),
            DrainOutcome::Fatal => spec_after_drain(mark_stale(s, token), event),
        }
    }
}

/// The report of one flush step on the endpoint of the event.  Progress
/// drops what was written from the outbound buffer and asks for another
/// step.  A socket that would block ends the event.  A failure marks the
/// endpoint stale and ends the event.
pub open spec fn spec_flushed(s: State, event: Event, outcome: FlushOutcome) -> Outcome {
    let token = event.token;
    if !s.table.contains_key(token) {
        Outcome { state: s, next: Step::Done, effects: Seq::empty() }
    } else {
        match outcome {
            FlushOutcome::Advanced { written } => Outcome {
                state: spec_written(s, token, written as nat),
                next: Step::Flush(event),
                effects: Seq::empty(),
            },
            FlushOutcome::WouldBlock => {
                let (state, effects) = spec_settle(s, event);
                Outcome { state, next: Step::Done, effects }
            },
            FlushOutcome::Fatal => {
                let (state, effects) = spec_settle(mark_stale(s, token), event);
                Outcome { state, next: Step::Done, effects }
            },
        }
    }
}

/// An accepted connection `endpoint` was offered to the reactor in state
/// `s`.  Without room it is discarded and nothing changes.  With room it
/// enters the table under a token that was free, and is registered under
/// that token with its own socket and interest.
pub open spec fn admitted(
    s: State,
    endpoint: EndpointView,
    after: State,
    effects: Seq<Effect>,
) -> bool {
    if !s.has_room() {
        after == s && effects == seq![Effect::Discard { sock: endpoint.sock }]
    } else {
        &&& effects.len() == 1
        &&& effects[0] is Register
        &&& !s.table.contains_key(effects[0]->Register_token)
        &&& effects[0] == (Effect::Register {
            sock: endpoint.sock,
            token: effects[0]->Register_token,
            interest: spec_interest(endpoint),
        })
        &&& after == (State { table: s.table.insert(effects[0]->Register_token, endpoint), ..s })
    }
}

/// The endpoints that remain when those in `gone` are removed: their
/// tunnels are dissolved in both directions, and each peer that stays
/// behind joins the zombies.
pub open spec fn purge(s: State, gone: Set<usize>) -> State {
    State {
        table: s.table.remove_keys(gone),
        links: Map::new(
            |t: usize| s.links.contains_key(t) && !gone.contains(t) && !gone.contains(s.links[t]),
            |t: usize| s.links[t],
        ),
        zombies: Set::new(
            |t: usize|
                !gone.contains(t) && (s.zombies.contains(t) || (s.links.contains_key(t)
                    && gone.contains(s.links[t]))),
        ),
        stale: s.stale.difference(gone),
        ..s
    }
}

/// The first pending endpoint enters the table under `token` and is
/// paired with its initiator.  A peer that the initiator had before is
/// released from it and joins the zombies.
pub open spec fn spec_adopt(s: State, token: usize) -> State
    recommends
        s.pending.len() > 0,
{
    let owner = s.pending[0].0;
    State {
        table: s.table.insert(token, s.pending[0].1),
        links: spec_unlink(s.links, owner).insert(owner, token).insert(token, owner),
        zombies: if s.links.contains_key(owner) {
            s.zombies.insert(s.links[owner])
        } else {
            s.zombies
        },
        pending: s.pending.skip(1),
        ..s
    }
}

/// The pending endpoints enter the table in order, each under its token.
pub open spec fn spec_adopt_all(s: State, tokens: Seq<usize>) -> State
    decreases tokens.len(),
{
    if tokens.len() == 0 {
        s
    } else {
        spec_adopt(spec_adopt_all(s, tokens.drop_last()), tokens.last())
    }
}

/// The registrations that go with the adoption of the pending endpoints.
pub open spec fn registrations(s: State, tokens: Seq<usize>) -> Seq<Effect> {
    Seq::new(
        tokens.len(),
        |i: int|
            Effect::Register {
                sock: s.pending[i].1.sock,
                token: tokens[i],
                interest: spec_interest(s.pending[i].1),
            },
    )
}

/// The tokens are free in `table` and differ from each other.
pub open spec fn fresh(table: Map<usize, EndpointView>, tokens: Seq<usize>) -> bool {
    &&& forall|i: int| 0 <= i < tokens.len() ==> !table.contains_key(#[trigger] tokens[i])
    &&& tokens.no_duplicates()
}

/// The end of a batch: the pending endpoints are adopted under `tokens`,
/// then the zombies are removed, then the endpoints marked stale.
pub open spec fn spec_finish(s: State, tokens: Seq<usize>) -> State {
    let grown = spec_adopt_all(s, tokens);
    purge(grown, grown.zombies + grown.stale)
}

/// The effects take each endpoint of `table` that is in `gone` off the
/// poll, once, under its own socket, and do nothing else.
pub open spec fn deregisters(
    table: Map<usize, EndpointView>,
    gone: Set<usize>,
    effects: Seq<Effect>,
) -> bool {
    &&& forall|k: int|
        0 <= k < effects.len() ==> {
            &&& (#[trigger] effects[k]) is Deregister
            &&& gone.contains(effects[k]->Deregister_token)
            &&& table.contains_key(effects[k]->Deregister_token)
            &&& effects[k]->Deregister_sock == table[effects[k]->Deregister_token].sock
        }
    &&& forall|j: int, k: int|
        0 <= j < k < effects.len() ==> (#[trigger] effects[j])->Deregister_token != (
        #[trigger] effects[k])->Deregister_token
    &&& forall|t: usize|
        gone.contains(t) && #[trigger] table.contains_key(t) ==> exists|k: int|
            0 <= k < effects.len() && (#[trigger] effects[k])->Deregister_token == t
}

/// Removing one set of endpoints and then another is removing their
/// union.
pub proof fn lemma_purge_twice(s: State, first: Set<usize>, second: Set<usize>)
    ensures
        purge(purge(s, first), second) == purge(s, first + second),
{
    let a = purge(purge(s, first), second);
    let b = purge(s, first + second);
    assert(a.table =~= b.table);
    assert(a.links =~= b.links);
    assert(a.zombies =~= b.zombies);
    assert(a.stale =~= b.stale);
    assert(a =~= b);
}

/// Removing no endpoint changes nothing.
pub proof fn lemma_purge_nothing(s: State)
    ensures
        purge(s, Set::empty()) == s,
{
    let a = purge(s, Set::empty());
    assert(a.table =~= s.table);
    assert(a.links =~= s.links);
    assert(a.zombies =~= s.zombies);
    assert(a.stale =~= s.stale);
    assert(a =~= s);
}

/// Adoption leaves the stale set alone, sends no zombie away, takes the
/// adopted endpoints off the pending queue, and adds their tokens to the
/// table.
pub proof fn lemma_adopt_all_frame(s: State, tokens: Seq<usize>)
    requires
        tokens.len() <= s.pending.len(),
    ensures
        spec_adopt_all(s, tokens).limit == s.limit,
        spec_adopt_all(s, tokens).secret == s.secret,
        s.zombies.subset_of(spec_adopt_all(s, tokens).zombies),
        spec_adopt_all(s, tokens).stale == s.stale,
        spec_adopt_all(s, tokens).pending == s.pending.skip(tokens.len() as int),
        spec_adopt_all(s, tokens).table.dom() == s.table.dom() + tokens.to_set(),
    decreases tokens.len(),
{
    if tokens.len() == 0 {
        assert(s.pending.skip(0) =~= s.pending);
        assert(s.table.dom() + tokens.to_set() =~= s.table.dom());
    } else {
        let front = tokens.drop_last();
        lemma_adopt_all_frame(s, front);
        let before = spec_adopt_all(s, front);
        assert(before.pending.skip(1) =~= s.pending.skip(tokens.len() as int));
        assert forall|t: usize| #[trigger]
            tokens.to_set().contains(t) <==> front.to_set().contains(t) || t == tokens.last() by {
            if tokens.to_set().contains(t) {
                let i = choose|i: int| 0 <= i < tokens.len() && tokens[i] == t;
                if i < front.len() {
                    assert(front[i] == t);
                }
            }
            if front.to_set().contains(t) {
                let i = choose|i: int| 0 <= i < front.len() && front[i] == t;
                assert(tokens[i] == t);
            }
            if t == tokens.last() {
                assert(tokens[tokens.len() - 1] == t);
            }
        }
        assert(spec_adopt_all(s, tokens).table.dom() =~= s.table.dom() + tokens.to_set());
    }
}

/// The registrations of an adoption put exactly the new tokens on the
/// poll.
pub proof fn lemma_registrations_in_step(s: State, tokens: Seq<usize>)
    requires
        tokens.len() <= s.pending.len(),
        fresh(s.table, tokens),
    ensures
        in_step(s.table.dom(), registrations(s, tokens), s.table.dom() + tokens.to_set()),
    decreases tokens.len(),
{
    if tokens.len() == 0 {
        assert(s.table.dom() + tokens.to_set() =~= s.table.dom());
    } else {
        let front = tokens.drop_last();
        lemma_registrations_in_step(s, front);
        assert(registrations(s, tokens).drop_last() =~= registrations(s, front));
        assert forall|t: usize| #[trigger]
            tokens.to_set().contains(t) <==> front.to_set().contains(t) || t == tokens.last() by {
            if tokens.to_set().contains(t) {
                let i = choose|i: int| 0 <= i < tokens.len() && tokens[i] == t;
                if i < front.len() {
                    assert(front[i] == t);
                }
            }
            if front.to_set().contains(t) {
                let i = choose|i: int| 0 <= i < front.len() && front[i] == t;
                assert(tokens[i] == t);
            }
            if t == tokens.last() {
                assert(tokens[tokens.len() - 1] == t);
            }
        }
        assert(!front.to_set().contains(tokens.last())) by {
            if front.to_set().contains(tokens.last()) {
                let i = choose|i: int| 0 <= i < front.len() && front[i] == tokens.last();
                assert(tokens[i] == tokens[tokens.len() - 1]);
            }
        }
        assert((s.table.dom() + front.to_set()).insert(tokens.last()) =~= s.table.dom()
            + tokens.to_set());
    }
}

/// Effects that take the endpoints in `gone` off the poll leave exactly
/// the other endpoints of the table on it.
pub proof fn lemma_deregisters_in_step(
    table: Map<usize, EndpointView>,
    gone: Set<usize>,
    effects: Seq<Effect>,
)
    requires
        deregisters(table, gone, effects),
    ensures
        in_step(table.dom(), effects, table.remove_keys(gone).dom()),
    decreases effects.len(),
{
    if effects.len() == 0 {
        assert(table.remove_keys(gone).dom() =~= table.dom()) by {
            assert forall|t: usize| table.contains_key(t) implies !gone.contains(t) by {
                if gone.contains(t) {
                    let k = choose|k: int|
                        0 <= k < effects.len() && (#[trigger] effects[k])->Deregister_token == t;
                }
            }
        }
    } else {
        let front = effects.drop_last();
        let last = effects.last()->Deregister_token;
        let rest = gone.remove(last);
        assert(deregisters(table, rest, front)) by {
            assert forall|k: int| 0 <= k < front.len() implies {
                &&& (#[trigger] front[k]) is Deregister
                &&& rest.contains(front[k]->Deregister_token)
                &&& table.contains_key(front[k]->Deregister_token)
                &&& front[k]->Deregister_sock == table[front[k]->Deregister_token].sock
            } by {
                assert(front[k] == effects[k]);
                assert(effects[effects.len() - 1] == effects.last());
            }
            assert forall|j: int, k: int| 0 <= j < k < front.len() implies (
            #[trigger] front[j])->Deregister_token != (#[trigger] front[k])->Deregister_token by {
                assert(front[j] == effects[j] && front[k] == effects[k]);
            }
            assert forall|t: usize| rest.contains(t) && #[trigger] table.contains_key(t) implies exists|
                k: int,
            |
                0 <= k < front.len() && (#[trigger] front[k])->Deregister_token == t by {
                let k = choose|k: int|
                    0 <= k < effects.len() && (#[trigger] effects[k])->Deregister_token == t;
                assert(k < front.len());
                assert(front[k] == effects[k]);
            }
        }
        lemma_deregisters_in_step(table, rest, front);
        assert(effects[effects.len() - 1] == effects.last());
        assert(table.remove_keys(rest).dom().remove(last) =~= table.remove_keys(gone).dom());
    }
}

/// Removing one set of endpoints and then another deregisters what
/// removing their union deregisters.
pub proof fn lemma_deregisters_twice(
    table: Map<usize, EndpointView>,
    first: Set<usize>,
    first_effects: Seq<Effect>,
    second: Set<usize>,
    second_effects: Seq<Effect>,
)
    requires
        deregisters(table, first, first_effects),
        deregisters(table.remove_keys(first), second, second_effects),
    ensures
        deregisters(table, first + second, first_effects + second_effects),
{
    let all = first_effects + second_effects;
    let n = first_effects.len() as int;
    assert forall|k: int| 0 <= k < all.len() implies {
        &&& (#[trigger] all[k]) is Deregister
        &&& (first + second).contains(all[k]->Deregister_token)
        &&& table.contains_key(all[k]->Deregister_token)
        &&& all[k]->Deregister_sock == table[all[k]->Deregister_token].sock
    } by {
        if k < n {
            assert(all[k] == first_effects[k]);
        } else {
            assert(all[k] == second_effects[k - n]);
        }
    }
    assert forall|j: int, k: int| 0 <= j < k < all.len() implies (#[trigger] all[j])->Deregister_token
        != (#[trigger] all[k])->Deregister_token by {
        if j < n {
            assert(all[j] == first_effects[j]);
        } else {
            assert(all[j] == second_effects[j - n]);
        }
        if k < n {
            assert(all[k] == first_effects[k]);
        } else {
            assert(all[k] == second_effects[k - n]);
        }
    }
    assert forall|t: usize| (first + second).contains(t) && #[trigger] table.contains_key(
        t,
    ) implies exists|k: int| 0 <= k < all.len() && (#[trigger] all[k])->Deregister_token == t by {
        if first.contains(t) {
            let k = choose|k: int|
                0 <= k < first_effects.len() && (#[trigger] first_effects[k])->Deregister_token
                    == t;
            assert(all[k] == first_effects[k]);
        } else {
            assert(table.remove_keys(first).contains_key(t));
            let k = choose|k: int|
                0 <= k < second_effects.len() && (#[trigger] second_effects[k])->Deregister_token
                    == t;
            assert(all[k + n] == second_effects[k]);
        }
    }
}

} // verus!
