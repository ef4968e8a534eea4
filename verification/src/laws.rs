//! What holds of the reactor in every state, stated over its model.

use vstd::prelude::*;
use crate::effect::{
    DrainOutcome, Effect, Event, FlushOutcome, Step, all_performable, in_step, perform_all,
};
use crate::endpoint::EndpointView;
use crate::links::linked;
use crate::model::{
    State, ROOT_TOKEN, admitted, deregisters, fresh, lemma_adopt_all_frame, mark_stale, purge,
    spec_adopt_all, spec_after_drain, spec_begin_write, spec_dispatch, spec_drained, spec_fan_in,
    spec_fan_out, spec_finish, spec_flushed, spec_received, spec_settle, spec_spawn, spec_written,
};

verus! {

/// Effects that leave the set of registered tokens alone: each arms a
/// registered token again or discards a socket that never was on the poll.
pub open spec fn harmless(registered: Set<usize>, effects: Seq<Effect>) -> bool {
    forall|k: int|
        0 <= k < effects.len() ==> match #[trigger] effects[k] {
            Effect::Reregister { token, .. } => registered.contains(token),
            Effect::Discard { .. } => true,
            _ => false,
        }
}

/// Nothing queued for sending is lost or reordered: every endpoint is
/// still there, with what it had to send at the front of what it has to
/// send now.
pub open spec fn keeps_output(before: State, after: State) -> bool {
    forall|t: usize| #[trigger]
        before.table.contains_key(t) ==> after.table.contains_key(t)
            && before.table[t].outbound.is_prefix_of(after.table[t].outbound)
}

/// A step that neither admits nor removes an endpoint: the invariant
/// holds after it, the same tokens are live, the tunnels and the zombies
/// are as before, and its effects leave the poll's tokens alone.
pub open spec fn steady(before: State, after: State, effects: Seq<Effect>) -> bool {
    &&& after.wf()
    &&& after.table.dom() == before.table.dom()
    &&& after.links == before.links
    &&& after.zombies == before.zombies
    &&& after.limit == before.limit
    &&& after.secret == before.secret
    &&& harmless(before.table.dom(), effects)
}

/// Harmless effects keep the poll in step with an unchanged table.
pub proof fn lemma_harmless_in_step(registered: Set<usize>, effects: Seq<Effect>)
    requires
        harmless(registered, effects),
    ensures
        in_step(registered, effects, registered),
    decreases effects.len(),
{
    if effects.len() > 0 {
        let front = effects.drop_last();
        assert forall|k: int| 0 <= k < front.len() implies match #[trigger] front[k] {
            Effect::Reregister { token, .. } => registered.contains(token),
            Effect::Discard { .. } => true,
            _ => false,
        } by {
            assert(front[k] == effects[k]);
        }
        lemma_harmless_in_step(registered, front);
        assert(effects[effects.len() - 1] == effects.last());
    }
}

/// Two harmless runs of effects make a harmless run.
pub proof fn lemma_harmless_concat(registered: Set<usize>, first: Seq<Effect>, second: Seq<Effect>)
    requires
        harmless(registered, first),
        harmless(registered, second),
    ensures
        harmless(registered, first + second),
{
    let all = first + second;
    assert forall|k: int| 0 <= k < all.len() implies match #[trigger] all[k] {
        Effect::Reregister { token, .. } => registered.contains(token),
        Effect::Discard { .. } => true,
        _ => false,
    } by {
        if k < first.len() {
            assert(all[k] == first[k]);
        } else {
            assert(all[k] == second[k - first.len()]);
        }
    }
}

/// Tunnel symmetry: in every state that meets the invariant, `a` is
/// paired with `b` exactly when `b` is paired with `a`, and both are live
/// endpoints.
pub proof fn lemma_tunnels_symmetric(s: State, a: usize, b: usize)
    requires
        s.wf(),
    ensures
        linked(s.links, a, b) <==> linked(s.links, b, a),
        linked(s.links, a, b) ==> a != b && s.table.contains_key(a) && s.table.contains_key(b),
{
    if linked(s.links, a, b) {
        assert(s.links.contains_key(a));
        assert(s.links.contains_key(s.links[a]));
    }
    if linked(s.links, b, a) {
        assert(s.links.contains_key(b));
        assert(s.links.contains_key(s.links[b]));
    }
}

/// Marking a live endpoint stale is a steady step.
pub proof fn lemma_mark_stale_steady(s: State, token: usize)
    requires
        s.wf(),
        s.table.contains_key(token),
    ensures
        steady(s, mark_stale(s, token), Seq::empty()),
        keeps_output(s, mark_stale(s, token)),
{
}

/// Fan-out is a steady step, and it appends: the peer's outbound buffer
/// afterwards is what it was, followed by everything that the token had
/// received, whether or not the peer is ready to write.
pub proof fn lemma_fan_out_steady(s: State, token: usize)
    requires
        s.wf(),
    ensures
        steady(s, spec_fan_out(s, token).0, spec_fan_out(s, token).1),
        keeps_output(s, spec_fan_out(s, token).0),
        spec_fan_out(s, token).0.stale == s.stale,
        spec_fan_out(s, token).0.pending == s.pending,
        s.links.contains_key(token) ==> {
            let peer = s.links[token];
            let after = spec_fan_out(s, token).0;
            &&& after.table[peer].outbound == s.table[peer].outbound + s.table[token].inbound
            &&& after.table[token].inbound.len() == 0
            &&& after.table[peer].inbound == s.table[peer].inbound
            &&& after.table[token].outbound == s.table[token].outbound
        },
{
    let after = spec_fan_out(s, token).0;
    if s.links.contains_key(token) {
        let peer = s.links[token];
        assert(s.links.contains_key(peer));
        assert(s.table.contains_key(token) && s.table.contains_key(peer));
        if s.table[token].inbound.len() > 0 {
            assert(after.table.dom() =~= s.table.dom());
        } else {
            assert(s.table[peer].outbound + s.table[token].inbound =~= s.table[peer].outbound);
        }
    }
}

/// Fan-in is a steady step, and it appends: the token's outbound buffer
/// afterwards is what it was, followed by everything that its peer had
/// received.
pub proof fn lemma_fan_in_steady(s: State, token: usize)
    requires
        s.wf(),
    ensures
        steady(s, spec_fan_in(s, token).0, spec_fan_in(s, token).1),
        keeps_output(s, spec_fan_in(s, token).0),
        spec_fan_in(s, token).0.stale == s.stale,
        spec_fan_in(s, token).0.pending == s.pending,
        s.links.contains_key(token) ==> {
            let peer = s.links[token];
            let after = spec_fan_in(s, token).0;
            &&& after.table[token].outbound == s.table[token].outbound + s.table[peer].inbound
            &&& after.table[peer].inbound.len() == 0
            &&& after.table[peer].outbound == s.table[peer].outbound
            &&& after.table[token].inbound == s.table[token].inbound
        },
{
    let after = spec_fan_in(s, token).0;
    if s.links.contains_key(token) {
        let peer = s.links[token];
        assert(s.links.contains_key(peer));
        assert(s.table.contains_key(token) && s.table.contains_key(peer));
        if s.table[peer].inbound.len() > 0 {
            assert(after.table.dom() =~= s.table.dom());
        } else {
            assert(s.table[token].outbound + s.table[peer].inbound =~= s.table[token].outbound);
        }
    }
}

/// Settling an event is a steady step.
pub proof fn lemma_settle_steady(s: State, event: Event)
    requires
        s.wf(),
    ensures
        steady(s, spec_settle(s, event).0, spec_settle(s, event).1),
        keeps_output(s, spec_settle(s, event).0),
{
}

/// The write part of an event is a steady step.
pub proof fn lemma_begin_write_steady(s: State, event: Event)
    requires
        s.wf(),
    ensures
        steady(s, spec_begin_write(s, event).state, spec_begin_write(s, event).effects),
        keeps_output(s, spec_begin_write(s, event).state),
{
    lemma_fan_in_steady(s, event.token);
    lemma_settle_steady(s, event);
}

/// The end of draining is a steady step.
pub proof fn lemma_after_drain_steady(s: State, event: Event)
    requires
        s.wf(),
    ensures
        steady(s, spec_after_drain(s, event).state, spec_after_drain(s, event).effects),
        keeps_output(s, spec_after_drain(s, event).state),
{
    let (fanned, first) = spec_fan_out(s, event.token);
    lemma_fan_out_steady(s, event.token);
    lemma_begin_write_steady(fanned, event);
    let rest = spec_begin_write(fanned, event);
    lemma_harmless_concat(s.table.dom(), first, rest.effects);
    assert forall|t: usize| #[trigger] s.table.contains_key(t) implies rest.state.table.contains_key(
        t,
    ) && s.table[t].outbound.is_prefix_of(rest.state.table[t].outbound) by {
        assert(fanned.table.contains_key(t));
        lemma_prefix_chain(
            s.table[t].outbound,
            fanned.table[t].outbound,
            rest.state.table[t].outbound,
        );
    }
}

/// A prefix of a prefix is a prefix.
pub proof fn lemma_prefix_chain(a: Seq<u8>, b: Seq<u8>, c: Seq<u8>)
    requires
        a.is_prefix_of(b),
        b.is_prefix_of(c),
    ensures
        a.is_prefix_of(c),
{
    assert(a =~= c.subrange(0, a.len() as int)) by {
        assert(a =~= b.subrange(0, a.len() as int));
        assert(b =~= c.subrange(0, b.len() as int));
    }
}

/// Registration stays in step over the start of an event, the invariant
/// is kept, and nothing queued for sending is lost.
pub proof fn lemma_dispatch_steady(s: State, event: Event)
    requires
        s.wf(),
    ensures
        steady(s, spec_dispatch(s, event).state, spec_dispatch(s, event).effects),
        keeps_output(s, spec_dispatch(s, event).state),
        in_step(
            s.registered(),
            spec_dispatch(s, event).effects,
            spec_dispatch(s, event).state.registered(),
        ),
{
    lemma_begin_write_steady(s, event);
    lemma_harmless_in_step(s.table.dom(), spec_dispatch(s, event).effects);
}

/// Registration stays in step over the report of a drain step, the
/// invariant is kept, and nothing queued for sending is lost.
pub proof fn lemma_drained_steady(s: State, event: Event, outcome: DrainOutcome)
    requires
        s.wf(),
    ensures
        steady(s, spec_drained(s, event, outcome).state, spec_drained(s, event, outcome).effects),
        keeps_output(s, spec_drained(s, event, outcome).state),
        in_step(
            s.registered(),
            spec_drained(s, event, outcome).effects,
            spec_drained(s, event, outcome).state.registered(),
        ),
{
    let token = event.token;
    let o = spec_drained(s, event, outcome);
    if s.table.contains_key(token) {
        match outcome {
            DrainOutcome::Advanced { produced, peer } => {
                let received = spec_received(s, token, produced@);
                assert(received.table.dom() =~= s.table.dom());
                assert(received.wf());
                assert(keeps_output(s, received));
                match peer {
                    Some(peer) => {
                        lemma_spawn_steady(received, event, peer@);
                        let spawned = spec_spawn(received, event, peer@).state;
                        assert forall|t: usize| #[trigger]
                            s.table.contains_key(t) implies spawned.table.contains_key(t)
                            && s.table[t].outbound.is_prefix_of(spawned.table[t].outbound) by {
                            assert(received.table.contains_key(t));
                            lemma_prefix_chain(
                                s.table[t].outbound,
                                received.table[t].outbound,
                                spawned.table[t].outbound,
                            );
                        }
                    },
                    None => {},
                }
            },
            DrainOutcome::WouldBlock => {
                lemma_after_drain_steady(s, event);
            },
            DrainOutcome::Fatal => {
                lemma_mark_stale_steady(s, token);
                lemma_after_drain_steady(mark_stale(s, token), event);
            },
        }
    }
    lemma_harmless_in_step(s.table.dom(), o.effects);
}

/// Taking note of a spawned endpoint is a steady step.
pub proof fn lemma_spawn_steady(s: State, event: Event, peer: EndpointView)
    requires
        s.wf(),
        s.table.contains_key(event.token),
    ensures
        steady(s, spec_spawn(s, event, peer).state, spec_spawn(s, event, peer).effects),
        keeps_output(s, spec_spawn(s, event, peer).state),
        s.awaits_peer(event.token) ==> 0 <= s.place_of(event.token) < s.pending.len()
            && s.pending[s.place_of(event.token)].0 == event.token,
        forall|i: int|
            0 <= i < s.pending.len() && (#[trigger] s.pending[i]).0 == event.token ==> i
                == s.place_of(event.token),
{
    let token = event.token;
    let o = spec_spawn(s, event, peer);
    let after = o.state;
    assert forall|i: int| 0 <= i < s.pending.len() && (#[trigger] s.pending[i]).0
        == token implies i == s.place_of(token) by {
        let place = s.place_of(token);
        if i < place {
            assert(s.pending[i].0 != s.pending[place].0);
        } else if place < i {
            assert(s.pending[place].0 != s.pending[i].0);
        }
    }
    if s.awaits_peer(token) {
        let place = s.place_of(token);
        assert forall|i: int| 0 <= i < after.pending.len() implies after.table.contains_key(
            (#[trigger] after.pending[i]).0,
        ) by {
            if i != place {
                assert(after.pending[i] == s.pending[i]);
            }
        }
        assert forall|i: int, j: int| 0 <= i < j < after.pending.len() implies (
        #[trigger] after.pending[i]).0 != (#[trigger] after.pending[j]).0 by {
            assert(after.pending[i].0 == s.pending[i].0);
            assert(after.pending[j].0 == s.pending[j].0);
        }
    } else if !s.has_room() {
        lemma_mark_stale_steady(s, token);
        lemma_after_drain_steady(mark_stale(s, token), event);
        let rest = spec_after_drain(mark_stale(s, token), event);
        lemma_harmless_concat(
            s.table.dom(),
            seq![Effect::Discard { sock: peer.sock }],
            rest.effects,
        );
    } else {
        assert forall|i: int| 0 <= i < after.pending.len() implies after.table.contains_key(
            (#[trigger] after.pending[i]).0,
        ) by {
            if i < s.pending.len() {
                assert(after.pending[i] == s.pending[i]);
            }
        }
        assert forall|i: int, j: int| 0 <= i < j < after.pending.len() implies (
        #[trigger] after.pending[i]).0 != (#[trigger] after.pending[j]).0 by {
            assert(after.pending[i] == s.pending[i]);
            if j < s.pending.len() {
                assert(after.pending[j] == s.pending[j]);
            }
        }
    }
}

/// Registration stays in step over the report of a flush step, and the
/// invariant is kept.  Only the endpoint that was flushed has less to
/// send than before.
pub proof fn lemma_flushed_steady(s: State, event: Event, outcome: FlushOutcome)
    requires
        s.wf(),
    ensures
        steady(s, spec_flushed(s, event, outcome).state, spec_flushed(s, event, outcome).effects),
        in_step(
            s.registered(),
            spec_flushed(s, event, outcome).effects,
            spec_flushed(s, event, outcome).state.registered(),
        ),
        forall|t: usize|
            t != event.token && #[trigger] s.table.contains_key(t) ==> spec_flushed(
                s,
                event,
                outcome,
            ).state.table[t] == s.table[t],
{
    let token = event.token;
    let o = spec_flushed(s, event, outcome);
    if s.table.contains_key(token) {
        match outcome {
            FlushOutcome::Advanced { written } => {
                assert(spec_written(s, token, written as nat).table.dom() =~= s.table.dom());
            },
            FlushOutcome::WouldBlock => {
                lemma_settle_steady(s, event);
            },
            FlushOutcome::Fatal => {
                lemma_mark_stale_steady(s, token);
                lemma_settle_steady(mark_stale(s, token), event);
            },
        }
    }
    lemma_harmless_in_step(s.table.dom(), o.effects);
}

/// Registration stays in step when a connection is offered: it is either
/// discarded, or it enters the table and the poll under the same token.
pub proof fn lemma_admitted_in_step(
    s: State,
    endpoint: EndpointView,
    after: State,
    effects: Seq<Effect>,
)
    requires
        s.wf(),
        admitted(s, endpoint, after, effects),
    ensures
        in_step(s.registered(), effects, after.registered()),
        s.has_room() ==> after.table.len() == s.table.len() + 1,
        !s.has_room() ==> after == s,
{
    let front = effects.drop_last();
    assert(effects.len() == 1);
    assert(front.len() == 0);
    assert(perform_all(s.registered(), front) == s.registered());
    assert(all_performable(s.registered(), front));
    assert(effects.last() == effects[0]);
    if s.has_room() {
        let token = effects[0]->Register_token;
        assert(after.table.dom() =~= s.table.dom().insert(token));
    }
}

/// Capacity: the listener's readiness leads to an accept exactly while
/// the endpoints in the table and those promised a slot are fewer than
/// the limit, and changes nothing by itself.
pub proof fn lemma_listener_waits_for_room(s: State, event: Event)
    requires
        event.token == ROOT_TOKEN,
    ensures
        spec_dispatch(s, event).state == s,
        spec_dispatch(s, event).effects.len() == 0,
        spec_dispatch(s, event).next == (if s.reserved() < s.limit {
            Step::Accept
        } else {
            Step::Done
        }),
{
}

/// Capacity: once an endpoint has been removed from a table between
/// batches, there is room for a new one.
pub proof fn lemma_room_after_removal(s: State, gone: Set<usize>, token: usize)
    requires
        s.wf(),
        s.pending.len() == 0,
        gone.contains(token),
        s.table.contains_key(token),
    ensures
        purge(s, gone).has_room(),
{
    let after = purge(s, gone);
    assert(after.table.dom().subset_of(s.table.dom().remove(token)));
    vstd::set_lib::lemma_len_subset(after.table.dom(), s.table.dom().remove(token));
}

/// No endpoint is removed twice: among the deregistrations of a removal
/// no token occurs at two places.
pub proof fn lemma_each_removed_once(
    table: Map<usize, EndpointView>,
    gone: Set<usize>,
    effects: Seq<Effect>,
    j: int,
    k: int,
)
    requires
        deregisters(table, gone, effects),
        0 <= j < effects.len(),
        0 <= k < effects.len(),
        j != k,
    ensures
        effects[j] is Deregister,
        effects[k] is Deregister,
        effects[j]->Deregister_token != effects[k]->Deregister_token,
{
    if j < k {
        assert(effects[j]->Deregister_token != effects[k]->Deregister_token);
    } else {
        assert(effects[k]->Deregister_token != effects[j]->Deregister_token);
    }
}

/// An endpoint that is removed is gone from every part of the state:
/// the table, the tunnels, the zombies and the stale set, so that its
/// token can be given out again without being taken for the old one.
pub proof fn lemma_purge_forgets(s: State, gone: Set<usize>, token: usize)
    requires
        gone.contains(token),
    ensures
        !purge(s, gone).table.contains_key(token),
        !purge(s, gone).links.contains_key(token),
        forall|t: usize| #[trigger]
            purge(s, gone).links.contains_key(t) ==> purge(s, gone).links[t] != token,
        !purge(s, gone).zombies.contains(token),
        !purge(s, gone).stale.contains(token),
{
}

/// Adoption changes no endpoint that was in the table before it.
pub proof fn lemma_adopt_all_keeps_endpoints(s: State, tokens: Seq<usize>, t: usize)
    requires
        tokens.len() <= s.pending.len(),
        fresh(s.table, tokens),
        s.table.contains_key(t),
    ensures
        spec_adopt_all(s, tokens).table.contains_key(t),
        spec_adopt_all(s, tokens).table[t] == s.table[t],
    decreases tokens.len(),
{
    if tokens.len() > 0 {
        let front = tokens.drop_last();
        assert forall|i: int| 0 <= i < front.len() implies !s.table.contains_key(
            #[trigger] front[i],
        ) by {
            assert(front[i] == tokens[i]);
        }
        lemma_adopt_all_keeps_endpoints(s, front, t);
        assert(tokens[tokens.len() - 1] == tokens.last());
    }
}

/// The end of a batch removes exactly the zombies and the stale
/// endpoints: every other endpoint that was in the table is still there,
/// with its buffers as they were, and none of the removed ones is.  The
/// zombies are those that waited before, and the peers that adoption
/// displaced.
pub proof fn lemma_finish_keeps_survivors(s: State, tokens: Seq<usize>, t: usize)
    requires
        s.wf(),
        tokens.len() == s.pending.len(),
        fresh(s.table, tokens),
        s.table.contains_key(t),
    ensures
        spec_finish(s, tokens).table.contains_key(t) == !(spec_adopt_all(
            s,
            tokens,
        ).zombies.contains(t) || s.stale.contains(t)),
        spec_finish(s, tokens).table.contains_key(t) ==> spec_finish(s, tokens).table[t]
            == s.table[t],
        s.zombies.contains(t) ==> !spec_finish(s, tokens).table.contains_key(t),
{
    lemma_adopt_all_keeps_endpoints(s, tokens, t);
    lemma_adopt_all_frame(s, tokens);
}

/// After the end of a batch every zombie is a live endpoint without a
/// tunnel: it lost its peer and is left to no one.
pub proof fn lemma_finish_leaves_zombies_alone(s: State, tokens: Seq<usize>, t: usize)
    requires
        spec_finish(s, tokens).zombies.contains(t),
    ensures
        !spec_finish(s, tokens).links.contains_key(t),
{
}

/// After the end of a batch nothing is marked stale and no spawned
/// endpoint is waiting; the limit and the secret are as they were.
pub proof fn lemma_finish_is_quiescent(s: State, tokens: Seq<usize>)
    requires
        s.wf(),
        tokens.len() == s.pending.len(),
    ensures
        spec_finish(s, tokens).quiescent(),
        spec_finish(s, tokens).limit == s.limit,
        spec_finish(s, tokens).secret == s.secret,
{
    lemma_adopt_all_frame(s, tokens);
    assert(spec_finish(s, tokens).stale =~= Set::<usize>::empty());
}

} // verus!
