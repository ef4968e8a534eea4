//! The reactor: it takes the events of a batch one by one, tells its
//! caller which step to run on which endpoint, and at the end of the
//! batch adopts, pairs and removes endpoints in a fixed order.

use std::collections::HashSet;
use vstd::prelude::*;
use vstd::std_specs::hash::*;
use vstd::std_specs::iter::IteratorSpec;
use vstd::string::StringSliceAdditionalSpecFns;
use crate::arena::Arena;
use crate::effect::{
    DrainOutcome, Effect, Event, FlushOutcome, Step, in_step, lemma_perform_concat,
};
use crate::endpoint::{Endpoint, spec_interest};
use crate::laws::{
    lemma_admitted_in_step, lemma_dispatch_steady, lemma_drained_steady, lemma_fan_in_steady,
    lemma_fan_out_steady, lemma_flushed_steady, lemma_harmless_in_step, lemma_spawn_steady,
};
use crate::links::Links;
use crate::model::{
    Outcome, State, MAX_PUMPS, ROOT_TOKEN, admitted, deregisters, fresh, initial,
    lemma_adopt_all_frame, lemma_deregisters_in_step, lemma_deregisters_twice,
    lemma_purge_nothing, lemma_purge_twice, lemma_registrations_in_step, mark_stale, purge,
    rearm, registrations, spec_adopt, spec_adopt_all, spec_after_drain, spec_begin_write,
    spec_dispatch, spec_drained, spec_fan_in, spec_fan_out, spec_finish, spec_flushed,
    spec_received, spec_settle, spec_spawn, spec_written,
};
use crate::secret::{derive_secret, seed_limit, spec_hex, spec_secret, to_hex};

verus! {

broadcast use vstd::std_specs::hash::group_hash_axioms;

/// The answer to one report: the step to run next, and the effects to
/// perform on the poll before it.
pub struct Reaction {
    pub next: Step,
    pub effects: Vec<Effect>,
}

impl Reaction {
    /// The reaction is the one that the outcome prescribes.
    pub open spec fn answers(self, outcome: Outcome) -> bool {
        self.next == outcome.next && self.effects@ == outcome.effects
    }
}

/// What the end of a batch came to.
pub struct Cleanup {
    /// The tokens given to the endpoints that were pending, in the order
    /// in which they were spawned.
    pub adopted: Vec<usize>,
    /// The effects to perform, in order: one registration for each
    /// adopted endpoint, then one deregistration for each removed one.
    pub effects: Vec<Effect>,
}

/// The tokens of a set, each once, in the order in which the set hands
/// them out.
fn snapshot(set: &HashSet<usize>) -> (tokens: Vec<usize>)
    ensures
        tokens@.to_set() == set@,
        tokens@.no_duplicates(),
{
    let mut tokens: Vec<usize> = Vec::new();
    let ghost keys = spec_hash_keys_iter(set).remaining();
    for token in it: set.iter()
        invariant
            tokens@.len() == it.index(),
            it.seq() == keys,
            forall|i: int| 0 <= i < tokens@.len() ==> tokens@[i] == *keys[i],
    {
        tokens.push(*token);
    }
    proof {
        assert(tokens@ =~= keys.unref());
        assert forall|i: int, j: int|
            0 <= i < tokens@.len() && 0 <= j < tokens@.len() && i != j implies tokens@[i]
            != tokens@[j] by {
            assert(keys[i] != keys[j]);
        }
    }
    tokens
}

/// The reactor core of the proxy.
pub struct Server {
    secret: Vec<u8>,
    pumps: Arena,
    links: Links,
    zombie: HashSet<usize>,
    stale: HashSet<usize>,
    new_peers: Vec<(usize, Endpoint)>,
}

impl View for Server {
    type V = State;

    closed spec fn view(&self) -> State {
        State {
            limit: self.pumps.limit(),
            secret: self.secret@,
            table: self.pumps@,
            links: self.links@,
            zombies: self.zombie@,
            stale: self.stale@,
            pending: self.new_peers@.map_values(|p: (usize, Endpoint)| (p.0, p.1@)),
        }
    }
}

impl Server {
    /// The invariant of the reactor holds.
    pub open spec fn wf(&self) -> bool {
        self@.wf()
    }

    /// A server without endpoints for the usual number of connections,
    /// with the secret that belongs to `seed`.
    pub fn new(seed: &str) -> (server: Server)
        requires
            seed.spec_bytes().len() < seed_limit(),
        ensures
            server.wf(),
            server@ == initial(MAX_PUMPS as nat, spec_secret(seed)),
    {
        Server::with_secret(derive_secret(seed), MAX_PUMPS)
    }

    /// The secret as lowercase hexadecimal, for the operator to compare.
    pub fn secret(&self) -> (text: String)
        ensures
            text@ == spec_hex(self@.secret),
    {
        to_hex(&self.secret)
    }

    /// The secret, as handed to the engine of every endpoint.
    pub fn secret_bytes(&self) -> (secret: &Vec<u8>)
        ensures
            secret@ == self@.secret,
    {
        &self.secret
    }

    /// A server without endpoints that admits at most `limit` of them and
    /// hands `secret` to their engines.
    pub fn with_secret(secret: Vec<u8>, limit: usize) -> (server: Server)
        ensures
            server.wf(),
            server@ == initial(limit as nat, secret@),
    {
        let server = Server {
            secret,
            pumps: Arena::with_limit(limit),
            links: Links::new(),
            zombie: HashSet::new(),
            stale: HashSet::new(),
            new_peers: Vec::new(),
        };
        proof {
            assert(server@.pending =~= Seq::empty());
            assert(server@ =~= initial(limit as nat, secret@));
        }
        server
    }

    /// The number of live endpoints.
    pub fn len(&self) -> (len: usize)
        ensures
            len == self@.table.len(),
    {
        self.pumps.len()
    }

    /// Whether `token` names a live endpoint.
    pub fn contains(&self, token: usize) -> (found: bool)
        ensures
            found == self@.table.contains_key(token),
    {
        self.pumps.contains(token)
    }

    /// The peer of `token`, if it is part of a tunnel.
    pub fn peer(&self, token: usize) -> (peer: Option<usize>)
        ensures
            peer is Some == self@.links.contains_key(token),
            peer is Some ==> peer->0 == self@.links[token],
    {
        self.links.peer(token)
    }

    /// Whether `token` waits for removal because its peer is gone.
    pub fn is_zombie(&self, token: usize) -> (found: bool)
        ensures
            found == self@.zombies.contains(token),
    {
        self.zombie.contains(&token)
    }

    /// Whether `token` was marked stale in the batch at hand.
    pub fn is_stale(&self, token: usize) -> (found: bool)
        ensures
            found == self@.stale.contains(token),
    {
        self.stale.contains(&token)
    }

    /// The endpoint under `token`, if there is one.
    pub fn get(&self, token: usize) -> (found: Option<&Endpoint>)
        ensures
            found is Some == self@.table.contains_key(token),
            found is Some ==> found->0@ == self@.table[token],
    {
        self.pumps.get(token)
    }

    /// Whether one more endpoint can be admitted: the endpoints in the
    /// table and those spawned in this batch are fewer than the limit.
    pub fn has_room(&self) -> (room: bool)
        requires
            self.wf(),
        ensures
            room == self@.has_room(),
    {
        let limit = self.pumps.capacity();
        let used = self.pumps.len();
        let promised = self.new_peers.len();
        assert(self@.pending.len() == promised);
        used + promised < limit
    }

    /// Whether a spawned endpoint is waiting for `token` as its initiator.
    pub fn awaits_peer(&self, token: usize) -> (waiting: bool)
        ensures
            waiting == self@.awaits_peer(token),
    {
        self.place_of(token).is_some()
    }

    /// The place in the pending queue of the endpoint that waits for
    /// `token`, if there is one.
    fn place_of(&self, token: usize) -> (place: Option<usize>)
        ensures
            place is Some == self@.awaits_peer(token),
            place is Some ==> place->0 < self@.pending.len() && self@.pending[place->0 as int].0
                == token,
    {
        let mut i: usize = 0;
        while i < self.new_peers.len()
            invariant
                i <= self.new_peers.len(),
                forall|k: int| 0 <= k < i ==> (#[trigger] self@.pending[k]).0 != token,
            decreases self.new_peers.len() - i,
        {
            if self.new_peers[i].0 == token {
                assert(self@.pending[i as int].0 == token);
                return Some(i);
            }
            i += 1;
        }
        None
    }

    /// Adds the effect that arms the endpoint under `token` again; for a
    /// token without an endpoint there is none.
    fn arm(&self, token: usize, effects: &mut Vec<Effect>)
        ensures
            final(effects)@ == (if self@.table.contains_key(token) {
                old(effects)@.push(rearm(self@, token))
            } else {
                old(effects)@
            }),
    {
        match self.pumps.get(token) {
            Some(endpoint) => {
                effects.push(
                    Effect::Reregister {
                        sock: endpoint.sock(),
                        token,
                        interest: endpoint.interest(),
                    },
                );
            },
            None => {},
        }
    }

    /// Marks the endpoint under `token` for removal at the end of the
    /// batch.
    fn condemn(&mut self, token: usize)
        requires
            old(self).wf(),
            old(self)@.table.contains_key(token),
        ensures
            final(self).wf(),
            final(self)@ == mark_stale(old(self)@, token),
    {
        self.stale.insert(token);
        assert(self@ =~= mark_stale(old(self)@, token));
    }

    /// Fan-out: moves the bytes that `token` has received to the end of
    /// its peer's outbound buffer and arms the peer again.  Nothing is
    /// done where `token` has no peer or has received nothing.
    pub fn fan_out(&mut self, token: usize) -> (effects: Vec<Effect>)
        requires
            old(self).wf(),
        ensures
            final(self).wf(),
            final(self)@ == spec_fan_out(old(self)@, token).0,
            effects@ == spec_fan_out(old(self)@, token).1,
            in_step(old(self)@.registered(), effects@, final(self)@.registered()),
    {
        proof {
            lemma_fan_out_steady(old(self)@, token);
            lemma_harmless_in_step(old(self)@.table.dom(), spec_fan_out(old(self)@, token).1);
        }
        let mut effects: Vec<Effect> = Vec::new();
        let peer = match self.links.peer(token) {
            Some(peer) => peer,
            None => {
                return effects;
            },
        };
        assert(self@.links.contains_key(peer));
        let bytes = self.pumps.pull(token);
        if bytes.len() == 0 {
            proof {
                assert(self@.table[token].inbound =~= old(self)@.table[token].inbound);
                assert(self@.table =~= old(self)@.table);
                assert(self@ =~= old(self)@);
            }
            return effects;
        }
        self.pumps.push(peer, bytes);
        proof {
            assert(self@.table.dom() =~= old(self)@.table.dom());
            assert(self@ =~= spec_fan_out(old(self)@, token).0);
        }
        self.arm(peer, &mut effects);
        effects
    }

    /// Fan-in: moves the bytes that the peer of `token` has received to
    /// the end of the outbound buffer of `token` and arms the peer again.
    /// Nothing is done where `token` has no peer or the peer has received
    /// nothing.
    pub fn fan_in(&mut self, token: usize) -> (effects: Vec<Effect>)
        requires
            old(self).wf(),
        ensures
            final(self).wf(),
            final(self)@ == spec_fan_in(old(self)@, token).0,
            effects@ == spec_fan_in(old(self)@, token).1,
            in_step(old(self)@.registered(), effects@, final(self)@.registered()),
    {
        proof {
            lemma_fan_in_steady(old(self)@, token);
            lemma_harmless_in_step(old(self)@.table.dom(), spec_fan_in(old(self)@, token).1);
        }
        let mut effects: Vec<Effect> = Vec::new();
        let peer = match self.links.peer(token) {
            Some(peer) => peer,
            None => {
                return effects;
            },
        };
        assert(self@.links.contains_key(peer));
        let bytes = self.pumps.pull(peer);
        if bytes.len() == 0 {
            proof {
                assert(self@.table[peer].inbound =~= old(self)@.table[peer].inbound);
                assert(self@.table =~= old(self)@.table);
                assert(self@ =~= old(self)@);
            }
            return effects;
        }
        self.pumps.push(token, bytes);
        proof {
            assert(self@.table.dom() =~= old(self)@.table.dom());
            assert(self@ =~= spec_fan_in(old(self)@, token).0);
        }
        self.arm(peer, &mut effects);
        effects
    }

    /// Ends the event: an endpoint with hangup or error readiness is
    /// marked stale; one that is not stale is armed again.
    fn settle(&mut self, event: Event) -> (effects: Vec<Effect>)
        requires
            old(self).wf(),
        ensures
            final(self).wf(),
            final(self)@ == spec_settle(old(self)@, event).0,
            effects@ == spec_settle(old(self)@, event).1,
    {
        let mut effects: Vec<Effect> = Vec::new();
        if !self.pumps.contains(event.token) {
            return effects;
        }
        if event.readiness.hup || event.readiness.error {
            self.condemn(event.token);
        } else if !self.stale.contains(&event.token) {
            self.arm(event.token, &mut effects);
        }
        effects
    }

    /// The part of an event after reading.
    fn begin_write(&mut self, event: Event) -> (reaction: Reaction)
        requires
            old(self).wf(),
        ensures
            final(self).wf(),
            final(self)@ == spec_begin_write(old(self)@, event).state,
            reaction.answers(spec_begin_write(old(self)@, event)),
    {
        if event.readiness.writable {
            let effects = self.fan_in(event.token);
            Reaction { next: Step::Flush(event), effects }
        } else {
            let effects = self.settle(event);
            Reaction { next: Step::Done, effects }
        }
    }

    /// Starts on one event of a batch and says what the caller has to do
    /// for it.  The listener's token asks for an accept while there is
    /// room, and for nothing otherwise.  A token without an endpoint is
    /// passed over.  A readable endpoint is drained first; any other
    /// goes on to the write part.
    pub fn dispatch(&mut self, event: Event) -> (reaction: Reaction)
        requires
            old(self).wf(),
        ensures
            final(self).wf(),
            final(self)@ == spec_dispatch(old(self)@, event).state,
            reaction.answers(spec_dispatch(old(self)@, event)),
            in_step(old(self)@.registered(), reaction.effects@, final(self)@.registered()),
    {
        proof {
            lemma_dispatch_steady(old(self)@, event);
        }
        if event.token == ROOT_TOKEN {
            let next = if self.has_room() {
                Step::Accept
            } else {
                Step::Done
            };
            Reaction { next, effects: Vec::new() }
        } else if !self.pumps.contains(event.token) {
            Reaction { next: Step::Done, effects: Vec::new() }
        } else if event.readiness.readable {
            Reaction { next: Step::Drain(event), effects: Vec::new() }
        } else {
            self.begin_write(event)
        }
    }

    /// Ends the draining of an event: fan-out, then the write part.
    fn after_drain(&mut self, event: Event) -> (reaction: Reaction)
        requires
            old(self).wf(),
        ensures
            final(self).wf(),
            final(self)@ == spec_after_drain(old(self)@, event).state,
            reaction.answers(spec_after_drain(old(self)@, event)),
    {
        let mut effects = self.fan_out(event.token);
        let mut rest = self.begin_write(event);
        effects.append(&mut rest.effects);
        Reaction { next: rest.next, effects }
    }

    /// Takes note of an endpoint that a drain step spawned for the token
    /// of the event.
    fn spawn(&mut self, event: Event, peer: Endpoint) -> (reaction: Reaction)
        requires
            old(self).wf(),
            old(self)@.table.contains_key(event.token),
        ensures
            final(self).wf(),
            final(self)@ == spec_spawn(old(self)@, event, peer@).state,
            reaction.answers(spec_spawn(old(self)@, event, peer@)),
    {
        let token = event.token;
        let mut effects: Vec<Effect> = Vec::new();
        proof {
            lemma_spawn_steady(old(self)@, event, peer@);
        }
        match self.place_of(token) {
            Some(place) => {
                let ghost before = self@.pending;
                assert(place as int == old(self)@.place_of(token));
                self.new_peers.push((token, peer));
                let earlier = self.new_peers.swap_remove(place);
                effects.push(Effect::Discard { sock: earlier.1.sock() });
                proof {
                    assert(self@.pending =~= before.update(place as int, (token, peer@)));
                    assert(self@ =~= spec_spawn(old(self)@, event, peer@).state);
                }
                Reaction { next: Step::Drain(event), effects }
            },
            None => {
                if !self.has_room() {
                    effects.push(Effect::Discard { sock: peer.sock() });
                    self.condemn(token);
                    let mut rest = self.after_drain(event);
                    effects.append(&mut rest.effects);
                    Reaction { next: rest.next, effects }
                } else {
                    self.new_peers.push((token, peer));
                    proof {
                        assert(self@.pending =~= old(self)@.pending.push((token, peer@)));
                        assert(self@ =~= spec_spawn(old(self)@, event, peer@).state);
                    }
                    Reaction { next: Step::Drain(event), effects }
                }
            },
        }
    }

    /// Takes the report of one drain step on the endpoint of `event`.
    /// Progress is added to the endpoint's inbound buffer, a spawned
    /// endpoint is queued for the end of the batch, and another drain
    /// step is asked for.  When the socket would block, or the connection
    /// failed and the endpoint was marked stale, draining ends: what the
    /// endpoint has received fans out to its peer, and the write part of
    /// the event follows.
    pub fn drained(&mut self, event: Event, outcome: DrainOutcome) -> (reaction: Reaction)
        requires
            old(self).wf(),
        ensures
            final(self).wf(),
            final(self)@ == spec_drained(old(self)@, event, outcome).state,
            reaction.answers(spec_drained(old(self)@, event, outcome)),
            in_step(old(self)@.registered(), reaction.effects@, final(self)@.registered()),
    {
        proof {
            lemma_drained_steady(old(self)@, event, outcome);
        }
        let token = event.token;
        if !self.pumps.contains(token) {
            let mut effects: Vec<Effect> = Vec::new();
            match outcome {
                DrainOutcome::Advanced { produced: _, peer: Some(peer) } => {
                    effects.push(Effect::Discard { sock: peer.sock() });
                },
                _ => {},
            }
            return Reaction { next: Step::Done, effects };
        }
        match outcome {
            DrainOutcome::Advanced { produced, peer } => {
                self.pumps.receive(token, produced);
                proof {
                    assert(self@.table.dom() =~= old(self)@.table.dom());
                    assert(self@ =~= spec_received(old(self)@, token, produced@));
                }
                match peer {
                    Some(peer) => self.spawn(event, peer),
                    None => Reaction { next: Step::Drain(event), effects: Vec::new() },
                }
            },
            DrainOutcome::WouldBlock => self.after_drain(event),
            DrainOutcome::Fatal => {
                self.condemn(token);
                self.after_drain(event)
            },
        }
    }

    /// Takes the report of one flush step on the endpoint of `event`.
    /// Progress drops the written bytes from the front of the endpoint's
    /// outbound buffer and asks for another flush step.  When the socket
    /// would block, or the connection failed and the endpoint was marked
    /// stale, the event ends.
    pub fn flushed(&mut self, event: Event, outcome: FlushOutcome) -> (reaction: Reaction)
        requires
            old(self).wf(),
        ensures
            final(self).wf(),
            final(self)@ == spec_flushed(old(self)@, event, outcome).state,
            reaction.answers(spec_flushed(old(self)@, event, outcome)),
            in_step(old(self)@.registered(), reaction.effects@, final(self)@.registered()),
    {
        proof {
            lemma_flushed_steady(old(self)@, event, outcome);
        }
        let token = event.token;
        if !self.pumps.contains(token) {
            return Reaction { next: Step::Done, effects: Vec::new() };
        }
        match outcome {
            FlushOutcome::Advanced { written } => {
                self.pumps.consume(token, written);
                proof {
                    assert(self@.table.dom() =~= old(self)@.table.dom());
                    assert(self@ =~= spec_written(old(self)@, token, written as nat));
                }
                Reaction { next: Step::Flush(event), effects: Vec::new() }
            },
            FlushOutcome::WouldBlock => {
                let effects = self.settle(event);
                Reaction { next: Step::Done, effects }
            },
            FlushOutcome::Fatal => {
                self.condemn(token);
                let effects = self.settle(event);
                Reaction { next: Step::Done, effects }
            },
        }
    }

    /// Takes what the listener's accept came to.  A failed accept
    /// (`None`) changes nothing.  A connection is refused and discarded
    /// where there is no room; otherwise it enters the table and is
    /// registered under its new token.
    pub fn accept(&mut self, incoming: Option<Endpoint>) -> (effects: Vec<Effect>)
        requires
            old(self).wf(),
        ensures
            final(self).wf(),
            incoming is None ==> final(self)@ == old(self)@ && effects@.len() == 0,
            incoming is Some ==> admitted(old(self)@, incoming->0@, final(self)@, effects@),
            in_step(old(self)@.registered(), effects@, final(self)@.registered()),
    {
        let mut effects: Vec<Effect> = Vec::new();
        let endpoint = match incoming {
            Some(endpoint) => endpoint,
            None => {
                return effects;
            },
        };
        let sock = endpoint.sock();
        let interest = endpoint.interest();
        if !self.has_room() {
            effects.push(Effect::Discard { sock });
            proof {
                lemma_admitted_in_step(old(self)@, endpoint@, self@, effects@);
            }
            return effects;
        }
        let token = self.pumps.place(endpoint);
        effects.push(Effect::Register { sock, token, interest });
        proof {
            assert(self@ =~= (State {
                table: old(self)@.table.insert(token, endpoint@),
                ..old(self)@
            }));
            lemma_admitted_in_step(old(self)@, endpoint@, self@, effects@);
        }
        effects
    }

    /// Removes the endpoint under `token`: it leaves the table, the
    /// zombies and the stale set, its socket is to be taken off the poll,
    /// and its tunnel, if it had one, is dissolved in both directions,
    /// whereupon its peer joins the zombies.  For a token without an
    /// endpoint nothing is done, so that no endpoint is removed twice.
    fn drop_pump(&mut self, token: usize) -> (effect: Option<Effect>)
        requires
            old(self).wf(),
            old(self)@.pending.len() == 0,
        ensures
            final(self).wf(),
            final(self)@ == purge(old(self)@, set![token]),
            effect == (if old(self)@.table.contains_key(token) {
                Some(Effect::Deregister { sock: old(self)@.table[token].sock, token })
            } else {
                None
            }),
    {
        let ghost gone = set![token];
        let endpoint = match self.pumps.remove(token) {
            Some(endpoint) => endpoint,
            None => {
                proof {
                    let after = purge(old(self)@, gone);
                    assert(self@.table =~= old(self)@.table);
                    assert(after.table =~= old(self)@.table);
                    assert forall|t: usize| old(self)@.links.contains_key(t) implies t != token
                        && old(self)@.links[t] != token by {
                        assert(old(self)@.links.contains_key(old(self)@.links[t]));
                    }
                    assert(after.links =~= old(self)@.links);
                    assert(after.zombies =~= old(self)@.zombies);
                    assert(after.stale =~= old(self)@.stale);
                    assert(self@ =~= after);
                }
                return None;
            },
        };
        self.zombie.remove(&token);
        self.stale.remove(&token);
        match self.links.unlink(token) {
            Some(peer) => {
                self.zombie.insert(peer);
            },
            None => {},
        }
        proof {
            let before = old(self)@;
            let after = purge(before, gone);
            assert(self@.table =~= after.table);
            assert forall|t: usize| before.links.contains_key(t) implies before.links.contains_key(
                before.links[t],
            ) && before.links[before.links[t]] == t && before.links[t] != t by {}
            assert(self@.links =~= after.links);
            assert(self@.zombies =~= after.zombies);
            assert(self@.stale =~= after.stale);
            assert(self@ =~= after);
        }
        Some(Effect::Deregister { sock: endpoint.sock(), token })
    }

    /// Removes the endpoints under `tokens`, one after the other.
    fn remove_all(&mut self, tokens: &Vec<usize>) -> (effects: Vec<Effect>)
        requires
            old(self).wf(),
            old(self)@.pending.len() == 0,
            tokens@.no_duplicates(),
        ensures
            final(self).wf(),
            final(self)@ == purge(old(self)@, tokens@.to_set()),
            deregisters(old(self)@.table, tokens@.to_set(), effects@),
    {
        let mut effects: Vec<Effect> = Vec::new();
        let ghost start = self@;
        let mut i: usize = 0;
        proof {
            lemma_purge_nothing(start);
            assert(tokens@.take(0).to_set() =~= Set::<usize>::empty());
        }
        while i < tokens.len()
            invariant
                i <= tokens.len(),
                self.wf(),
                self@.pending.len() == 0,
                tokens@.no_duplicates(),
                self@ == purge(start, tokens@.take(i as int).to_set()),
                deregisters(start.table, tokens@.take(i as int).to_set(), effects@),
            decreases tokens.len() - i,
        {
            let token = tokens[i];
            let ghost before = self@;
            let ghost done = tokens@.take(i as int).to_set();
            let ghost sofar = effects@;
            let effect = self.drop_pump(token);
            match effect {
                Some(effect) => {
                    effects.push(effect);
                },
                None => {},
            }
            proof {
                let upto = tokens@.take(i as int);
                let incl = tokens@.take(i as int + 1);
                let next = incl.to_set();
                assert(!done.contains(token)) by {
                    if done.contains(token) {
                        let k = choose|k: int| 0 <= k < upto.len() && upto[k] == token;
                        assert(tokens@[k] == tokens@[i as int]);
                    }
                }
                assert(next =~= done + set![token]) by {
                    assert forall|t: usize| next.contains(t) <==> done.contains(t) || t
                        == token by {
                        if next.contains(t) {
                            let k = choose|k: int| 0 <= k < incl.len() && incl[k] == t;
                            if k < i {
                                assert(upto[k] == t);
                            }
                        }
                        if done.contains(t) {
                            let k = choose|k: int| 0 <= k < upto.len() && upto[k] == t;
                            assert(incl[k] == t);
                        }
                        if t == token {
                            assert(incl[i as int] == t);
                        }
                    }
                }
                lemma_purge_twice(start, done, set![token]);
                assert(before.table.contains_key(token) == start.table.contains_key(token));
                let all = effects@;
                assert forall|k: int| 0 <= k < all.len() implies {
                    &&& (#[trigger] all[k]) is Deregister
                    &&& next.contains(all[k]->Deregister_token)
                    &&& start.table.contains_key(all[k]->Deregister_token)
                    &&& all[k]->Deregister_sock == start.table[all[k]->Deregister_token].sock
                } by {
                    if k < sofar.len() {
                        assert(all[k] == sofar[k]);
                    }
                }
                assert forall|j: int, k: int| 0 <= j < k < all.len() implies (
                #[trigger] all[j])->Deregister_token != (#[trigger] all[k])->Deregister_token by {
                    assert(all[j] == sofar[j]);
                    if k < sofar.len() {
                        assert(all[k] == sofar[k]);
                    }
                }
                assert forall|t: usize| next.contains(t) && #[trigger] start.table.contains_key(
                    t,
                ) implies exists|k: int|
                    0 <= k < all.len() && (#[trigger] all[k])->Deregister_token == t by {
                    if t == token {
                        assert(all[all.len() - 1]->Deregister_token == t);
                    } else {
                        let k = choose|k: int|
                            0 <= k < sofar.len() && (#[trigger] sofar[k])->Deregister_token == t;
                        assert(all[k] == sofar[k]);
                    }
                }
            }
            i += 1;
        }
        proof {
            assert(tokens@.take(tokens@.len() as int) =~= tokens@);
        }
        effects
    }

    /// Removes every endpoint that waits in the zombie queue.
    fn drop_zombies(&mut self) -> (effects: Vec<Effect>)
        requires
            old(self).wf(),
            old(self)@.pending.len() == 0,
        ensures
            final(self).wf(),
            final(self)@ == purge(old(self)@, old(self)@.zombies),
            deregisters(old(self)@.table, old(self)@.zombies, effects@),
    {
        let zombie = snapshot(&self.zombie);
        self.remove_all(&zombie)
    }

    /// Brings the first pending endpoint into the table, pairs it with
    /// its initiator, and returns its token and registration.  A peer
    /// that the initiator had before joins the zombies.
    fn adopt(&mut self) -> (adoption: (usize, Effect))
        requires
            old(self).wf(),
            old(self)@.pending.len() > 0,
        ensures
            final(self).wf(),
            !old(self)@.table.contains_key(adoption.0),
            final(self)@ == spec_adopt(old(self)@, adoption.0),
            adoption.1 == (Effect::Register {
                sock: old(self)@.pending[0].1.sock,
                token: adoption.0,
                interest: spec_interest(old(self)@.pending[0].1),
            }),
    {
        let ghost before = self@;
        assert(before.pending[0].0 == self.new_peers@[0].0);
        let (owner, endpoint) = self.new_peers.remove(0);
        let sock = endpoint.sock();
        let interest = endpoint.interest();
        let token = self.pumps.place(endpoint);
        match self.links.unlink(owner) {
            Some(displaced) => {
                assert(before.links.contains_key(displaced));
                self.zombie.insert(displaced);
            },
            None => {},
        }
        self.links.link(owner, token);
        proof {
            let after = spec_adopt(before, token);
            assert(self@.pending =~= after.pending);
            assert(self@.zombies =~= after.zombies);
            assert(self@ =~= after);
            assert(after.table.dom() =~= before.table.dom().insert(token));
            assert forall|i: int| 0 <= i < after.pending.len() implies after.table.contains_key(
                (#[trigger] after.pending[i]).0,
            ) by {
                assert(after.pending[i] == before.pending[i + 1]);
            }
            assert forall|i: int, j: int| 0 <= i < j < after.pending.len() implies (
            #[trigger] after.pending[i]).0 != (#[trigger] after.pending[j]).0 by {
                assert(after.pending[i] == before.pending[i + 1]);
                assert(after.pending[j] == before.pending[j + 1]);
            }
        }
        (token, Effect::Register { sock, token, interest })
    }

    /// Brings every pending endpoint into the table, in the order in
    /// which they were spawned.
    fn adopt_all(&mut self) -> (cleanup: Cleanup)
        requires
            old(self).wf(),
        ensures
            final(self).wf(),
            cleanup.adopted@.len() == old(self)@.pending.len(),
            fresh(old(self)@.table, cleanup.adopted@),
            final(self)@ == spec_adopt_all(old(self)@, cleanup.adopted@),
            cleanup.effects@ == registrations(old(self)@, cleanup.adopted@),
    {
        let mut adopted: Vec<usize> = Vec::new();
        let mut effects: Vec<Effect> = Vec::new();
        let ghost start = self@;
        while self.new_peers.len() > 0
            invariant
                self.wf(),
                adopted@.len() <= start.pending.len(),
                self@.pending.len() == self.new_peers@.len(),
                fresh(start.table, adopted@),
                self@ == spec_adopt_all(start, adopted@),
                effects@ == registrations(start, adopted@),
            decreases self.new_peers.len(),
        {
            let ghost before = self@;
            let ghost tokens = adopted@;
            proof {
                lemma_adopt_all_frame(start, tokens);
            }
            let (token, effect) = self.adopt();
            adopted.push(token);
            effects.push(effect);
            proof {
                assert(adopted@.drop_last() =~= tokens);
                assert(before.pending[0] == start.pending[tokens.len() as int]);
                assert(effects@ =~= registrations(start, adopted@));
                assert(!tokens.to_set().contains(token));
                assert forall|i: int, j: int|
                    0 <= i < adopted@.len() && 0 <= j < adopted@.len() && i != j implies adopted@[i]
                    != adopted@[j] by {
                    if i < tokens.len() {
                        assert(tokens.to_set().contains(tokens[i]));
                    }
                    if j < tokens.len() {
                        assert(tokens.to_set().contains(tokens[j]));
                    }
                }
            }
        }
        proof {
            lemma_adopt_all_frame(start, adopted@);
        }
        Cleanup { adopted, effects }
    }

    /// Ends a batch.  In this order: every endpoint that was spawned
    /// during the batch enters the table, is registered and is paired
    /// with its initiator; every zombie is removed; every endpoint that
    /// was marked stale is removed.  An endpoint whose peer is removed
    /// joins the zombies and waits for the end of the next batch.
    pub fn finish(&mut self) -> (cleanup: Cleanup)
        requires
            old(self).wf(),
        ensures
            final(self).wf(),
            final(self)@.quiescent(),
            cleanup.adopted@.len() == old(self)@.pending.len(),
            fresh(old(self)@.table, cleanup.adopted@),
            final(self)@ == spec_finish(old(self)@, cleanup.adopted@),
            cleanup.effects@.len() >= cleanup.adopted@.len(),
            cleanup.effects@.take(cleanup.adopted@.len() as int) == registrations(
                old(self)@,
                cleanup.adopted@,
            ),
            deregisters(
                spec_adopt_all(old(self)@, cleanup.adopted@).table,
                spec_adopt_all(old(self)@, cleanup.adopted@).zombies + old(self)@.stale,
                cleanup.effects@.skip(cleanup.adopted@.len() as int),
            ),
            in_step(old(self)@.registered(), cleanup.effects@, final(self)@.registered()),
    {
        let ghost start = self@;
        let adoption = self.adopt_all();
        let adopted = adoption.adopted;
        let mut effects = adoption.effects;
        let ghost grown = self@;
        let ghost registered = effects@;
        proof {
            lemma_adopt_all_frame(start, adopted@);
            assert(grown.pending.len() == 0);
        }
        let mut first = self.drop_zombies();
        let ghost first_effects = first@;
        let ghost thinned = self@;
        let stale = snapshot(&self.stale);
        let mut second = self.remove_all(&stale);
        let ghost second_effects = second@;
        effects.append(&mut first);
        effects.append(&mut second);
        proof {
            let gone = grown.zombies + grown.stale;
            let removals = first_effects + second_effects;
            assert(grown.zombies + thinned.stale =~= gone);
            lemma_purge_twice(grown, grown.zombies, thinned.stale);
            assert(self@.stale =~= Set::<usize>::empty());
            lemma_deregisters_twice(
                grown.table,
                grown.zombies,
                first_effects,
                thinned.stale,
                second_effects,
            );
            assert(effects@ =~= registered + removals);
            assert(effects@.take(adopted@.len() as int) =~= registered);
            assert(effects@.skip(adopted@.len() as int) =~= removals);
            lemma_registrations_in_step(start, adopted@);
            lemma_deregisters_in_step(grown.table, gone, removals);
            lemma_perform_concat(start.table.dom(), registered, removals);
        }
        Cleanup { adopted, effects }
    }
}

} // verus!
