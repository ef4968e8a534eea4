use std::collections::HashSet;
use tunnel_reactor::{
    DrainOutcome, Effect, Endpoint, Event, FlushOutcome, Interest, Readiness, Server, Step,
    MAX_PUMPS, ROOT_TOKEN,
};

fn quiet() -> Readiness {
    Readiness { readable: false, writable: false, hup: false, error: false }
}

fn readable(token: usize) -> Event {
    Event { token, readiness: Readiness { readable: true, ..quiet() } }
}

fn writable(token: usize) -> Event {
    Event { token, readiness: Readiness { writable: true, ..quiet() } }
}

fn hangup(token: usize) -> Event {
    Event { token, readiness: Readiness { hup: true, ..quiet() } }
}

fn server(limit: usize) -> Server {
    Server::with_secret(vec![1, 2, 3], limit)
}

/// Accepts a connection on `sock` and returns its token.
fn connect(server: &mut Server, sock: u64) -> usize {
    let effects = server.accept(Some(Endpoint::new(sock)));
    assert_eq!(effects.len(), 1);
    match effects[0] {
        Effect::Register { sock: registered, token, interest } => {
            assert_eq!(registered, sock);
            assert_eq!(interest, Interest::Readable);
            token
        },
        other => panic!("not a registration: {:?}", other),
    }
}

/// Lets the endpoint of `owner` spawn a peer on `sock` and ends the batch.
fn tunnel(server: &mut Server, owner: usize, sock: u64) -> usize {
    let event = readable(owner);
    assert_eq!(server.dispatch(event).next, Step::Drain(event));
    let reaction = server.drained(
        event,
        DrainOutcome::Advanced { produced: Vec::new(), peer: Some(Endpoint::new(sock)) },
    );
    assert_eq!(reaction.next, Step::Drain(event));
    assert!(reaction.effects.is_empty());
    server.drained(event, DrainOutcome::WouldBlock);
    let cleanup = server.finish();
    assert_eq!(cleanup.adopted.len(), 1);
    cleanup.adopted[0]
}

/// Performs the effects on a model of the poll, as the poll would.
fn perform(poll: &mut HashSet<usize>, effects: &[Effect]) {
    for effect in effects {
        match *effect {
            Effect::Register { token, .. } => assert!(poll.insert(token)),
            Effect::Reregister { token, .. } => assert!(poll.contains(&token)),
            Effect::Deregister { token, .. } => assert!(poll.remove(&token)),
            Effect::Discard { .. } => {},
        }
    }
}

#[test]
fn new_server_is_empty() {
    let server = Server::new("seed");
    assert_eq!(server.len(), 0);
    assert!(server.has_room());
    assert!(!server.contains(0));
    assert_eq!(server.peer(0), None);
    assert!(!server.is_zombie(0));
    assert!(!server.is_stale(0));
    assert_eq!(MAX_PUMPS, 2048);
    assert_eq!(ROOT_TOKEN, usize::MAX - 1);
}

#[test]
fn accept_registers_the_endpoint_under_its_token() {
    let mut server = server(4);
    let effects = server.accept(Some(Endpoint::new(10)));
    assert_eq!(
        effects,
        vec![Effect::Register { sock: 10, token: 0, interest: Interest::Readable }]
    );
    assert!(server.contains(0));
    assert_eq!(server.len(), 1);
    assert_eq!(server.get(0).unwrap().sock(), 10);
}

#[test]
fn accept_of_a_failed_connection_changes_nothing() {
    let mut server = server(4);
    assert!(server.accept(None).is_empty());
    assert_eq!(server.len(), 0);
}

#[test]
fn listener_asks_for_an_accept_while_there_is_room() {
    let mut server = server(1);
    let event = readable(ROOT_TOKEN);
    let reaction = server.dispatch(event);
    assert_eq!(reaction.next, Step::Accept);
    assert!(reaction.effects.is_empty());
    connect(&mut server, 10);
    let reaction = server.dispatch(event);
    assert_eq!(reaction.next, Step::Done);
    assert!(reaction.effects.is_empty());
    assert_eq!(server.len(), 1);
}

#[test]
fn accept_is_refused_at_the_limit_and_resumes_when_a_slot_frees_up() {
    let mut server = server(2);
    let a = connect(&mut server, 10);
    let _b = connect(&mut server, 11);
    assert!(!server.has_room());
    assert_eq!(server.dispatch(readable(ROOT_TOKEN)).next, Step::Done);
    assert_eq!(server.accept(Some(Endpoint::new(12))), vec![Effect::Discard { sock: 12 }]);
    assert_eq!(server.len(), 2);

    let reaction = server.dispatch(hangup(a));
    assert_eq!(reaction.next, Step::Done);
    let cleanup = server.finish();
    assert_eq!(cleanup.effects, vec![Effect::Deregister { sock: 10, token: a }]);
    assert_eq!(server.len(), 1);

    assert!(server.has_room());
    assert_eq!(server.dispatch(readable(ROOT_TOKEN)).next, Step::Accept);
    let c = connect(&mut server, 12);
    assert_eq!(c, a);
    assert_eq!(server.len(), 2);
    assert_eq!(server.get(c).unwrap().sock(), 12);
}

#[test]
fn server_with_limit_zero_accepts_nothing() {
    let mut server = server(0);
    assert_eq!(server.dispatch(readable(ROOT_TOKEN)).next, Step::Done);
    assert_eq!(server.accept(Some(Endpoint::new(1))), vec![Effect::Discard { sock: 1 }]);
    assert_eq!(server.len(), 0);
}

#[test]
fn event_for_an_unknown_token_is_passed_over() {
    let mut server = server(4);
    connect(&mut server, 10);
    let event = Event {
        token: 3,
        readiness: Readiness { readable: true, writable: true, hup: true, error: true },
    };
    let reaction = server.dispatch(event);
    assert_eq!(reaction.next, Step::Done);
    assert!(reaction.effects.is_empty());
    let reaction = server.drained(event, DrainOutcome::Fatal);
    assert_eq!(reaction.next, Step::Done);
    assert!(reaction.effects.is_empty());
    let reaction = server.flushed(event, FlushOutcome::Fatal);
    assert_eq!(reaction.next, Step::Done);
    assert!(reaction.effects.is_empty());
    assert!(!server.is_stale(3));
    assert!(server.finish().effects.is_empty());
    assert_eq!(server.len(), 1);
}

#[test]
fn drain_report_for_an_unknown_token_discards_what_was_spawned() {
    let mut server = server(4);
    let reaction = server.drained(
        readable(5),
        DrainOutcome::Advanced { produced: vec![1], peer: Some(Endpoint::new(77)) },
    );
    assert_eq!(reaction.next, Step::Done);
    assert_eq!(reaction.effects, vec![Effect::Discard { sock: 77 }]);
    assert!(server.finish().adopted.is_empty());
}

#[test]
fn readable_endpoint_is_drained_until_it_would_block() {
    let mut server = server(4);
    let a = connect(&mut server, 10);
    let event = readable(a);
    let reaction = server.dispatch(event);
    assert_eq!(reaction.next, Step::Drain(event));
    assert!(reaction.effects.is_empty());
    let reaction =
        server.drained(event, DrainOutcome::Advanced { produced: vec![1, 2], peer: None });
    assert_eq!(reaction.next, Step::Drain(event));
    let reaction = server.drained(event, DrainOutcome::Advanced { produced: vec![3], peer: None });
    assert_eq!(reaction.next, Step::Drain(event));
    let reaction = server.drained(event, DrainOutcome::WouldBlock);
    assert_eq!(reaction.next, Step::Done);
    assert_eq!(
        reaction.effects,
        vec![Effect::Reregister { sock: 10, token: a, interest: Interest::Readable }]
    );
    assert_eq!(server.get(a).unwrap().inbound(), &vec![1, 2, 3]);
    assert!(!server.is_stale(a));
}

#[test]
fn fatal_drain_marks_the_endpoint_stale_and_does_not_arm_it() {
    let mut server = server(4);
    let a = connect(&mut server, 10);
    let event = readable(a);
    server.dispatch(event);
    let reaction = server.drained(event, DrainOutcome::Fatal);
    assert_eq!(reaction.next, Step::Done);
    assert!(reaction.effects.is_empty());
    assert!(server.is_stale(a));
    assert!(server.contains(a));
    let cleanup = server.finish();
    assert_eq!(cleanup.effects, vec![Effect::Deregister { sock: 10, token: a }]);
    assert!(!server.contains(a));
    assert!(!server.is_stale(a));
}

#[test]
fn fatal_flush_marks_the_endpoint_stale() {
    let mut server = server(4);
    let a = connect(&mut server, 10);
    let event = writable(a);
    let reaction = server.dispatch(event);
    assert_eq!(reaction.next, Step::Flush(event));
    let reaction = server.flushed(event, FlushOutcome::Fatal);
    assert_eq!(reaction.next, Step::Done);
    assert!(reaction.effects.is_empty());
    assert!(server.is_stale(a));
    assert_eq!(server.finish().effects, vec![Effect::Deregister { sock: 10, token: a }]);
}

#[test]
fn hangup_marks_the_endpoint_stale_whatever_else_happened() {
    let mut server = server(4);
    let a = connect(&mut server, 10);
    let event = Event {
        token: a,
        readiness: Readiness { readable: true, writable: true, hup: true, error: false },
    };
    assert_eq!(server.dispatch(event).next, Step::Drain(event));
    assert_eq!(server.drained(event, DrainOutcome::WouldBlock).next, Step::Flush(event));
    let reaction = server.flushed(event, FlushOutcome::WouldBlock);
    assert_eq!(reaction.next, Step::Done);
    assert!(reaction.effects.is_empty());
    assert!(server.is_stale(a));
}

#[test]
fn error_readiness_marks_the_endpoint_stale() {
    let mut server = server(4);
    let a = connect(&mut server, 10);
    let event = Event { token: a, readiness: Readiness { error: true, ..quiet() } };
    let reaction = server.dispatch(event);
    assert_eq!(reaction.next, Step::Done);
    assert!(reaction.effects.is_empty());
    assert!(server.is_stale(a));
}

#[test]
fn event_without_readiness_arms_the_endpoint_again() {
    let mut server = server(4);
    let a = connect(&mut server, 10);
    let reaction = server.dispatch(Event { token: a, readiness: quiet() });
    assert_eq!(reaction.next, Step::Done);
    assert_eq!(
        reaction.effects,
        vec![Effect::Reregister { sock: 10, token: a, interest: Interest::Readable }]
    );
}

#[test]
fn spawned_peer_is_adopted_and_linked_at_the_end_of_the_batch() {
    let mut server = server(4);
    let a = connect(&mut server, 10);
    let event = readable(a);
    server.dispatch(event);
    server.drained(
        event,
        DrainOutcome::Advanced { produced: Vec::new(), peer: Some(Endpoint::new(20)) },
    );
    assert!(server.awaits_peer(a));
    assert_eq!(server.len(), 1);
    assert_eq!(server.peer(a), None);
    server.drained(event, DrainOutcome::WouldBlock);
    let cleanup = server.finish();
    assert_eq!(cleanup.adopted.len(), 1);
    let b = cleanup.adopted[0];
    assert!(b != a);
    assert_eq!(
        cleanup.effects,
        vec![Effect::Register { sock: 20, token: b, interest: Interest::Readable }]
    );
    assert_eq!(server.len(), 2);
    assert_eq!(server.peer(a), Some(b));
    assert_eq!(server.peer(b), Some(a));
    assert!(!server.awaits_peer(a));
}

#[test]
fn paired_endpoint_that_spawns_again_trades_its_peer() {
    let mut server = server(8);
    let a = connect(&mut server, 10);
    let b = tunnel(&mut server, a, 20);
    let event = readable(a);
    server.dispatch(event);
    let reaction = server.drained(
        event,
        DrainOutcome::Advanced { produced: Vec::new(), peer: Some(Endpoint::new(30)) },
    );
    assert_eq!(reaction.next, Step::Drain(event));
    assert!(reaction.effects.is_empty());
    server.drained(event, DrainOutcome::WouldBlock);
    assert_eq!(server.peer(a), Some(b));
    let cleanup = server.finish();
    assert_eq!(cleanup.adopted.len(), 1);
    let c = cleanup.adopted[0];
    assert!(c != a && c != b);
    assert_eq!(
        cleanup.effects,
        vec![
            Effect::Register { sock: 30, token: c, interest: Interest::Readable },
            Effect::Deregister { sock: 20, token: b },
        ]
    );
    assert_eq!(server.peer(a), Some(c));
    assert_eq!(server.peer(c), Some(a));
    assert_eq!(server.peer(b), None);
    assert!(!server.contains(b));
    assert!(!server.is_zombie(b));
    assert_eq!(server.len(), 2);
}

#[test]
fn later_spawn_in_one_batch_takes_the_place_of_the_earlier() {
    let mut server = server(8);
    let a = connect(&mut server, 10);
    let event = readable(a);
    server.dispatch(event);
    let reaction = server.drained(
        event,
        DrainOutcome::Advanced { produced: Vec::new(), peer: Some(Endpoint::new(20)) },
    );
    assert!(reaction.effects.is_empty());
    let reaction = server.drained(
        event,
        DrainOutcome::Advanced { produced: Vec::new(), peer: Some(Endpoint::new(21)) },
    );
    assert_eq!(reaction.next, Step::Drain(event));
    assert_eq!(reaction.effects, vec![Effect::Discard { sock: 20 }]);
    server.drained(event, DrainOutcome::WouldBlock);
    let cleanup = server.finish();
    assert_eq!(cleanup.adopted.len(), 1);
    let b = cleanup.adopted[0];
    assert_eq!(
        cleanup.effects,
        vec![Effect::Register { sock: 21, token: b, interest: Interest::Readable }]
    );
    assert_eq!(server.get(b).unwrap().sock(), 21);
    assert_eq!(server.peer(a), Some(b));
    assert_eq!(server.len(), 2);
}

#[test]
fn spawned_peers_are_adopted_in_the_order_of_arrival() {
    let mut server = server(8);
    let a = connect(&mut server, 10);
    let b = connect(&mut server, 11);
    for (owner, sock) in [(b, 21u64), (a, 20u64)] {
        let event = readable(owner);
        server.dispatch(event);
        server.drained(
            event,
            DrainOutcome::Advanced { produced: Vec::new(), peer: Some(Endpoint::new(sock)) },
        );
        server.drained(event, DrainOutcome::WouldBlock);
    }
    let cleanup = server.finish();
    assert_eq!(cleanup.adopted.len(), 2);
    let (pb, pa) = (cleanup.adopted[0], cleanup.adopted[1]);
    assert_eq!(
        cleanup.effects,
        vec![
            Effect::Register { sock: 21, token: pb, interest: Interest::Readable },
            Effect::Register { sock: 20, token: pa, interest: Interest::Readable },
        ]
    );
    assert_eq!(server.peer(a), Some(pa));
    assert_eq!(server.peer(b), Some(pb));
    assert_eq!(server.peer(pa), Some(a));
    assert_eq!(server.peer(pb), Some(b));
    assert_eq!(server.len(), 4);
}

#[test]
fn spawn_without_room_discards_the_peer_and_condemns_its_initiator() {
    let mut server = server(1);
    let a = connect(&mut server, 10);
    let event = readable(a);
    server.dispatch(event);
    let reaction = server.drained(
        event,
        DrainOutcome::Advanced { produced: vec![5], peer: Some(Endpoint::new(20)) },
    );
    assert_eq!(reaction.next, Step::Done);
    assert_eq!(reaction.effects, vec![Effect::Discard { sock: 20 }]);
    assert!(server.is_stale(a));
    let cleanup = server.finish();
    assert!(cleanup.adopted.is_empty());
    assert_eq!(cleanup.effects, vec![Effect::Deregister { sock: 10, token: a }]);
    assert_eq!(server.len(), 0);
}

#[test]
fn pending_peer_holds_a_slot_against_the_listener() {
    let mut server = server(2);
    let a = connect(&mut server, 10);
    let event = readable(a);
    server.dispatch(event);
    server.drained(
        event,
        DrainOutcome::Advanced { produced: Vec::new(), peer: Some(Endpoint::new(20)) },
    );
    assert!(!server.has_room());
    assert_eq!(server.dispatch(readable(ROOT_TOKEN)).next, Step::Done);
    assert_eq!(server.accept(Some(Endpoint::new(30))), vec![Effect::Discard { sock: 30 }]);
    server.drained(event, DrainOutcome::WouldBlock);
    let cleanup = server.finish();
    assert_eq!(cleanup.adopted.len(), 1);
    assert_eq!(server.len(), 2);
}

#[test]
fn fan_out_moves_what_was_received_to_the_peer() {
    let mut server = server(4);
    let a = connect(&mut server, 10);
    let b = tunnel(&mut server, a, 20);
    let event = readable(a);
    server.dispatch(event);
    server.drained(event, DrainOutcome::Advanced { produced: vec![1, 2, 3], peer: None });
    assert!(server.get(b).unwrap().outbound().is_empty());
    let reaction = server.drained(event, DrainOutcome::WouldBlock);
    assert_eq!(reaction.next, Step::Done);
    assert_eq!(
        reaction.effects,
        vec![
            Effect::Reregister { sock: 20, token: b, interest: Interest::Both },
            Effect::Reregister { sock: 10, token: a, interest: Interest::Readable },
        ]
    );
    assert!(server.get(a).unwrap().inbound().is_empty());
    assert_eq!(server.get(b).unwrap().outbound(), &vec![1, 2, 3]);
}

#[test]
fn fan_out_without_bytes_does_nothing() {
    let mut server = server(4);
    let a = connect(&mut server, 10);
    let b = tunnel(&mut server, a, 20);
    assert!(server.fan_out(a).is_empty());
    assert!(server.fan_out(b).is_empty());
    assert!(server.get(a).unwrap().outbound().is_empty());
    assert!(server.get(b).unwrap().outbound().is_empty());
}

#[test]
fn fan_out_without_a_peer_keeps_the_bytes() {
    let mut server = server(4);
    let a = connect(&mut server, 10);
    let event = readable(a);
    server.dispatch(event);
    server.drained(event, DrainOutcome::Advanced { produced: vec![1, 2], peer: None });
    assert!(server.fan_out(a).is_empty());
    assert!(server.fan_out(9).is_empty());
    assert_eq!(server.get(a).unwrap().inbound(), &vec![1, 2]);
}

#[test]
fn fan_out_to_a_busy_peer_drops_nothing() {
    let mut server = server(4);
    let a = connect(&mut server, 10);
    let b = tunnel(&mut server, a, 20);
    let event = readable(a);
    for chunk in [vec![1u8, 2], vec![3], vec![4, 5, 6]] {
        server.dispatch(event);
        server.drained(event, DrainOutcome::Advanced { produced: chunk, peer: None });
        server.drained(event, DrainOutcome::WouldBlock);
        server.finish();
    }
    // The peer was never writable: everything is still queued, in order.
    assert_eq!(server.get(b).unwrap().outbound(), &vec![1, 2, 3, 4, 5, 6]);
    assert_eq!(server.get(b).unwrap().interest(), Interest::Both);

    let event = writable(b);
    assert_eq!(server.dispatch(event).next, Step::Flush(event));
    assert_eq!(
        server.flushed(event, FlushOutcome::Advanced { written: 4 }).next,
        Step::Flush(event)
    );
    assert_eq!(server.get(b).unwrap().outbound(), &vec![5, 6]);
    let reaction = server.flushed(event, FlushOutcome::WouldBlock);
    assert_eq!(
        reaction.effects,
        vec![Effect::Reregister { sock: 20, token: b, interest: Interest::Both }]
    );
}

#[test]
fn fan_in_takes_over_what_the_peer_has_received() {
    let mut server = server(4);
    let a = connect(&mut server, 10);
    let b = tunnel(&mut server, a, 20);
    // Bytes arrive at `a` before it has a chance to fan out.
    let event = readable(a);
    server.dispatch(event);
    server.drained(event, DrainOutcome::Advanced { produced: vec![7, 8], peer: None });
    assert_eq!(server.get(a).unwrap().inbound(), &vec![7, 8]);

    let event = writable(b);
    let reaction = server.dispatch(event);
    assert_eq!(reaction.next, Step::Flush(event));
    assert_eq!(
        reaction.effects,
        vec![Effect::Reregister { sock: 10, token: a, interest: Interest::Readable }]
    );
    assert!(server.get(a).unwrap().inbound().is_empty());
    assert_eq!(server.get(b).unwrap().outbound(), &vec![7, 8]);
    assert!(server.fan_in(b).is_empty());
}

#[test]
fn flush_beyond_the_buffer_empties_it() {
    let mut server = server(4);
    let a = connect(&mut server, 10);
    let b = tunnel(&mut server, a, 20);
    let event = readable(a);
    server.dispatch(event);
    server.drained(event, DrainOutcome::Advanced { produced: vec![1, 2], peer: None });
    server.drained(event, DrainOutcome::WouldBlock);
    let event = writable(b);
    server.dispatch(event);
    server.flushed(event, FlushOutcome::Advanced { written: 10 });
    assert!(server.get(b).unwrap().outbound().is_empty());
    let reaction = server.flushed(event, FlushOutcome::WouldBlock);
    assert_eq!(
        reaction.effects,
        vec![Effect::Reregister { sock: 20, token: b, interest: Interest::Readable }]
    );
}

#[test]
fn end_to_end_tunnel() {
    let mut server = server(16);
    let mut poll: HashSet<usize> = HashSet::new();

    // The client connects.
    assert_eq!(server.dispatch(readable(ROOT_TOKEN)).next, Step::Accept);
    let effects = server.accept(Some(Endpoint::new(10)));
    perform(&mut poll, &effects);
    let client = match effects[0] {
        Effect::Register { token, .. } => token,
        other => panic!("not a registration: {:?}", other),
    };
    perform(&mut poll, &server.finish().effects);

    // Its drain signals a destination.
    let event = readable(client);
    perform(&mut poll, &server.dispatch(event).effects);
    let reaction = server.drained(
        event,
        DrainOutcome::Advanced { produced: Vec::new(), peer: Some(Endpoint::new(20)) },
    );
    perform(&mut poll, &reaction.effects);
    perform(&mut poll, &server.drained(event, DrainOutcome::WouldBlock).effects);
    let cleanup = server.finish();
    perform(&mut poll, &cleanup.effects);
    let destination = cleanup.adopted[0];
    assert_eq!(server.len(), 2);
    assert_eq!(server.peer(client), Some(destination));
    assert_eq!(server.peer(destination), Some(client));

    // The client yields bytes; after fan-out the destination holds them.
    let bytes: Vec<u8> = (0..100).collect();
    perform(&mut poll, &server.dispatch(event).effects);
    let reaction =
        server.drained(event, DrainOutcome::Advanced { produced: bytes.clone(), peer: None });
    perform(&mut poll, &reaction.effects);
    perform(&mut poll, &server.drained(event, DrainOutcome::WouldBlock).effects);
    assert_eq!(server.get(destination).unwrap().outbound(), &bytes);
    assert!(server.get(client).unwrap().inbound().is_empty());

    // The destination's flush consumes them.
    let event = writable(destination);
    let reaction = server.dispatch(event);
    assert_eq!(reaction.next, Step::Flush(event));
    perform(&mut poll, &reaction.effects);
    let reaction = server.flushed(event, FlushOutcome::Advanced { written: 100 });
    assert_eq!(reaction.next, Step::Flush(event));
    perform(&mut poll, &reaction.effects);
    perform(&mut poll, &server.flushed(event, FlushOutcome::WouldBlock).effects);
    assert!(server.get(destination).unwrap().outbound().is_empty());
    perform(&mut poll, &server.finish().effects);

    // The destination hangs up: it is removed, the client's link is
    // gone, and the client waits in the zombie queue.
    perform(&mut poll, &server.dispatch(hangup(destination)).effects);
    let cleanup = server.finish();
    assert_eq!(cleanup.effects, vec![Effect::Deregister { sock: 20, token: destination }]);
    perform(&mut poll, &cleanup.effects);
    assert!(!server.contains(destination));
    assert_eq!(server.peer(client), None);
    assert!(server.is_zombie(client));
    assert!(server.contains(client));

    // The zombie queue is drained at the end of the next batch.
    let cleanup = server.finish();
    assert_eq!(cleanup.effects, vec![Effect::Deregister { sock: 10, token: client }]);
    perform(&mut poll, &cleanup.effects);
    assert_eq!(server.len(), 0);
    assert!(!server.is_zombie(client));
    assert!(poll.is_empty());

    // Its socket was deregistered exactly once.
    assert!(server.finish().effects.is_empty());
}

#[test]
fn both_ends_failing_in_one_batch_are_each_removed_once() {
    let mut server = server(8);
    let a = connect(&mut server, 10);
    let b = tunnel(&mut server, a, 20);
    server.dispatch(hangup(a));
    server.dispatch(hangup(b));
    assert!(server.is_stale(a) && server.is_stale(b));
    let cleanup = server.finish();
    assert_eq!(cleanup.effects.len(), 2);
    assert!(cleanup.effects.contains(&Effect::Deregister { sock: 10, token: a }));
    assert!(cleanup.effects.contains(&Effect::Deregister { sock: 20, token: b }));
    assert_eq!(server.len(), 0);
    assert!(!server.is_zombie(a));
    assert!(!server.is_zombie(b));
    assert_eq!(server.peer(a), None);
    assert_eq!(server.peer(b), None);
    assert!(server.finish().effects.is_empty());
}

#[test]
fn zombie_that_fails_in_the_next_batch_is_removed_once() {
    let mut server = server(8);
    let a = connect(&mut server, 10);
    let b = tunnel(&mut server, a, 20);
    server.dispatch(hangup(b));
    server.finish();
    assert!(server.is_zombie(a));
    // The zombie gets a hangup of its own before it is removed.
    server.dispatch(hangup(a));
    assert!(server.is_stale(a));
    let cleanup = server.finish();
    assert_eq!(cleanup.effects, vec![Effect::Deregister { sock: 10, token: a }]);
    assert_eq!(server.len(), 0);
    assert!(server.finish().effects.is_empty());
}

#[test]
fn freed_token_carries_nothing_of_its_former_endpoint() {
    let mut server = server(8);
    let a = connect(&mut server, 10);
    let b = tunnel(&mut server, a, 20);
    server.dispatch(hangup(a));
    server.dispatch(hangup(b));
    server.finish();
    let c = connect(&mut server, 30);
    let d = connect(&mut server, 31);
    assert!(c == a || c == b);
    assert!(d == a || d == b);
    for token in [c, d] {
        assert_eq!(server.peer(token), None);
        assert!(!server.is_zombie(token));
        assert!(!server.is_stale(token));
    }
    assert!(server.finish().effects.is_empty());
    assert_eq!(server.len(), 2);
}

#[test]
fn zombie_that_spawns_is_removed_and_leaves_its_peer_a_zombie() {
    let mut server = server(8);
    let a = connect(&mut server, 10);
    let b = tunnel(&mut server, a, 20);
    server.dispatch(hangup(b));
    server.finish();
    assert!(server.is_zombie(a));
    let event = readable(a);
    server.dispatch(event);
    server.drained(
        event,
        DrainOutcome::Advanced { produced: Vec::new(), peer: Some(Endpoint::new(30)) },
    );
    server.drained(event, DrainOutcome::WouldBlock);
    let cleanup = server.finish();
    assert_eq!(cleanup.adopted.len(), 1);
    let c = cleanup.adopted[0];
    assert_eq!(
        cleanup.effects,
        vec![
            Effect::Register { sock: 30, token: c, interest: Interest::Readable },
            Effect::Deregister { sock: 10, token: a },
        ]
    );
    assert!(!server.contains(a));
    assert!(server.contains(c));
    assert!(server.is_zombie(c));
    assert_eq!(server.peer(c), None);
    assert_eq!(server.finish().effects, vec![Effect::Deregister { sock: 30, token: c }]);
}

#[test]
fn links_stay_symmetric_through_a_busy_run() {
    let mut server = server(32);
    let mut owners = Vec::new();
    for sock in 0..8u64 {
        owners.push(connect(&mut server, sock));
    }
    let mut peers = Vec::new();
    for (i, owner) in owners.iter().enumerate() {
        if i % 2 == 0 {
            peers.push(tunnel(&mut server, *owner, 100 + i as u64));
        }
    }
    server.dispatch(hangup(owners[0]));
    server.dispatch(hangup(peers[1]));
    server.dispatch(hangup(owners[3]));
    server.finish();
    for token in 0..32usize {
        match server.peer(token) {
            Some(peer) => {
                assert!(peer != token);
                assert_eq!(server.peer(peer), Some(token));
                assert!(server.contains(token));
                assert!(server.contains(peer));
            },
            None => {},
        }
        if server.is_zombie(token) {
            assert!(server.contains(token));
            assert_eq!(server.peer(token), None);
        }
    }
    assert!(server.is_zombie(peers[0]));
    assert!(server.is_zombie(owners[2]));
}

#[test]
fn registration_follows_the_table() {
    let mut server = server(4);
    let mut poll: HashSet<usize> = HashSet::new();
    let mut sock = 0u64;
    for round in 0..40usize {
        if server.dispatch(readable(ROOT_TOKEN)).next == Step::Accept {
            sock += 1;
            perform(&mut poll, &server.accept(Some(Endpoint::new(sock))));
        }
        let token = round % 5;
        let event = readable(token);
        let reaction = server.dispatch(event);
        perform(&mut poll, &reaction.effects);
        if reaction.next == Step::Drain(event) {
            let peer = if round % 3 == 0 {
                sock += 1;
                Some(Endpoint::new(sock))
            } else {
                None
            };
            let reaction =
                server.drained(event, DrainOutcome::Advanced { produced: vec![1, 2, 3], peer });
            perform(&mut poll, &reaction.effects);
            let outcome = if round % 4 == 1 { DrainOutcome::Fatal } else { DrainOutcome::WouldBlock };
            perform(&mut poll, &server.drained(event, outcome).effects);
        }
        if round % 7 == 6 {
            perform(&mut poll, &server.dispatch(hangup((round / 7) % 5)).effects);
        }
        perform(&mut poll, &server.finish().effects);
        assert!(server.len() <= 4);
        assert_eq!(poll.len(), server.len());
        for token in 0..8usize {
            assert_eq!(poll.contains(&token), server.contains(token));
        }
    }
}
