use tunnel_reactor::{Arena, Endpoint, Interest, Links};

#[test]
fn endpoint_starts_empty_and_listens() {
    let endpoint = Endpoint::new(7);
    assert_eq!(endpoint.sock(), 7);
    assert!(endpoint.inbound().is_empty());
    assert!(endpoint.outbound().is_empty());
    assert_eq!(endpoint.interest(), Interest::Readable);
}

#[test]
fn endpoint_asks_for_write_readiness_while_it_has_output() {
    let mut endpoint = Endpoint::new(1);
    endpoint.push(vec![1, 2, 3]);
    assert_eq!(endpoint.interest(), Interest::Both);
    endpoint.consume(2);
    assert_eq!(endpoint.interest(), Interest::Both);
    endpoint.consume(1);
    assert_eq!(endpoint.interest(), Interest::Readable);
}

#[test]
fn endpoint_push_appends_in_order() {
    let mut endpoint = Endpoint::new(1);
    endpoint.push(vec![1, 2]);
    endpoint.push(vec![]);
    endpoint.push(vec![3]);
    assert_eq!(endpoint.outbound(), &vec![1, 2, 3]);
    assert!(endpoint.inbound().is_empty());
}

#[test]
fn endpoint_pull_takes_everything_received() {
    let mut endpoint = Endpoint::new(1);
    endpoint.receive(vec![9, 8]);
    endpoint.receive(vec![7]);
    assert_eq!(endpoint.inbound(), &vec![9, 8, 7]);
    assert_eq!(endpoint.pull(), vec![9, 8, 7]);
    assert!(endpoint.inbound().is_empty());
    assert_eq!(endpoint.pull(), Vec::<u8>::new());
}

#[test]
fn endpoint_consume_drops_from_the_front() {
    let mut endpoint = Endpoint::new(1);
    endpoint.push(vec![1, 2, 3, 4]);
    endpoint.consume(0);
    assert_eq!(endpoint.outbound(), &vec![1, 2, 3, 4]);
    endpoint.consume(3);
    assert_eq!(endpoint.outbound(), &vec![4]);
}

#[test]
fn endpoint_consume_beyond_the_buffer_empties_it() {
    let mut endpoint = Endpoint::new(1);
    endpoint.push(vec![1, 2]);
    endpoint.consume(5);
    assert!(endpoint.outbound().is_empty());
}

#[test]
fn arena_gives_each_endpoint_its_own_token() {
    let mut arena = Arena::with_limit(8);
    let a = arena.insert(Endpoint::new(10)).ok().unwrap();
    let b = arena.insert(Endpoint::new(11)).ok().unwrap();
    let c = arena.insert(Endpoint::new(12)).ok().unwrap();
    assert!(a != b && b != c && a != c);
    assert_eq!(arena.len(), 3);
    assert_eq!(arena.capacity(), 8);
    assert_eq!(arena.get(a).unwrap().sock(), 10);
    assert_eq!(arena.get(b).unwrap().sock(), 11);
    assert_eq!(arena.get(c).unwrap().sock(), 12);
}

#[test]
fn arena_refuses_beyond_its_limit() {
    let mut arena = Arena::with_limit(2);
    assert!(arena.insert(Endpoint::new(1)).is_ok());
    assert!(arena.insert(Endpoint::new(2)).is_ok());
    let back = arena.insert(Endpoint::new(3)).err().unwrap();
    assert_eq!(back.sock(), 3);
    assert_eq!(arena.len(), 2);
}

#[test]
fn arena_with_limit_zero_takes_nothing() {
    let mut arena = Arena::with_limit(0);
    assert!(arena.insert(Endpoint::new(1)).is_err());
    assert_eq!(arena.len(), 0);
}

#[test]
fn arena_remove_returns_the_endpoint_and_frees_the_token() {
    let mut arena = Arena::with_limit(2);
    let a = arena.insert(Endpoint::new(1)).ok().unwrap();
    let b = arena.insert(Endpoint::new(2)).ok().unwrap();
    let removed = arena.remove(a).unwrap();
    assert_eq!(removed.sock(), 1);
    assert!(!arena.contains(a));
    assert!(arena.contains(b));
    assert_eq!(arena.len(), 1);
    let again = arena.insert(Endpoint::new(3)).ok().unwrap();
    assert_eq!(again, a);
    assert_eq!(arena.get(again).unwrap().sock(), 3);
}

#[test]
fn arena_remove_of_an_absent_token_does_nothing() {
    let mut arena = Arena::with_limit(2);
    let a = arena.insert(Endpoint::new(1)).ok().unwrap();
    assert!(arena.remove(a + 1).is_none());
    assert!(arena.remove(a).is_some());
    assert!(arena.remove(a).is_none());
    assert_eq!(arena.len(), 0);
}

#[test]
fn arena_changes_an_endpoint_in_place() {
    let mut arena = Arena::with_limit(2);
    let a = arena.insert(Endpoint::new(1)).ok().unwrap();
    let b = arena.insert(Endpoint::new(2)).ok().unwrap();
    assert!(arena.receive(a, vec![1, 2, 3]));
    assert!(arena.push(b, vec![4]));
    assert_eq!(arena.get(a).unwrap().inbound(), &vec![1, 2, 3]);
    assert_eq!(arena.get(b).unwrap().outbound(), &vec![4]);
    assert_eq!(arena.pull(a), vec![1, 2, 3]);
    assert!(arena.get(a).unwrap().inbound().is_empty());
    assert!(arena.consume(b, 1));
    assert!(arena.get(b).unwrap().outbound().is_empty());
}

#[test]
fn arena_passes_over_absent_tokens() {
    let mut arena = Arena::with_limit(2);
    assert!(!arena.receive(5, vec![1]));
    assert!(!arena.push(5, vec![1]));
    assert!(!arena.consume(5, 1));
    assert_eq!(arena.pull(5), Vec::<u8>::new());
    assert!(arena.get(5).is_none());
    assert_eq!(arena.len(), 0);
}

#[test]
fn links_are_recorded_in_both_directions() {
    let mut links = Links::new();
    assert!(links.link(1, 2));
    assert_eq!(links.peer(1), Some(2));
    assert_eq!(links.peer(2), Some(1));
    assert_eq!(links.peer(3), None);
}

#[test]
fn links_unlink_removes_both_directions() {
    let mut links = Links::new();
    assert!(links.link(1, 2));
    assert!(links.link(3, 4));
    assert_eq!(links.unlink(2), Some(1));
    assert_eq!(links.peer(1), None);
    assert_eq!(links.peer(2), None);
    assert_eq!(links.peer(3), Some(4));
    assert_eq!(links.unlink(2), None);
    assert_eq!(links.unlink(1), None);
}

#[test]
fn links_leave_a_paired_token_with_its_peer() {
    let mut links = Links::new();
    assert!(links.link(1, 2));
    assert!(!links.link(1, 3));
    assert!(!links.link(3, 2));
    assert!(!links.link(4, 4));
    assert_eq!(links.peer(1), Some(2));
    assert_eq!(links.peer(2), Some(1));
    assert_eq!(links.peer(3), None);
    assert_eq!(links.peer(4), None);
}
