use event_relay::codec::{encode, MAX_BODY_LEN};
use event_relay::models::Event;
use event_relay::registry::{Broadcast, Registry};

fn event(opcode: u8, payload: &[u8]) -> Event {
    Event { opcode, payload: payload.to_vec() }
}

fn filled(count: u64) -> Registry {
    let mut registry = Registry::new();
    for expected in 0..count {
        assert_eq!(registry.register(), Some(expected));
    }
    registry
}

#[test]
fn new_registry_is_empty() {
    let registry = Registry::new();
    assert_eq!(registry.len(), 0);
    assert_eq!(registry.targets(), Vec::<u64>::new());
}

#[test]
fn register_hands_out_fresh_identities() {
    let mut registry = Registry::new();
    assert_eq!(registry.register(), Some(0));
    assert_eq!(registry.register(), Some(1));
    assert_eq!(registry.register(), Some(2));
    assert_eq!(registry.len(), 3);
}

#[test]
fn broadcast_goes_to_each_connection_once() {
    for count in [0u64, 1, 2, 7, 50] {
        let registry = filled(count);
        let targets = registry.targets();
        assert_eq!(targets.len() as u64, count);
        assert_eq!(targets, (0..count).collect::<Vec<u64>>());
    }
}

#[test]
fn broadcast_plans_frame_and_targets() {
    let registry = filled(3);
    let e = event(0, b"pong");
    assert_eq!(
        registry.broadcast(&e),
        Some(Broadcast { frame: vec![0, 0, 0, 5, 0, b'p', b'o', b'n', b'g'], targets: vec![0, 1, 2] })
    );
    assert_eq!(registry.broadcast(&e).map(|plan| plan.frame), encode(&e));
}

#[test]
fn broadcast_of_oversized_event_is_not_planned() {
    let registry = filled(3);
    assert_eq!(registry.broadcast(&event(0, &vec![0u8; MAX_BODY_LEN])), None);
}

#[test]
fn broadcast_with_no_connections_has_no_targets() {
    let registry = Registry::new();
    let plan = registry.broadcast(&event(1, b"x"));
    assert_eq!(plan, Some(Broadcast { frame: vec![0, 0, 0, 2, 1, b'x'], targets: vec![] }));
}

#[test]
fn failure_on_one_connection_leaves_the_others() {
    let mut registry = filled(5);
    registry.close(2);
    assert_eq!(registry.targets(), vec![0, 1, 3, 4]);
    assert_eq!(registry.len(), 5);
}

#[test]
fn close_of_unknown_identity_changes_nothing() {
    let mut registry = filled(3);
    registry.close(17);
    assert_eq!(registry.targets(), vec![0, 1, 2]);
    assert_eq!(registry.prune(), 0);
    assert_eq!(registry.len(), 3);
}

#[test]
fn close_twice_is_close_once() {
    let mut registry = filled(3);
    registry.close(1);
    registry.close(1);
    assert_eq!(registry.targets(), vec![0, 2]);
    assert_eq!(registry.prune(), 1);
}

#[test]
fn prune_removes_dead_entries_only() {
    let mut registry = filled(6);
    registry.close(0);
    registry.close(3);
    registry.close(5);
    assert_eq!(registry.prune(), 3);
    assert_eq!(registry.len(), 3);
    assert_eq!(registry.targets(), vec![1, 2, 4]);
    assert_eq!(registry.prune(), 0);
}

#[test]
fn closed_connection_never_comes_back() {
    let mut registry = filled(3);
    registry.close(1);
    assert_eq!(registry.targets(), vec![0, 2]);
    assert_eq!(registry.prune(), 1);
    assert_eq!(registry.register(), Some(3));
    assert_eq!(registry.register(), Some(4));
    registry.close(0);
    assert_eq!(registry.prune(), 1);
    for _ in 0..3 {
        assert!(!registry.targets().contains(&1));
        assert!(!registry.targets().contains(&0));
    }
    assert_eq!(registry.targets(), vec![2, 3, 4]);
    assert_eq!(registry.len(), 3);
}

#[test]
fn dead_entries_do_not_pile_up() {
    let mut registry = Registry::new();
    for round in 0..100u64 {
        assert_eq!(registry.register(), Some(round));
        registry.close(round);
        assert_eq!(registry.prune(), 1);
        assert_eq!(registry.len(), 0);
    }
}
