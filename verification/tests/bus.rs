use event_relay::bus::{EventBus, DEFAULT_CAPACITY};
use event_relay::models::Event;

fn event(opcode: u8, payload: &[u8]) -> Event {
    Event { opcode, payload: payload.to_vec() }
}

#[test]
fn default_capacity_is_one_hundred() {
    assert_eq!(DEFAULT_CAPACITY, 100);
}

#[test]
fn new_bus_is_empty() {
    let mut bus = EventBus::new(4);
    assert_eq!(bus.len(), 0);
    assert_eq!(bus.dispatch(), None);
    assert_eq!(bus.drain(), Vec::<Event>::new());
}

#[test]
fn dispatch_follows_publication_order() {
    let mut bus = EventBus::new(DEFAULT_CAPACITY);
    assert_eq!(bus.publish(event(1, b"E1")), Ok(()));
    assert_eq!(bus.publish(event(2, b"E2")), Ok(()));
    assert_eq!(bus.dispatch(), Some(event(1, b"E1")));
    assert_eq!(bus.dispatch(), Some(event(2, b"E2")));
    assert_eq!(bus.dispatch(), None);
}

#[test]
fn order_holds_with_other_producers_in_between() {
    let mut bus = EventBus::new(10);
    assert_eq!(bus.publish(event(9, b"earlier")), Ok(()));
    assert_eq!(bus.publish(event(1, b"E1")), Ok(()));
    assert_eq!(bus.publish(event(7, b"other")), Ok(()));
    assert_eq!(bus.publish(event(8, b"another")), Ok(()));
    assert_eq!(bus.publish(event(2, b"E2")), Ok(()));
    let drained = bus.drain();
    let first = drained.iter().position(|e| e.payload == b"E1");
    let second = drained.iter().position(|e| e.payload == b"E2");
    assert_eq!(first, Some(1));
    assert_eq!(second, Some(4));
    assert_eq!(bus.len(), 0);
}

#[test]
fn full_bus_hands_the_event_back() {
    let mut bus = EventBus::new(2);
    assert_eq!(bus.publish(event(1, b"a")), Ok(()));
    assert_eq!(bus.publish(event(2, b"b")), Ok(()));
    assert_eq!(bus.publish(event(3, b"c")), Err(event(3, b"c")));
    assert_eq!(bus.len(), 2);
    assert_eq!(bus.dispatch(), Some(event(1, b"a")));
    assert_eq!(bus.publish(event(3, b"c")), Ok(()));
    assert_eq!(bus.drain(), vec![event(2, b"b"), event(3, b"c")]);
}

#[test]
fn bus_without_room_takes_nothing() {
    let mut bus = EventBus::new(0);
    assert_eq!(bus.publish(event(1, b"a")), Err(event(1, b"a")));
    assert_eq!(bus.len(), 0);
}

#[test]
fn bus_holds_exactly_its_capacity() {
    let mut bus = EventBus::new(DEFAULT_CAPACITY);
    for i in 0..100u8 {
        assert_eq!(bus.publish(event(i, &[i])), Ok(()));
    }
    assert_eq!(bus.publish(event(100, b"")), Err(event(100, b"")));
    assert_eq!(bus.len(), 100);
    let drained = bus.drain();
    assert_eq!(drained.len(), 100);
    for (i, e) in drained.iter().enumerate() {
        assert_eq!(e.opcode as usize, i);
    }
}

#[test]
fn drain_then_publish_starts_over() {
    let mut bus = EventBus::new(1);
    assert_eq!(bus.publish(event(1, b"a")), Ok(()));
    assert_eq!(bus.drain(), vec![event(1, b"a")]);
    assert_eq!(bus.publish(event(2, b"b")), Ok(()));
    assert_eq!(bus.dispatch(), Some(event(2, b"b")));
}
