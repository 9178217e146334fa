use grid_engine::engine_events::EventListener;
use grid_engine::error::GridErrorKind;
use grid_engine::grid_engine::BatchChangeValue;
use grid_engine::grid_engine::EventName;
use grid_engine::grid_engine::EventValue;
use grid_engine::grid_engine::GridEngine;
use grid_engine::room::Room;

#[test]
fn bus_subscribe_then_unsubscribe_is_identity() {
    let mut bus = EventListener::default();
    let id = bus.add_listener(EventName::BatchChange);
    bus.remove_listener(EventName::BatchChange, id);
    // a fresh handle after the cycle behaves like the first one did
    let mut engine = GridEngine::new(4, 4);
    let listener = engine.subscribe();
    engine.unsubscribe(listener);
    engine.add_item("0".to_string(), 0, 0, 1, 1).unwrap();
    // the unsubscribed listener receives nothing
    assert!(engine.take_events(listener).is_empty());
}

#[test]
fn bus_unsubscribe_unknown_handle_is_noop() {
    let mut engine = GridEngine::new(4, 4);
    let listener = engine.subscribe();
    engine.unsubscribe(9999);
    engine.add_item("0".to_string(), 0, 0, 1, 1).unwrap();
    assert_eq!(engine.take_events(listener).len(), 1);
}

#[test]
fn bus_delivers_in_subscription_order_and_drains() {
    let mut engine = GridEngine::new(4, 4);
    let first = engine.subscribe();
    let second = engine.subscribe();
    engine.add_item("0".to_string(), 0, 0, 1, 1).unwrap();
    engine.add_item("1".to_string(), 1, 1, 1, 1).unwrap();
    let first_events = engine.take_events(first);
    let second_events = engine.take_events(second);
    assert_eq!(first_events.len(), 2);
    assert_eq!(first_events, second_events);
    // taking drains the queue
    assert!(engine.take_events(first).is_empty());
}

#[test]
fn divergent_batch_is_dropped() {
    let mut room = Room::new(10, 10);
    room.grid.add_item("0".to_string(), 0, 0, 2, 2).unwrap();
    let before = room.grid.serialized_as_str();

    let batch = BatchChangeValue {
        changes: Vec::new(),
        hash_before: "not the current hash".to_string(),
        hash_after: "whatever".to_string(),
    };
    let err = room.handle_remote_batch(&batch).unwrap_err();
    assert_eq!(err.kind(), GridErrorKind::Divergence);
    assert_eq!(room.grid.serialized_as_str(), before);
}

#[test]
fn matching_batch_is_applied() {
    let mut origin = GridEngine::new(10, 10);
    let listener = origin.subscribe();
    origin.add_item("0".to_string(), 0, 0, 2, 2).unwrap();
    let events = origin.take_events(listener);
    assert_eq!(events.len(), 1);
    let EventValue::BatchChange(batch) = &events[0];

    let mut room = Room::new(10, 10);
    room.handle_remote_batch(batch).unwrap();
    assert_eq!(room.grid.serialized_as_str(), origin.serialized_as_str());
}

#[test]
fn three_clients_broadcast_exclusion() {
    let mut room = Room::new(10, 10);
    let _x = room.add_client("x".to_string());
    let y = room.add_client("y".to_string());
    let z = room.add_client("z".to_string());

    // client x performs a mutation through the room's engine
    room.grid.add_item("0".to_string(), 0, 0, 2, 2).unwrap();

    // the broadcast reaches y and z, never x
    let targets = room.broadcast_targets("x");
    assert_eq!(targets, vec!["y".to_string(), "z".to_string()]);

    // each recipient sees exactly one matching batch on its queue
    let y_events = room.grid.take_events(y);
    let z_events = room.grid.take_events(z);
    assert_eq!(y_events.len(), 1);
    assert_eq!(z_events.len(), 1);
    assert_eq!(y_events, z_events);
}

#[test]
fn closing_a_connection_is_idempotent() {
    let mut room = Room::new(10, 10);
    room.add_client("x".to_string());
    room.add_client("y".to_string());
    room.close_connection("x");
    room.close_connection("x");
    assert_eq!(room.broadcast_targets(""), vec!["y".to_string()]);
}

#[test]
fn divergent_batch_publishes_nothing() {
    let mut room = Room::new(10, 10);
    room.grid.add_item("0".to_string(), 0, 0, 2, 2).unwrap();
    let listener = room.grid.subscribe();

    let batch = BatchChangeValue {
        changes: Vec::new(),
        hash_before: "not the current hash".to_string(),
        hash_after: "whatever".to_string(),
    };
    assert!(room.handle_remote_batch(&batch).is_err());
    // nothing was published for the dropped batch
    assert!(room.grid.take_events(listener).is_empty());
}

#[test]
fn closing_a_connection_unsubscribes_its_listener() {
    let mut room = Room::new(10, 10);
    let listener = room.add_client("x".to_string());
    room.close_connection("x");
    // the handler is gone from the bus: a later mutation reaches no queue
    // under that handle
    room.grid.add_item("0".to_string(), 0, 0, 2, 2).unwrap();
    assert!(room.grid.take_events(listener).is_empty());
}
