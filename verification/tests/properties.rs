use grid_engine::codec::encode_batch;
use grid_engine::codec::parse_batch;
use grid_engine::error::GridErrorKind;
use grid_engine::grid_engine::AddChangeData;
use grid_engine::grid_engine::Change;
use grid_engine::grid_engine::EventValue;
use grid_engine::grid_engine::GridEngine;
use grid_engine::grid_engine::Node;
use grid_engine::grid_engine::for_cell;

#[test]
fn add_then_read_back() {
    let mut engine = GridEngine::new(10, 10);
    engine.add_item("0".to_string(), 0, 0, 2, 2).unwrap();
    for (x, y) in for_cell(0, 0, 2, 2) {
        assert_eq!(engine.get_cell(x, y).unwrap(), "0");
    }
    let nodes = engine.get_nodes();
    assert_eq!(nodes.len(), 1);
    assert_eq!(nodes[0].id, "0");
    // no other cell holds a value
    for x in 0..10 {
        for y in 0..10 {
            if x >= 2 || y >= 2 {
                assert_eq!(engine.get_cell(x, y), None);
            }
        }
    }
}

#[test]
fn duplicate_id_leaves_state_unchanged() {
    let mut engine = GridEngine::new(10, 10);
    engine.add_item("0".to_string(), 0, 0, 2, 2).unwrap();
    let before = engine.serialized_as_str();
    let err = engine.add_item("0".to_string(), 3, 3, 1, 1).unwrap_err();
    assert_eq!(err.kind(), GridErrorKind::DuplicateId);
    assert_eq!(engine.serialized_as_str(), before);
}

#[test]
fn add_collision_cascade_emits_move_then_add() {
    let mut engine = GridEngine::new(10, 10);
    engine.add_item("0".to_string(), 0, 0, 2, 2).unwrap();
    let listener = engine.subscribe();
    engine.add_item("1".to_string(), 0, 0, 2, 2).unwrap();

    let item_0 = engine.get_nodes().into_iter().find(|n| n.id == "0").unwrap();
    let item_1 = engine.get_nodes().into_iter().find(|n| n.id == "1").unwrap();
    assert_eq!((item_1.x, item_1.y), (0, 0));
    assert_eq!((item_0.x, item_0.y), (0, 2));

    let events = engine.take_events(listener);
    assert_eq!(events.len(), 1);
    let EventValue::BatchChange(batch) = &events[0];
    assert_eq!(batch.changes.len(), 2);
    match &batch.changes[0] {
        Change::Move(data) => {
            assert_eq!(data.old_value.id, "0");
            assert_eq!((data.old_value.x, data.old_value.y), (0, 0));
            assert_eq!((data.new_value.x, data.new_value.y), (0, 2));
        }
        other => panic!("expected a move first, got {:?}", other),
    }
    match &batch.changes[1] {
        Change::Add(data) => {
            assert_eq!(data.value.id, "1");
            assert_eq!((data.value.x, data.value.y), (0, 0));
        }
        other => panic!("expected an add last, got {:?}", other),
    }
}

#[test]
fn move_collision_cascade() {
    let mut engine = GridEngine::new(10, 10);
    engine.add_item("0".to_string(), 0, 0, 2, 2).unwrap();
    engine.add_item("1".to_string(), 0, 2, 2, 2).unwrap();
    engine.move_item("0", 0, 1).unwrap();

    let item_0 = engine.get_nodes().into_iter().find(|n| n.id == "0").unwrap();
    let item_1 = engine.get_nodes().into_iter().find(|n| n.id == "1").unwrap();
    assert_eq!((item_0.x, item_0.y), (0, 1));
    assert_eq!((item_1.x, item_1.y), (0, 3));
}

#[test]
fn remove_clears_cells() {
    let mut engine = GridEngine::new(10, 10);
    engine.add_item("0".to_string(), 0, 0, 2, 3).unwrap();
    engine.remove_item("0").unwrap();
    let mut cleared = 0;
    for (x, y) in for_cell(0, 0, 2, 3) {
        assert_eq!(engine.get_cell(x, y), None);
        cleared += 1;
    }
    assert_eq!(cleared, 6);
    assert!(engine.get_nodes().is_empty());
}

#[test]
fn snapshot_round_trip_preserves_everything() {
    let mut engine = GridEngine::new(16, 12);
    engine.add_item("alpha".to_string(), 0, 0, 3, 2).unwrap();
    engine.add_item("beta".to_string(), 4, 5, 2, 4).unwrap();
    engine.move_item("alpha", 1, 1).unwrap();

    let serialized = engine.serialized_as_str();
    let restored = GridEngine::from_str(&serialized).unwrap();
    assert_eq!(engine.get_nodes(), restored.get_nodes());
    assert_eq!(engine.get_grid_formatted(), restored.get_grid_formatted());
    assert_eq!(serialized, restored.serialized_as_str());
    assert_eq!(
        engine.get_grid_view().hash(),
        restored.get_grid_view().hash()
    );
}

#[test]
fn replay_equivalence_across_engines() {
    let mut a = GridEngine::new(10, 10);
    let listener = a.subscribe();
    let mut b = GridEngine::new(10, 10);

    a.add_item("0".to_string(), 0, 0, 2, 2).unwrap();
    a.add_item("1".to_string(), 0, 0, 2, 2).unwrap();
    a.move_item("0", 4, 4).unwrap();

    let events = a.take_events(listener);
    assert_eq!(events.len(), 3);
    for event in &events {
        let EventValue::BatchChange(batch) = event;
        assert_eq!(b.get_grid_view().hash(), batch.hash_before);
        b.apply_changes(&batch.changes).unwrap();
        assert_eq!(b.get_grid_view().hash(), batch.hash_after);
    }
    assert_eq!(a.serialized_as_str(), b.serialized_as_str());
    assert_eq!(a.get_grid_view().hash(), b.get_grid_view().hash());
}

#[test]
fn hash_is_stable_for_equal_views() {
    let mut a = GridEngine::new(10, 10);
    a.add_item("x".to_string(), 1, 1, 2, 2).unwrap();
    let mut b = GridEngine::new(10, 10);
    b.add_item("x".to_string(), 1, 1, 2, 2).unwrap();
    assert_eq!(a.get_grid_view().hash(), b.get_grid_view().hash());
    assert_eq!(a.serialized_as_str(), b.serialized_as_str());
}

#[test]
fn out_of_bounds_is_rejected_and_rolled_back() {
    let mut engine = GridEngine::new(4, 4);
    engine.add_item("0".to_string(), 0, 2, 2, 2).unwrap();
    let before = engine.serialized_as_str();
    // the displaced node would leave the grid
    let err = engine.add_item("1".to_string(), 0, 2, 2, 2).unwrap_err();
    assert_eq!(err.kind(), GridErrorKind::OutOfBounds);
    assert_eq!(engine.serialized_as_str(), before);
    // a placement beyond the edge fails outright
    let err = engine.add_item("2".to_string(), 3, 3, 2, 2).unwrap_err();
    assert_eq!(err.kind(), GridErrorKind::OutOfBounds);
    assert_eq!(engine.serialized_as_str(), before);
}

#[test]
fn not_found_errors() {
    let mut engine = GridEngine::new(10, 10);
    assert_eq!(
        engine.move_item("missing", 0, 0).unwrap_err().kind(),
        GridErrorKind::NotFound
    );
    assert_eq!(
        engine.remove_item("missing").unwrap_err().kind(),
        GridErrorKind::NotFound
    );
}

#[test]
fn malformed_batch_is_rejected_verbatim() {
    let mut engine = GridEngine::new(10, 10);
    engine.add_item("0".to_string(), 0, 0, 2, 2).unwrap();
    let before = engine.serialized_as_str();
    // an add that overlaps the stored node does not describe a valid state
    let bad = vec![Change::Add(AddChangeData {
        value: Node::new("1".to_string(), 1, 1, 2, 2),
    })];
    let err = engine.apply_changes(&bad).unwrap_err();
    assert_eq!(err.kind(), GridErrorKind::Malformed);
    assert_eq!(engine.serialized_as_str(), before);
}

#[test]
fn malformed_snapshot_is_rejected() {
    for bad in ["not a snapshot", "GV 2 2 0"] {
        match GridEngine::from_str(bad) {
            Ok(_) => panic!("malformed snapshot was accepted"),
            Err(e) => assert_eq!(e.kind(), GridErrorKind::Malformed),
        }
    }
}

#[test]
fn batch_codec_round_trip() {
    let mut engine = GridEngine::new(10, 10);
    let listener = engine.subscribe();
    engine.add_item("0".to_string(), 0, 0, 2, 2).unwrap();
    engine.add_item("1".to_string(), 0, 0, 2, 2).unwrap();
    let events = engine.take_events(listener);
    for event in &events {
        let EventValue::BatchChange(batch) = event;
        let encoded = encode_batch(batch);
        let decoded = parse_batch(&encoded).unwrap();
        assert_eq!(&decoded, batch);
    }
    assert_eq!(parse_batch("CB x").unwrap_err().kind(), GridErrorKind::Malformed);
}

#[test]
fn formatted_grid_shows_gutters() {
    let mut engine = GridEngine::new(3, 3);
    engine.add_item("7".to_string(), 0, 0, 1, 1).unwrap();
    let formatted = engine.get_grid_formatted();
    let expected = "   0  1  2 \n00[7][ ][ ]\n01[ ][ ][ ]\n02[ ][ ][ ]\n";
    assert_eq!(formatted, expected);
}
