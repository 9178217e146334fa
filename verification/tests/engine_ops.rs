use grid_engine::grid_engine::GridEngine;
use grid_engine::grid_engine::Node;
use grid_engine::grid_engine::for_cell;

fn node_by_id(engine: &GridEngine, id: &str) -> Node {
    engine
        .get_nodes()
        .into_iter()
        .find(|n| n.id == id)
        .expect("node not stored")
}

#[test]
fn engine_test_for_cell() {
    let mut results = Vec::new();
    for (x, y) in for_cell(1, 2, 2, 2) {
        results.push((x, y));
    }
    assert_eq!(results, vec![(1, 2), (1, 3), (2, 2), (2, 3)]);
}

#[test]
fn grid_engine_test_for_cell() {
    let mut results = Vec::new();
    for (x, y) in for_cell(1, 2, 2, 2) {
        results.push((x, y));
    }
    assert_eq!(results, vec![(1, 2), (1, 3), (2, 2), (2, 3)]);
}

#[test]
fn engine_test_add_item() {
    let mut engine = GridEngine::new(10, 10);
    let item_0_id = engine.add_item("0".to_string(), 0, 0, 2, 2).unwrap();

    assert!(engine.get_nodes().len() == 1);
    for (x, y) in for_cell(0, 0, 2, 2) {
        assert_eq!(engine.get_cell(x, y).unwrap(), item_0_id);
    }
}

#[test]
fn grid_engine_test_add_item() {
    let mut engine = GridEngine::new(10, 10);
    let item_0_id = engine.add_item("0".to_string(), 0, 0, 2, 2).unwrap();

    assert!(engine.get_nodes().len() == 1);
    for (x, y) in for_cell(0, 0, 2, 2) {
        assert_eq!(engine.get_cell(x, y).unwrap(), item_0_id);
    }
}

#[test]
fn engine_test_add_item_handle_duplicated_id() {
    let mut engine = GridEngine::new(10, 10);
    let _item_0_id = engine.add_item("0".to_string(), 0, 0, 2, 2).unwrap();

    assert!(engine.add_item("0".to_string(), 0, 0, 2, 2).is_err())
}

#[test]
fn grid_engine_test_add_item_handle_duplicated_id() {
    let mut engine = GridEngine::new(10, 10);
    let _item_0_id = engine.add_item("0".to_string(), 0, 0, 2, 2).unwrap();

    assert!(engine.add_item("0".to_string(), 0, 0, 2, 2).is_err())
}

#[test]
fn engine_test_add_item_handle_collision() {
    let mut engine = GridEngine::new(10, 10);
    let item_0_id = engine.add_item("0".to_string(), 0, 0, 2, 2).unwrap();
    let item_1_id = engine.add_item("1".to_string(), 0, 0, 2, 2).unwrap();

    let item_0 = node_by_id(&engine, &item_0_id);
    assert_eq!(item_0.x, 0);
    assert_eq!(item_0.y, 2);
    for (x, y) in for_cell(item_0.x, item_0.y, item_0.w, item_0.h) {
        assert_eq!(engine.get_cell(x, y).unwrap(), item_0_id);
    }

    let item_1 = node_by_id(&engine, &item_1_id);
    assert_eq!(item_1.x, 0);
    assert_eq!(item_1.y, 0);
    for (x, y) in for_cell(item_1.x, item_1.y, item_1.w, item_1.h) {
        assert_eq!(engine.get_cell(x, y).unwrap(), item_1_id);
    }
}

#[test]
fn grid_engine_test_add_item_handle_collision() {
    let mut engine = GridEngine::new(10, 10);
    let item_0_id = engine.add_item("0".to_string(), 0, 0, 2, 2).unwrap();
    let item_1_id = engine.add_item("1".to_string(), 0, 0, 2, 2).unwrap();

    let item_0 = node_by_id(&engine, &item_0_id);
    assert_eq!(item_0.x, 0);
    assert_eq!(item_0.y, 2);
    for (x, y) in for_cell(item_0.x, item_0.y, item_0.w, item_0.h) {
        assert_eq!(engine.get_cell(x, y).unwrap(), item_0_id);
    }

    let item_1 = node_by_id(&engine, &item_1_id);
    assert_eq!(item_1.x, 0);
    assert_eq!(item_1.y, 0);
    for (x, y) in for_cell(item_1.x, item_1.y, item_1.w, item_1.h) {
        assert_eq!(engine.get_cell(x, y).unwrap(), item_1_id);
    }
}

#[test]
fn engine_test_remove_item() {
    let mut engine = GridEngine::new(10, 10);
    let item_0_id = engine.add_item("0".to_string(), 0, 0, 2, 3).unwrap();
    engine.remove_item(&item_0_id).unwrap();
    for (x, y) in for_cell(0, 0, 2, 3) {
        assert_eq!(engine.get_cell(x, y), None);
    }
}

#[test]
fn grid_engine_test_remove_item() {
    let mut engine = GridEngine::new(10, 10);
    let item_0_id = engine.add_item("0".to_string(), 0, 0, 2, 3).unwrap();
    engine.remove_item(&item_0_id).unwrap();
    for (x, y) in for_cell(0, 0, 2, 3) {
        assert_eq!(engine.get_cell(x, y), None);
    }
}

#[test]
fn engine_test_move_item() {
    let mut engine = GridEngine::new(10, 10);
    let item_0_id = engine.add_item("0".to_string(), 0, 0, 2, 2).unwrap();
    engine.move_item(&item_0_id, 1, 1).unwrap();

    // Asserts that its present on the new position
    for (x, y) in for_cell(1, 1, 2, 2) {
        assert_eq!(engine.get_cell(x, y).unwrap(), item_0_id);
    }

    // Asserts that its not present on the old position
    for (x, y) in for_cell(0, 0, 1, 1) {
        assert_eq!(engine.get_cell(x, y), None);
    }
}

#[test]
fn grid_engine_test_move_item() {
    let mut engine = GridEngine::new(10, 10);
    let item_0_id = engine.add_item("0".to_string(), 0, 0, 2, 2).unwrap();
    engine.move_item(&item_0_id, 1, 1).unwrap();

    for (x, y) in for_cell(1, 1, 2, 2) {
        assert_eq!(engine.get_cell(x, y).unwrap(), item_0_id);
    }

    for (x, y) in for_cell(0, 0, 1, 1) {
        assert_eq!(engine.get_cell(x, y), None);
    }
}

#[test]
fn engine_test_move_item_handle_collision() {
    let mut engine = GridEngine::new(10, 10);
    let item_0_id = engine.add_item("0".to_string(), 0, 0, 2, 2).unwrap();
    let item_1_id = engine.add_item("1".to_string(), 0, 2, 2, 2).unwrap();
    engine.move_item("0", 0, 1).unwrap();

    // Item 0 should go to position 0, 1
    let item_0 = node_by_id(&engine, &item_0_id);
    assert_eq!(item_0.x, 0);
    assert_eq!(item_0.y, 1);
    for (x, y) in for_cell(item_0.x, item_0.y, item_0.w, item_0.h) {
        assert_eq!(engine.get_cell(x, y).unwrap(), item_0_id);
    }

    // Item 1 should go to position 0, 3
    let item_1 = node_by_id(&engine, &item_1_id);
    assert_eq!(item_1.x, 0);
    assert_eq!(item_1.y, 3);
    for (x, y) in for_cell(item_1.x, item_1.y, item_1.w, item_1.h) {
        assert_eq!(engine.get_cell(x, y).unwrap(), item_1_id);
    }
}

#[test]
fn grid_engine_test_move_item_handle_collision() {
    let mut engine = GridEngine::new(10, 10);
    let item_0_id = engine.add_item("0".to_string(), 0, 0, 2, 2).unwrap();
    let item_1_id = engine.add_item("1".to_string(), 0, 2, 2, 2).unwrap();
    engine.move_item("0", 0, 1).unwrap();

    let item_0 = node_by_id(&engine, &item_0_id);
    assert_eq!(item_0.x, 0);
    assert_eq!(item_0.y, 1);
    for (x, y) in for_cell(item_0.x, item_0.y, item_0.w, item_0.h) {
        assert_eq!(engine.get_cell(x, y).unwrap(), item_0_id);
    }

    let item_1 = node_by_id(&engine, &item_1_id);
    assert_eq!(item_1.x, 0);
    assert_eq!(item_1.y, 3);
    for (x, y) in for_cell(item_1.x, item_1.y, item_1.w, item_1.h) {
        assert_eq!(engine.get_cell(x, y).unwrap(), item_1_id);
    }
}

#[test]
fn engine_test_will_collides_with() {
    let mut engine = GridEngine::new(10, 10);
    let item_0_id = engine.add_item("0".to_string(), 0, 0, 1, 2).unwrap();

    // Asserts that does not collide with self
    assert_eq!(
        engine.will_collides_with(&node_by_id(&engine, &item_0_id), 0, 0),
        Vec::<String>::new()
    );

    // Asserts that does not collide with empty position
    assert_eq!(
        engine.will_collides_with(&node_by_id(&engine, &item_0_id), 2, 2),
        Vec::<String>::new()
    );

    // Asserts that collide with occupied position
    let item_1_id = engine.add_item("1".to_string(), 1, 2, 1, 2).unwrap();

    // Full collision
    assert_eq!(
        engine.will_collides_with(&node_by_id(&engine, &item_0_id), 1, 2),
        vec![item_1_id.clone()]
    );

    // Partial collision
    assert_eq!(
        engine.will_collides_with(&node_by_id(&engine, &item_0_id), 1, 1),
        vec![item_1_id.clone()]
    );
}

#[test]
fn grid_engine_test_will_collides_with() {
    let mut engine = GridEngine::new(10, 10);
    let item_0_id = engine.add_item("0".to_string(), 0, 0, 1, 2).unwrap();

    assert_eq!(
        engine.will_collides_with(&node_by_id(&engine, &item_0_id), 0, 0),
        Vec::<String>::new()
    );

    assert_eq!(
        engine.will_collides_with(&node_by_id(&engine, &item_0_id), 2, 2),
        Vec::<String>::new()
    );

    let item_1_id = engine.add_item("1".to_string(), 1, 2, 1, 2).unwrap();

    assert_eq!(
        engine.will_collides_with(&node_by_id(&engine, &item_0_id), 1, 2),
        vec![item_1_id.clone()]
    );

    assert_eq!(
        engine.will_collides_with(&node_by_id(&engine, &item_0_id), 1, 1),
        vec![item_1_id.clone()]
    );
}

#[test]
fn engine_test_get_nodes() {
    let mut engine = GridEngine::new(10, 10);
    let item_0_id = engine.add_item("0".to_string(), 0, 0, 2, 2).unwrap();
    let item_1_id = engine.add_item("1".to_string(), 0, 2, 2, 2).unwrap();

    let nodes = engine.get_nodes();
    assert_eq!(nodes.len(), 2);
    assert_eq!(nodes[0].id, item_0_id);
    assert_eq!(nodes[1].id, item_1_id);
}

#[test]
fn grid_engine_test_get_nodes() {
    let mut engine = GridEngine::new(10, 10);
    let item_0_id = engine.add_item("0".to_string(), 0, 0, 2, 2).unwrap();
    let item_1_id = engine.add_item("1".to_string(), 0, 2, 2, 2).unwrap();

    let nodes = engine.get_grid_view().get_nodes();
    assert_eq!(nodes.len(), 2);
    assert_eq!(nodes[0].id, item_0_id);
    assert_eq!(nodes[1].id, item_1_id);
}

#[test]
fn engine_test_serialize_and_deserialize() {
    let mut engine = GridEngine::new(10, 10);
    engine.add_item("0".to_string(), 0, 0, 2, 2).unwrap();
    engine.add_item("1".to_string(), 0, 2, 2, 2).unwrap();

    let serialized = engine.serialized_as_str();
    let deserialized_engine = GridEngine::from_str(&serialized).unwrap();

    assert_eq!(engine.get_nodes(), deserialized_engine.get_nodes());
    assert_eq!(
        engine.get_grid_formatted(),
        deserialized_engine.get_grid_formatted()
    );
}

#[test]
fn grid_engine_test_serialize_and_deserialize() {
    let mut engine = GridEngine::new(10, 10);
    engine.add_item("0".to_string(), 0, 0, 2, 2).unwrap();
    engine.add_item("1".to_string(), 0, 2, 2, 2).unwrap();

    let serialized = engine.get_grid_view().serialized_as_str();
    let deserialized_engine = GridEngine::from_str(&serialized).unwrap();

    assert_eq!(
        engine.get_grid_view().get_nodes(),
        deserialized_engine.get_grid_view().get_nodes()
    );
    assert_eq!(
        engine.get_grid_view().get_grid_formatted(),
        deserialized_engine.get_grid_view().get_grid_formatted()
    );
}
