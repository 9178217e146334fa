use grid_engine::error::GridError;
use grid_engine::error::GridErrorKind;
use grid_engine::logger::Logger;
use grid_engine::room::GridMultiplayerError;

#[test]
fn grid_error_messages() {
    assert_eq!(
        GridError::new(GridErrorKind::DuplicateId).get_message(),
        "Id already exists"
    );
    assert_eq!(
        GridError::new(GridErrorKind::NotFound).get_message(),
        "Item not found"
    );
    assert_eq!(
        GridError::new(GridErrorKind::OutOfBounds).get_message(),
        "Placement leaves the grid"
    );
    assert_eq!(
        GridError::new(GridErrorKind::Malformed).get_message(),
        "Malformed message"
    );
    assert_eq!(
        GridError::new(GridErrorKind::Divergence).get_message(),
        "Hash mismatch"
    );
}

#[test]
fn multiplayer_error_message() {
    let e = GridMultiplayerError::new("Failed to parse URI", "bad scheme");
    assert_eq!(e.get_message(), "Failed to parse URI: bad scheme");
}

#[test]
fn logger_context_composition() {
    let logger = Logger::new("Server".to_string());
    let inner = logger.append_context("Listener".to_string());
    assert_eq!(inner.context, "Server: Listener");
    assert_eq!(inner.format_line("hello"), "Server: Listener: hello");
    inner.info("hello");
    inner.error("also hello");
}
