//! A shared rectangular-tile layout engine: a grid of identified rectangles
//! with deterministic collision resolution, a change log, an event bus, a
//! canonical serialization with a content hash, and the room bookkeeping that
//! a synchronization server needs.

pub mod cells;
pub mod codec;
pub mod engine_events;
pub mod error;
pub mod grid_engine;
pub mod grid_view;
pub mod logger;
pub mod model;
pub mod room;
pub mod ser;
pub mod text;
