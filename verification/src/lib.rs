//! A cellular fluid sandbox on a rectangular tile grid.
//!
//! The grid holds immovable rock, empty air and movable water. Two pieces
//! carry the weight of the crate: the blob detector, which partitions the
//! water tiles into maximal 4-connected groups, and the tick engine, which
//! moves every water tile one step under gravity, lateral spreading and a
//! buoyancy correction.
pub mod point;
pub mod tiles;
pub mod grid;
pub mod board;
pub mod components;
pub mod blobs;
pub mod random;
pub mod flood;
pub mod blob_detector;
pub mod engine;
pub mod game;
pub mod console_painter;
pub mod ggez_painter;
