//! A battleship-style board-placement puzzle: a fixed-size occupancy grid
//! with a per-length boat inventory, an engine that validates and applies a
//! single placement, and a lossless text codec for persisting board states.
//! Two small companions share the crate: a text slugifier and a builder-style
//! node record.

pub mod board;
pub mod codec;
pub mod node;
pub mod slug;
pub mod text;
