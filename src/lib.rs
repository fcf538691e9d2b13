//! Search over the cross product of two ordered collections, walked one
//! anti-diagonal at a time, stopping at the first pair that a pluggable
//! predicate accepts.

pub mod layer;
pub mod lines;
pub mod search;
pub mod strategy;

pub use layer::build_layer;
pub use lines::split_lines_lossy;
pub use search::{diagonal_bruteforce_core, process_layer_cpu};
pub use strategy::{DummyStrategy, LoginStrategy};
