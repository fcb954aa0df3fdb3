//! An immutable map for a small, fixed set of string keys.
//!
//! Construction picks a few byte offsets that together tell every key apart;
//! a lookup compares the query's bytes at those offsets against every stored
//! key, group by group, and confirms the single survivor by a full comparison.

pub mod bits;
pub mod map;
pub mod select;

pub use bits::roughly_log_2;
pub use map::{BuildError, SimdPerfectScanMap};
