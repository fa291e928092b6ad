//! Evolutionary search for near-optimal placements of heterogeneous-radius
//! circles inside a bounded rectangle.
//!
//! All geometry is carried in fixed-point coordinates: an `i64` holds a
//! length in thousandths of a spatial unit, so that every computation is
//! exact integer arithmetic and can be verified.

pub mod num;
pub mod models;
pub mod rng;
pub mod init;
pub mod eval;
pub mod hungarian;
pub mod cross;
pub mod mutate;
pub mod select;
pub mod engine;
pub mod codec;
