//! A minimal feedforward-network evaluation and training engine.
//!
//! Scalars are fixed-point numbers: an `i64` holding `value * fx::SCALE`,
//! with saturating arithmetic. The crate provides the computational units
//! (`node`), the network with forward evaluation, loss and the
//! finite-difference trainer (`model`), the cost functions (`cost`), and the
//! parameter-buffer codecs: the tail-first ribbon codec on a network
//! (`model`) and the shape-keyed codec on a nested structure (`shape`).

pub mod fx;
pub mod node;
pub mod cost;
pub mod model;
pub mod shape;
