//! Item-item collaborative filtering over per-account tank statistics.
//!
//! The statistics arrive as a compact binary stream of account records
//! (`stats`), whose integers use an unsigned base-128 encoding (`protobuf`).
//! Records are folded into a rating table, from which a symmetric
//! similarity model is built and evaluated on a held-out split (`cf`,
//! `trainer`).

pub mod stream;
pub mod protobuf;
pub mod stats;
pub mod cf;
pub mod trainer;
