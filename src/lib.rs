//! A compact block codec for postings lists: strictly ascending sequences of
//! `u32` document identifiers.
//!
//! Identifiers are turned into gaps (`delta`), the gaps are packed four at a
//! time at a per-group bit width with a side list of outliers (`qmx`, built on
//! the group layout of `pack`), and the reverse path unpacks the gaps and
//! rebuilds the identifiers by a running sum. `postings` joins these steps;
//! `block` adds the metadata that a container stores beside the bytes.

mod error;
pub mod block;
pub mod delta;
pub mod pack;
pub mod postings;
pub mod qmx;

pub use block::MetaData;
pub use error::CodecError;
pub use postings::{decode, encode};
