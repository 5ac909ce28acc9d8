//! A verified binary codec for Bitcoin-style transactions.
//!
//! The wire format is the canonical serialized transaction: little-endian
//! fixed-width integers, compact-size variable-length counts, byte-reversed
//! 32-byte hash fields, length-prefixed opaque byte blobs, and an optional
//! segregated-witness section signalled by a two-byte marker/flag pair.
//!
//! `model` holds the mathematical description of the format: a ghost
//! transaction model, a specification-level encoder, and a
//! specification-level decoder. The executable decoder and encoder are
//! proved to agree exactly with those specifications, and `laws` proves
//! that decoding an encoding gives back the original transaction.

pub mod err;
pub mod model;
pub mod read;
pub mod tx;
pub mod write;
pub mod laws;
