//! Timestamp column codec. Tick timestamps are what Gorilla's delta-of-delta
//! scheme was designed for, so tickpack uses it unchanged.

pub use crate::gorilla::{decode_timestamps as decode, encode_timestamps as encode};
