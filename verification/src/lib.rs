//! An embedded single-writer key-value table: an append-only log, a sorted
//! in-memory index, and the self-delimiting binary codec that both share.
//!
//! Beside the table stand a value tree with a total order and a text form,
//! the exact comparison of integers with binary64 numbers that the order
//! needs, and a reader of length-prefixed messages built on the codec.
//!
//! The library does no input or output. A table is opened on the bytes of
//! its log and holds what it appends to it; whoever keeps the log in a file
//! reads and writes the bytes.

pub mod cmp_fi;
pub mod decode;
pub mod encode;
pub mod f64_conv;
pub mod framing;
pub mod index;
pub mod json;
pub mod json_decode;
pub mod json_encode;
pub mod json_order;
pub mod json_round_trip;
pub mod json_tokens;
pub mod mem_table;
pub mod round_trip;
pub mod stream;
pub mod table;
pub mod util;
