//! Replication of a live key-value dataset: decoding of the binary snapshot,
//! the commands that its entries become for the destination, parsing of the
//! command stream that follows the snapshot, and the bookkeeping of offsets and
//! phases that ties the two together.
#![allow(non_snake_case)]
#![allow(non_camel_case_types)]
#![allow(non_upper_case_globals)]

pub mod checksum;
pub mod chunks;
pub mod cmd;
pub mod decimal;
pub mod encode;
pub mod endian;
pub mod errors;
pub mod frames;
pub mod full;
pub mod incr;
pub mod loader;
pub mod lzf;
pub mod members;
pub mod object;
pub mod packed;
pub mod packed_values;
pub mod reader;
pub mod replay;
pub mod run;
pub mod sender;
pub mod slice_buffer;
pub mod source;
pub mod stream;
pub mod suffix;
pub mod values;
pub mod wire;
