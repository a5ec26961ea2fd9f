//! A log-structured stream storage core: a compact binary element encoding
//! (the listpack), monotonic 128-bit stream identifiers, an ordered index
//! keyed by byte strings, and the append/rollover machinery that lays stream
//! records out in packs and segments.

pub mod aof;
pub mod cmd;
pub mod codec;
pub mod error;
pub mod id;
pub mod io;
pub mod listpack;
pub mod map;
pub mod page_size;
pub mod record;
pub mod stream;
pub mod writer;
