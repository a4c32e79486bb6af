//! A minimal key-value write path: a mutable in-memory table (`MemBlock`)
//! that accumulates byte-string pairs, an encoder that flushes it into an
//! immutable, offset-indexed sorted-string-table byte buffer, and a reader
//! (`SST`) that answers structural queries and point lookups directly
//! against that buffer.

pub mod bytes;
pub mod format;
pub mod memblock;
pub mod sst;

pub use crate::memblock::MemBlock;
pub use crate::sst::SST;
