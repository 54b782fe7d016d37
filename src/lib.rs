//! An in-memory, append-only message store with named streams grouped into
//! categories, optimistic concurrency control on writes, and two read paths:
//! replay of one stream and paginated replay of a whole category.

pub mod memory_stream_store;
pub mod stream;

pub use crate::memory_stream_store::index::LogPositionIndex;
pub use crate::memory_stream_store::store::MemoryStreamStore;
pub use crate::stream::{
    Message, MessagePosition, ReadDirection, ReadFromCategory, ReadFromStream, Stream,
    StreamMessage, StreamVersion, WriteResult, WriteToStream,
};
