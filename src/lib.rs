//! An embedded, log-structured key-value store.
//!
//! Writes go to an in-memory buffer that is frozen into a single hand-off slot
//! once it grows past a threshold; a background worker turns the frozen buffer
//! into an immutable on-disk generation (an index file and a data file) and
//! advances the metadata counter.
//!
//! This crate holds the verified core: the buffers, the generation file format,
//! the reader cache and the engine's state machine. The threads and files live
//! in the application around it.
pub mod cache;
pub mod engine;
pub mod errors;
pub mod memtable;
pub mod params;
pub mod table;

pub use cache::LRUCache;
pub use engine::Engine;
pub use errors::{Error, Result};
pub use memtable::{MemTable, MemValue};
pub use params::DBParams;
pub use table::{IndexValue, Table, TableBuilder};
