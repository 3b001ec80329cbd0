use vstd::prelude::*;

verus! {

/// Tuning knobs of a store.
pub struct DBParams {
    /// Create the directory on open when it does not exist.
    pub create_if_missing: bool,
    /// Estimated size of the in-memory buffer, in bytes, at which it is frozen.
    pub write_buffer_size: usize,
    /// Maximum number of generation readers kept open.
    pub cache_size: usize,
}

/// Default freeze threshold of the in-memory buffer, in bytes.
pub const DEFAULT_WRITE_BUFFER_SIZE: usize = 8192;

/// Default number of cached generation readers.
pub const DEFAULT_CACHE_SIZE: usize = 64;

impl DBParams {
    /// Returns parameters with default values.
    pub fn new() -> (p: DBParams)
        ensures
            p.create_if_missing,
            p.write_buffer_size == DEFAULT_WRITE_BUFFER_SIZE,
            p.cache_size == DEFAULT_CACHE_SIZE,
    {
        DBParams {
            create_if_missing: true,
            write_buffer_size: DEFAULT_WRITE_BUFFER_SIZE,
            cache_size: DEFAULT_CACHE_SIZE,
        }
    }
}

} // verus!
