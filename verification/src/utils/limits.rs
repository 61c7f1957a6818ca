use vstd::prelude::*;

verus! {

/// Maximum dictionary entries per scope.
pub const MAX_DICT_ENTRIES: usize = 10_000_000;

/// Maximum symbol length accepted by the byte-level helpers.
pub const MAX_SYMBOL_SIZE: usize = 256;

/// Maximum ingest chunk size when streaming (8 MiB).
pub const MAX_INGEST_CHUNK: usize = 8388608;

/// Maximum concurrent frames per connection.
pub const MAX_INFLIGHT_FRAMES: usize = 128;

} // verus!
