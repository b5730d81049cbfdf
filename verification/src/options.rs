//! Configuration for the tokenizer: the sizes of the two halves of the
//! sliding window.

use vstd::prelude::*;

verus! {

/// Total window size of the default configuration, in bytes.
pub const DEFAULT_WINDOW: usize = 32 * 1024;

/// Look-ahead size of the default configuration, in bytes.
pub const DEFAULT_LOOK_AHEAD: usize = 258;

/// Sizes of the two regions every window is split into: the search buffer
/// (history that back-references may point into) and the look-ahead buffer
/// (upcoming bytes still to be matched).
pub struct PNGOptions {
    pub look_ahead_buffer: usize,
    pub search_buffer: usize,
}

impl Default for PNGOptions {
    /// The default pairing: a 32 KiB total window with a 258-byte look-ahead.
    fn default() -> (r: Self)
        ensures
            r.look_ahead_buffer == DEFAULT_LOOK_AHEAD,
            r.search_buffer == DEFAULT_WINDOW - DEFAULT_LOOK_AHEAD,
    {
        PNGOptions { look_ahead_buffer: DEFAULT_LOOK_AHEAD, search_buffer: DEFAULT_WINDOW - DEFAULT_LOOK_AHEAD }
    }
}

} // verus!
