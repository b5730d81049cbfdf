//! An LZSS tokenizer: scans a byte sequence through a bounded sliding window
//! and emits literal bytes or back-references to earlier, identical byte runs,
//! together with the decoder that expands a token sequence back into bytes.

pub mod lzss;
pub mod options;
pub mod search;
pub mod sliding_window;
