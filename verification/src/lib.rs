//! Markdown rendering of structured content: a text leaf, a pipe table, and
//! the byte-streak analysis that keeps rendered text fence-safe.
//!
//! Every element renders itself into a byte buffer. Putting that buffer on a
//! file or a socket is left to the caller.

pub mod markdown;
