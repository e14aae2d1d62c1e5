//! Array-of-bytes (AOB) signature scanning.
//!
//! A signature is a text pattern of whitespace-separated tokens, each either a
//! one- or two-digit hexadecimal byte or a wildcard marker (`?` / `??`). The
//! scanner reports every byte offset of a buffer at which the signature
//! matches: concrete pattern positions must equal the buffer byte, wildcard
//! positions match anything. Leading and trailing wildcard tokens are trimmed
//! before scanning, and reported offsets are corrected back into the original
//! (untrimmed) pattern's coordinates.
//!
//! The crate provides a single-pass sequential scan, a partition planner that
//! splits a buffer into overlapping ranges so that a scan of each range misses
//! no match, and an aggregator that merges per-range findings into one
//! ascending, duplicate-free offset list.

pub mod aggregate;
pub mod errors;
pub mod laws;
pub mod partition;
pub mod pattern;
pub mod scan;

pub use aggregate::aggregate_offsets;
pub use errors::{CompileError, ScanError};
pub use partition::{plan_partitions, Partition};
pub use pattern::{compile_pattern, Pattern};
pub use scan::{aob_scan_multi_threaded, aob_scan_single_threaded, scan_window};
