//! The failures a scan can report. Every error is returned to the caller as a
//! value; nothing is retried or swallowed, and a failed scan yields no partial
//! result.

use vstd::prelude::*;

verus! {

/// Why a signature text failed to compile.
#[derive(Debug)]
pub enum CompileError {
    /// The pattern text holds no token at all.
    EmptyPattern,
    /// A token is neither a one- or two-digit hex byte nor `?` / `??`;
    /// the offending token is carried along.
    InvalidToken { token: String },
    /// Every token is a wildcard, so no anchor byte exists to scan for.
    AllWildcards,
}

/// Why a scan call failed as a whole.
#[derive(Debug)]
pub enum ScanError {
    /// The signature text failed to compile.
    Compile { error: CompileError },
    /// The parallel entry point was asked for fewer than two workers; the
    /// sequential entry point serves that case.
    Configuration,
    /// A worker terminated abnormally and left the shared result collector
    /// unusable; no partial result is returned in its place.
    Concurrency,
}

} // verus!
