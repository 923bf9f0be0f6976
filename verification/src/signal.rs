//! The flag by which a worker that found a match asks its peers to stop.
//!
//! The flag only saves work: a worker that misses it hashes one candidate
//! more and nothing else changes, so relaxed ordering is enough.

use std::sync::atomic::{AtomicBool, Ordering};
use vstd::prelude::*;

verus! {

/// Whether a peer has raised the flag. Without a flag nobody asks a worker
/// to stop.
pub(crate) fn stop_requested(flag: Option<&AtomicBool>) -> (stop: bool)
    ensures
        flag.is_none() ==> !stop,
{
    match flag {
        Some(raised) => raised.load(Ordering::Relaxed),
        None => false,
    }
}

/// Raises the flag, if there is one.
pub(crate) fn announce_match(flag: Option<&AtomicBool>) {
    match flag {
        Some(raised) => raised.store(true, Ordering::Relaxed),
        None => {},
    }
}

} // verus!
