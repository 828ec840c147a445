//! The flag by which workers tell each other to stop.

use vstd::prelude::*;
use std::sync::atomic::AtomicBool;
use std::sync::atomic::Ordering;

verus! {

/// Reads the stop flag. Another worker may set the flag at any time, so
/// nothing is known of what is read.
pub fn should_stop(stop: &AtomicBool) -> bool {
    stop.load(Ordering::Relaxed)
}

/// Sets the stop flag.
pub fn signal_stop(stop: &AtomicBool) {
    stop.store(true, Ordering::Relaxed);
}

} // verus!
