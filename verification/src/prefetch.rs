//! Asking for an element to be brought into the cache before it is written.

use vstd::prelude::*;

verus! {

/// Whether [`prefetch_write_data`] has any effect.
pub const SUPPORTED: bool = false;

/// Tells the processor that `item` is about to be written. Nothing is done
/// here, and nothing depends on it: where the processor is told, the only
/// effect is on speed.
pub fn prefetch_write_data<T>(item: &T) {
}

} // verus!
