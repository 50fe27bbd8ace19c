use vstd::prelude::*;

verus! {

/// Represents an allocation error.
///
/// Returned by `allocate` when admitting one more box would overflow the
/// byte accounting of the collector.
#[derive(Ord, PartialOrd, Eq, PartialEq, Copy, Clone, Debug)]
pub enum GcAllocErr {
    /// Signals that the garbage collector exhausted all its available memory.
    Exhausted,
}

} // verus!
