//! What can go wrong inside the storage core.
use vstd::prelude::*;

verus! {

/// Why an operation of the storage core was refused.
#[derive(Clone, Copy, Debug, PartialEq, Eq, Structural)]
pub enum StoreError {
    /// Bytes read back from a segment or from the log are malformed.
    Corruption,
    /// A counter that must keep growing, the log's sequence number or the
    /// segment identifier, has reached the largest value it can take.
    Exhausted,
}

} // verus!
