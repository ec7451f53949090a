//! What can go wrong in the store.

use vstd::prelude::*;

verus! {

/// Why a store operation was refused. A refused operation leaves the store
/// as it was.
#[derive(Clone, Copy, Debug, PartialEq, Eq, Structural)]
pub enum StoreError {
    /// The index names no task of the list.
    IndexOutOfRange,
    /// A line of two fields whose completion flag is neither `true` nor
    /// `false`.
    MalformedFlag,
}

} // verus!
