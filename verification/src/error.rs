//! Why a build or a decode was given up.

use vstd::prelude::*;

verus! {

/// The failures of a build or a decode. After any of them the builder is
/// not to be used for anything but a new build or decode.
#[derive(Clone, Copy, Debug, PartialEq, Eq, Structural)]
pub enum TopDagError {
    /// A node other than the root of the input carries the label that is
    /// reserved for the synthetic root.
    ReservedLabelCollision,
    /// The records, labels or rounds are more than a `usize` can number.
    CapacityExceeded,
    /// The flat form does not describe a cluster table.
    CorruptDecode,
    /// A round in which every candidate was tried merged nothing, and the
    /// tree has not collapsed.
    NoProgress,
}

} // verus!
