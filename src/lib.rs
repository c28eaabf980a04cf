//! A simulated RAID-2 array: bits striped over data disks, with Hamming
//! parity for every completed layer kept on parity disks.
use vstd::prelude::*;

pub mod data;
pub mod disk;
pub mod hamming;
pub mod raid;

verus! {

/// Why an operation on the array failed.
#[derive(Clone, Copy, Debug, PartialEq, Eq, Structural)]
pub enum RaidError {
    /// A write would not fit in the array.
    CapacityExceeded,
    /// A read asked for a position that has not been written.
    OutOfRange,
    /// A layer was asked for before every disk held a bit in it.
    LayerIncomplete,
}

impl RaidError {
    /// A short description of the failure.
    pub fn message(&self) -> (r: &'static str)
        ensures
            *self == RaidError::CapacityExceeded ==> r@ == "Not enough space"@,
            *self == RaidError::OutOfRange ==> r@ == "Index was too big."@,
            *self == RaidError::LayerIncomplete ==> r@ == "Layer is not full"@,
    {
        proof {
            reveal_strlit("Not enough space");
            reveal_strlit("Index was too big.");
            reveal_strlit("Layer is not full");
        }
        match self {
            RaidError::CapacityExceeded => "Not enough space",
            RaidError::OutOfRange => "Index was too big.",
            RaidError::LayerIncomplete => "Layer is not full",
        }
    }
}

} // verus!
