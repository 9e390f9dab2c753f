use vstd::prelude::*;

use super::program_id::{is_random_uuid, new_unique_id};

verus! {

/// Identifier used to specify a region within the Focus program
#[derive(Clone, Copy, Debug, PartialEq, Eq, Structural, Hash, PartialOrd, Ord)]
pub struct RegionId(pub u128);

impl RegionId {
    /// Creates a unique new region ID
    pub fn new() -> (id: RegionId)
        ensures
            is_random_uuid(id.0),
    {
        RegionId(new_unique_id())
    }

}

} // verus!
