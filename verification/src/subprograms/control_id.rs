use vstd::prelude::*;

use super::program_id::{is_random_uuid, new_unique_id};

verus! {

/// Identifier used to specify a control within a region of the Focus program
#[derive(Clone, Copy, Debug, PartialEq, Eq, Structural, Hash, PartialOrd, Ord)]
pub struct ControlId(pub u128);

impl ControlId {
    /// Creates a unique new control ID
    pub fn new() -> (id: ControlId)
        ensures
            is_random_uuid(id.0),
    {
        ControlId(new_unique_id())
    }

}

} // verus!
