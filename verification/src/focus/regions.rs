use vstd::prelude::*;

use crate::subprograms::{ControlId, RegionId};
use flo_scene::SubProgramId;

verus! {

/// A control within a region, claimed by a subprogram
///
/// `S` is the shape of the control, which the focus state carries without looking inside it
pub struct SubProgramControl<S> {
    pub id: ControlId,
    pub event_target: SubProgramId,
    pub shape: S,
    pub z_index: usize,
}

/// A region of the canvas where a subprogram owns the events
pub struct SubProgramRegion<S> {
    pub id: RegionId,
    pub event_target: SubProgramId,
    /// The shape of the region itself (`None` while only controls have been claimed in it)
    pub shape: Option<S>,
    pub controls: Vec<SubProgramControl<S>>,
    pub z_index: usize,
}

/// What a region claim holds, as a mathematical value
pub ghost struct RegionModel<S> {
    pub id: RegionId,
    pub event_target: SubProgramId,
    pub shape: Option<S>,
    pub controls: Seq<SubProgramControl<S>>,
    pub z_index: usize,
}

impl<S> View for SubProgramRegion<S> {
    type V = RegionModel<S>;

    open spec fn view(&self) -> RegionModel<S> {
        RegionModel {
            id: self.id,
            event_target: self.event_target,
            shape: self.shape,
            controls: self.controls@,
            z_index: self.z_index,
        }
    }
}

/// Where a point lies relative to one region: inside the region's own shape, and inside
/// each of its controls (in the order of the region's controls)
#[derive(Clone, Debug)]
pub struct RegionHit {
    pub in_shape: bool,
    pub in_controls: Vec<bool>,
}

/// The point is inside some control of the region
pub open spec fn hits_a_control(hit: RegionHit) -> bool {
    exists|j: int| 0 <= j < hit.in_controls@.len() && hit.in_controls@[j]
}

/// The point is inside the region: inside its own shape or inside one of its controls
pub open spec fn hits_region(hit: RegionHit) -> bool {
    hit.in_shape || hits_a_control(hit)
}

impl RegionHit {
    /// Returns true if the point is inside this region (its own shape or one of its controls)
    pub fn point_is_inside(&self) -> (inside: bool)
        ensures
            inside == hits_region(*self),
    {
        if self.in_shape {
            return true;
        }
        let mut idx: usize = 0;
        while idx < self.in_controls.len()
            invariant
                idx <= self.in_controls.len(),
                forall|j: int| 0 <= j < idx ==> !self.in_controls@[j],
            decreases self.in_controls.len() - idx,
        {
            if self.in_controls[idx] {
                return true;
            }
            idx = idx + 1;
        }
        false
    }
}

} // verus!
