use vstd::prelude::*;

use super::button_state::{ButtonState, PointerButton};
use super::ordering::{
    first_index, lemma_first_index, is_first_index, lemma_first_index_is, following, preceding, insert_before,
    position_of, holds, move_before,
};
use super::pointer_target::{destination_at, pointer_target, pointer_target_filter, region_models};
use super::regions::{RegionHit, RegionModel, SubProgramControl, SubProgramRegion};
use crate::subprograms::{same_optional_program, same_program, ControlId, RegionId};
use flo_scene::SubProgramId;
use std::collections::HashMap;

verus! {


/// No two region claims share an ID
pub open spec fn unique_region_ids<S>(regions: Seq<RegionModel<S>>) -> bool {
    forall|i: int, j: int| 0 <= i < regions.len() && 0 <= j < regions.len() && i != j
        ==> #[trigger] regions[i].id != #[trigger] regions[j].id
}

/// Some region claim has this ID
pub open spec fn has_region<S>(regions: Seq<RegionModel<S>>, id: RegionId) -> bool {
    exists|i: int| 0 <= i < regions.len() && #[trigger] regions[i].id == id
}

/// The position of the region claim with this ID
pub open spec fn region_index<S>(regions: Seq<RegionModel<S>>, id: RegionId) -> int {
    choose|i: int| 0 <= i < regions.len() && #[trigger] regions[i].id == id
}

/// The IDs of a region's controls, in order
pub open spec fn control_ids<S>(controls: Seq<SubProgramControl<S>>) -> Seq<ControlId> {
    controls.map_values(|c: SubProgramControl<S>| c.id)
}

/// The subprogram that receives events for a control in a region: the first control with that
/// ID routes events to its own subprogram; without one, the region's subprogram receives them
pub open spec fn event_target_of<S>(
    regions: Seq<RegionModel<S>>,
    region_id: RegionId,
    control_id: ControlId,
) -> Option<SubProgramId> {
    if has_region(regions, region_id) {
        let region = regions[region_index(regions, region_id)];
        let ids = control_ids(region.controls);
        if ids.contains(control_id) {
            Some(region.controls[first_index(ids, control_id)].event_target)
        } else {
            Some(region.event_target)
        }
    } else {
        None
    }
}

/// A claim on a region: the region's model after the claim, given its model before it
pub open spec fn claimed_region<S>(
    before: RegionModel<S>,
    event_target: SubProgramId,
    shape: S,
    control: Option<ControlId>,
    z_index: usize,
) -> RegionModel<S> {
    match control {
        Some(control) => RegionModel {
            controls: before.controls.push(
                SubProgramControl { id: control, event_target: event_target, shape: shape, z_index: z_index },
            ),
            ..before
        },
        None => RegionModel {
            event_target: event_target,
            shape: Some(shape),
            z_index: z_index,
            ..before
        },
    }
}

/// The model of a region that has just been created for a claim (no shape, no controls)
pub open spec fn new_region<S>(id: RegionId, event_target: SubProgramId) -> RegionModel<S> {
    RegionModel { id: id, event_target: event_target, shape: None, controls: Seq::empty(), z_index: 0 }
}

/// The regions after a claim
pub open spec fn regions_after_claim<S>(
    regions: Seq<RegionModel<S>>,
    region_id: RegionId,
    event_target: SubProgramId,
    shape: S,
    control: Option<ControlId>,
    z_index: usize,
) -> Seq<RegionModel<S>> {
    if has_region(regions, region_id) {
        let idx = region_index(regions, region_id);
        regions.update(idx, claimed_region(regions[idx], event_target, shape, control, z_index))
    } else {
        regions.push(claimed_region(new_region(region_id, event_target), event_target, shape, control, z_index))
    }
}

/// A region with the controls that route to `program` taken out
pub open spec fn without_program_controls<S>(region: RegionModel<S>, program: SubProgramId) -> RegionModel<S> {
    RegionModel { controls: region.controls.filter(|c: SubProgramControl<S>| c.event_target != program), ..region }
}

/// The regions once a program's claims are removed: the regions that route to it are taken out,
/// and so are the controls in other regions that route to it
pub open spec fn regions_without_program<S>(regions: Seq<RegionModel<S>>, program: SubProgramId) -> Seq<RegionModel<S>> {
    regions.filter(|r: RegionModel<S>| r.event_target != program)
        .map_values(|r: RegionModel<S>| without_program_controls(r, program))
}

/// A region with the controls that have the ID `control` taken out
pub open spec fn without_control<S>(region: RegionModel<S>, control: ControlId) -> RegionModel<S> {
    RegionModel { controls: region.controls.filter(|c: SubProgramControl<S>| c.id != control), ..region }
}

/// The keyboard orders, by region, of a table keyed by the regions' 128-bit IDs
pub open spec fn tab_view(tabs: Map<u128, Vec<ControlId>>) -> Map<RegionId, Seq<ControlId>> {
    Map::new(|r: RegionId| tabs.contains_key(r.0), |r: RegionId| tabs[r.0]@)
}

/// In a list of region claims with unique IDs, the claim at `i` is the one found by its ID
pub proof fn lemma_region_lookup<S>(regions: Seq<RegionModel<S>>, i: int)
    requires
        unique_region_ids(regions),
        0 <= i < regions.len(),
    ensures
        has_region(regions, regions[i].id),
        region_index(regions, regions[i].id) == i,
{
    let r = regions[i].id;
    assert(regions[i].id == r);
    let k = region_index(regions, r);
    if k != i {
        assert(regions[k].id != regions[i].id);
    }
}

/// The IDs of the regions that route to `program`
pub open spec fn regions_of_program<S>(regions: Seq<RegionModel<S>>, program: SubProgramId) -> Set<RegionId> {
    Set::new(|r: RegionId| exists|i: int| 0 <= i < regions.len() && #[trigger] regions[i].id == r && regions[i].event_target == program)
}

/// `region` routes some events to `program` (itself or through one of its controls)
pub open spec fn routes_to<S>(region: RegionModel<S>, program: SubProgramId) -> bool {
    region.event_target == program
        || exists|c: int| 0 <= c < region.controls.len() && #[trigger] region.controls[c].event_target == program
}

/// The subprograms that the regions route events to
pub open spec fn event_targets<S>(regions: Seq<RegionModel<S>>) -> Set<SubProgramId> {
    Set::new(|p: SubProgramId| exists|k: int| 0 <= k < regions.len() && #[trigger] routes_to(regions[k], p))
}

/// The region after `current` in the keyboard order of regions (wrapping around at the end)
pub open spec fn next_region_after(order: Seq<RegionId>, current: Option<RegionId>) -> Option<RegionId> {
    match current {
        Some(r) => following(order, r),
        None => None,
    }
}

/// The region before `current` in the keyboard order of regions (wrapping around at the start)
pub open spec fn previous_region_before(order: Seq<RegionId>, current: Option<RegionId>) -> Option<RegionId> {
    match current {
        Some(r) => preceding(order, r),
        None => None,
    }
}

/// The control that keyboard focus moves to after `control` in `region`: the next control in
/// the region's order, or, after its last control, the first control of the next region
pub open spec fn next_control_after(
    order: Seq<RegionId>,
    tabs: Map<RegionId, Seq<ControlId>>,
    region: Option<RegionId>,
    control: Option<ControlId>,
) -> Option<(RegionId, ControlId)> {
    match (region, control) {
        (Some(r), Some(c)) => if tabs.contains_key(r) && tabs[r].contains(c) {
            let pos = first_index(tabs[r], c);
            if pos + 1 >= tabs[r].len() {
                match following(order, r) {
                    Some(next) => if tabs.contains_key(next) && tabs[next].len() > 0 {
                        Some((next, tabs[next][0]))
                    } else {
                        None
                    },
                    None => None,
                }
            } else {
                Some((r, tabs[r][pos + 1]))
            }
        } else {
            None
        },
        _ => None,
    }
}

/// The control that keyboard focus moves to before `control` in `region`: the preceding control
/// in the region's order, or, before its first control, the last control of the previous region
pub open spec fn previous_control_before(
    order: Seq<RegionId>,
    tabs: Map<RegionId, Seq<ControlId>>,
    region: Option<RegionId>,
    control: Option<ControlId>,
) -> Option<(RegionId, ControlId)> {
    match (region, control) {
        (Some(r), Some(c)) => if tabs.contains_key(r) && tabs[r].contains(c) {
            let pos = first_index(tabs[r], c);
            if pos == 0 {
                match preceding(order, r) {
                    Some(prev) => if tabs.contains_key(prev) && tabs[prev].len() > 0 {
                        Some((prev, tabs[prev].last()))
                    } else {
                        None
                    },
                    None => None,
                }
            } else {
                Some((r, tabs[r][pos - 1]))
            }
        } else {
            None
        },
        _ => None,
    }
}

/// The keyboard order of a region, with a region that has none counting as empty
pub open spec fn controls_in_order(tabs: Map<RegionId, Seq<ControlId>>, region: RegionId) -> Seq<ControlId> {
    if tabs.contains_key(region) { tabs[region] } else { Seq::empty() }
}

/// The keyboard orders with an (empty) order for `region` where it has none
pub open spec fn with_order_for(tabs: Map<RegionId, Seq<ControlId>>, region: RegionId) -> Map<RegionId, Seq<ControlId>> {
    if tabs.contains_key(region) { tabs } else { tabs.insert(region, Seq::empty()) }
}

/// What a change of keyboard focus sends
pub struct KeyboardFocusChange {
    /// The subprogram that receives `Unfocused` for the control that lost focus
    pub unfocus: Option<(SubProgramId, ControlId)>,
    /// The subprogram that receives `Focused` for the control that gained focus
    pub focus: Option<(SubProgramId, ControlId)>,
}

/// Setting keyboard focus to `control` in `region`: the focused region and control afterwards,
/// and what is sent. The old focus (when both a region and a control have it) is told it lost
/// focus and is cleared; the new control gains focus when it has an event target and that
/// target could be reached (`connected`).
pub open spec fn keyboard_focus_transition<S>(
    regions: Seq<RegionModel<S>>,
    focused_region: Option<RegionId>,
    focused_control: Option<ControlId>,
    region: RegionId,
    control: ControlId,
    connected: bool,
) -> (Option<RegionId>, Option<ControlId>, KeyboardFocusChange) {
    let (cleared_region, cleared_control, unfocus) = match (focused_region, focused_control) {
        (Some(old_region), Some(old_control)) => (
            None,
            None,
            match event_target_of(regions, old_region, old_control) {
                Some(target) => Some((target, old_control)),
                None => None,
            },
        ),
        _ => (focused_region, focused_control, None),
    };
    match event_target_of(regions, region, control) {
        Some(target) => if connected {
            (Some(region), Some(control), KeyboardFocusChange { unfocus: unfocus, focus: Some((target, control)) })
        } else {
            (cleared_region, cleared_control, KeyboardFocusChange { unfocus: unfocus, focus: None })
        },
        None => (cleared_region, cleared_control, KeyboardFocusChange { unfocus: unfocus, focus: None }),
    }
}

/// Where a keyboard event goes
#[derive(Clone, Copy, Debug, PartialEq, Eq)]
pub enum KeyboardDestination {
    /// To the pointer target (while the pointer is over a subprogram, keyboard events follow it)
    PointerTarget(SubProgramId),
    /// To the subprogram that has the keyboard focus, if it is connected
    Focus,
}

/// Keyboard events go to the pointer target when there is one, else to the keyboard focus
pub open spec fn keyboard_destination(pointer_program: Option<SubProgramId>) -> KeyboardDestination {
    match pointer_program {
        Some(p) => KeyboardDestination::PointerTarget(p),
        None => KeyboardDestination::Focus,
    }
}

/// A step in moving the pointer target, run in order on the connection to the pointer target
#[derive(Clone, Copy, Debug, PartialEq, Eq)]
pub enum PointerCommand {
    /// Send `Leave` for this control (`None` for the subprogram itself), if there is a connection
    Leave(Option<ControlId>),
    /// Send `Enter` for this control (`None` for the subprogram itself), if there is a connection
    Enter(Option<ControlId>),
    /// Replace the connection with one to this subprogram (no connection if that fails)
    ConnectTo(SubProgramId),
    /// Drop the connection
    Disconnect,
}

/// Leaving the current pointer target: its control, then the subprogram if a control was
/// entered (nothing without a connection)
pub open spec fn leave_commands(connected: bool, control: Option<ControlId>) -> Seq<PointerCommand> {
    if connected {
        match control {
            Some(_) => seq![PointerCommand::Leave(control), PointerCommand::Leave(None)],
            None => seq![PointerCommand::Leave(None)],
        }
    } else {
        Seq::empty()
    }
}

/// Moving the pointer target to where the pointer is over (`target`), from `program` and
/// `control` (`connected` says whether there is a connection to `program`): the new program
/// and control, and the commands to run. Over no region the target is the canvas program,
/// and with no canvas program there is no target.
pub open spec fn pointer_transition(
    program: Option<SubProgramId>,
    control: Option<ControlId>,
    canvas: Option<SubProgramId>,
    connected: bool,
    target: (Option<SubProgramId>, Option<ControlId>),
) -> (Option<SubProgramId>, Option<ControlId>, Seq<PointerCommand>) {
    let (target_program, target_control) = target;
    let (program1, control1, commands1) = match target_program {
        Some(p) => if program == Some(p) {
            (Some(p), control, Seq::<PointerCommand>::empty())
        } else {
            (Some(p), None, leave_commands(connected, control) + seq![PointerCommand::ConnectTo(p), PointerCommand::Enter(None)])
        },
        None => match canvas {
            Some(c) => if program == Some(c) {
                (Some(c), control, Seq::<PointerCommand>::empty())
            } else {
                (
                    Some(c),
                    if connected { None } else { control },
                    leave_commands(connected, control) + seq![PointerCommand::ConnectTo(c), PointerCommand::Enter(None)],
                )
            },
            None => (None, None, leave_commands(connected, control) + seq![PointerCommand::Disconnect]),
        },
    };
    if target_control != control1 {
        let leave = match control1 {
            Some(old) => seq![PointerCommand::Leave(Some(old))],
            None => Seq::<PointerCommand>::empty(),
        };
        let enter = match target_control {
            Some(new) => seq![PointerCommand::Enter(Some(new))],
            None => Seq::<PointerCommand>::empty(),
        };
        (program1, target_control, commands1 + leave + enter)
    } else {
        (program1, control1, commands1)
    }
}

/// The destination that the pointer target filter rejects while the pointer has a target:
/// the current target itself
pub open spec fn exclusion(program: Option<SubProgramId>, control: Option<ControlId>) -> Option<(SubProgramId, Option<ControlId>)> {
    match program {
        Some(p) => Some((p, control)),
        None => None,
    }
}

/// The event for a destination that has a subprogram
pub open spec fn event_for(dest: (Option<SubProgramId>, Option<ControlId>)) -> Option<(SubProgramId, Option<ControlId>)> {
    match dest.0 {
        Some(p) => Some((p, dest.1)),
        None => None,
    }
}

/// Helps manage the state for the focus subprogram
///
/// `S` is the shape of a claimed region or control: the state carries it for whoever tests
/// where points lie, without looking inside it.
pub struct FocusProgram<S> {
    /// The program that canvas events get sent to (events that aren't for any region)
    canvas_program: Option<SubProgramId>,
    /// The claims for each focus region (one per region ID)
    region_data: Vec<SubProgramRegion<S>>,
    /// The subprogram ID of the active pointer target
    pointer_target_program: Option<SubProgramId>,
    /// The control of the active pointer target
    pointer_target_control: Option<ControlId>,
    /// State of the mouse buttons
    button_state: ButtonState,
    /// The region that currently has keyboard focus
    focused_region: Option<RegionId>,
    /// The control within the region that has keyboard focus
    focused_control: Option<ControlId>,
    /// The tab ordering for the controls within each region, keyed by the region's ID
    tab_ordering: HashMap<u128, Vec<ControlId>>,
    /// The focus order for regions
    region_order: Vec<RegionId>,
    /// The last control that we found we were hovering over
    hover: (Option<SubProgramId>, Option<ControlId>),
}

impl<S> FocusProgram<S> {
    #[verifier::type_invariant]
    spec fn one_entry_per_region(&self) -> bool {
        unique_region_ids(region_models(self.region_data@))
    }

    /// The region claims, in the order they were first made
    pub closed spec fn regions(&self) -> Seq<RegionModel<S>> {
        region_models(self.region_data@)
    }

    /// The keyboard order of the controls in each region
    pub closed spec fn tab_orders(&self) -> Map<RegionId, Seq<ControlId>> {
        tab_view(self.tab_ordering@)
    }

    /// The keyboard order of the regions
    pub closed spec fn region_order(&self) -> Seq<RegionId> {
        self.region_order@
    }

    /// Where events that are for no region go
    pub closed spec fn canvas(&self) -> Option<SubProgramId> {
        self.canvas_program
    }

    /// The subprogram that pointer events go to
    pub closed spec fn pointer_program(&self) -> Option<SubProgramId> {
        self.pointer_target_program
    }

    /// The control that pointer events go to
    pub closed spec fn pointer_control(&self) -> Option<ControlId> {
        self.pointer_target_control
    }

    /// The region with keyboard focus
    pub closed spec fn focus_region(&self) -> Option<RegionId> {
        self.focused_region
    }

    /// The control with keyboard focus
    pub closed spec fn focus_control(&self) -> Option<ControlId> {
        self.focused_control
    }

    /// The destination that the pointer was last found hovering over
    pub closed spec fn hovering(&self) -> (Option<SubProgramId>, Option<ControlId>) {
        self.hover
    }

    /// The pointer buttons that are down
    pub closed spec fn buttons_down(&self) -> Set<PointerButton> {
        self.button_state.down()
    }

    /// The keyboard focus and ordering are the same in both states
    pub open spec fn keyboard_unchanged(&self, other: Self) -> bool {
        &&& self.tab_orders() == other.tab_orders()
        &&& self.region_order() == other.region_order()
        &&& self.focus_region() == other.focus_region()
        &&& self.focus_control() == other.focus_control()
    }

    /// The pointer state is the same in both states
    pub open spec fn pointer_unchanged(&self, other: Self) -> bool {
        &&& self.canvas() == other.canvas()
        &&& self.pointer_program() == other.pointer_program()
        &&& self.pointer_control() == other.pointer_control()
        &&& self.hovering() == other.hovering()
        &&& self.buttons_down() == other.buttons_down()
    }

    /// Creates the state for a focus subprogram that nothing has claimed yet
    pub fn new() -> (state: Self)
        ensures
            state.regions() == Seq::<RegionModel<S>>::empty(),
            state.tab_orders() == Map::<RegionId, Seq<ControlId>>::empty(),
            state.region_order() == Seq::<RegionId>::empty(),
            state.canvas() is None,
            state.pointer_program() is None,
            state.pointer_control() is None,
            state.focus_region() is None,
            state.focus_control() is None,
            state.hovering() == (None::<SubProgramId>, None::<ControlId>),
            state.buttons_down() == Set::<PointerButton>::empty(),
    {
        let state = FocusProgram {
            canvas_program: None,
            region_data: Vec::new(),
            pointer_target_program: None,
            pointer_target_control: None,
            button_state: ButtonState::new(),
            focused_region: None,
            focused_control: None,
            tab_ordering: HashMap::new(),
            region_order: Vec::new(),
            hover: (None, None),
        };
        assert(state.regions() =~= Seq::<RegionModel<S>>::empty());
        assert(state.tab_orders() =~= Map::<RegionId, Seq<ControlId>>::empty());
        state
    }

    /// The region claims (for testing where a point lies)
    pub fn region_claims(&self) -> (claims: &Vec<SubProgramRegion<S>>)
        ensures
            region_models(claims@) == self.regions(),
    {
        &self.region_data
    }

    /// The region claims have one entry per region ID
    pub fn region_ids_are_unique(&self)
        ensures
            unique_region_ids(self.regions()),
    {
        proof {
            use_type_invariant(self);
        }
    }

    /// Finds the position of the claim for a region
    fn find_region(&self, region_id: RegionId) -> (idx: Option<usize>)
        ensures
            match idx {
                Some(i) => i < self.regions().len() && self.regions()[i as int].id == region_id
                    && region_index(self.regions(), region_id) == i,
                None => !has_region(self.regions(), region_id),
            },
    {
        proof {
            use_type_invariant(self);
        }
        let mut idx: usize = 0;
        while idx < self.region_data.len()
            invariant
                idx <= self.region_data.len(),
                unique_region_ids(self.regions()),
                forall|j: int| 0 <= j < idx ==> self.regions()[j].id != region_id,
            decreases self.region_data.len() - idx,
        {
            assert(self.regions()[idx as int] == self.region_data@[idx as int]@);
            if self.region_data[idx].id.0 == region_id.0 {
                proof {
                    lemma_region_lookup(self.regions(), idx as int);
                }
                return Some(idx);
            }
            idx = idx + 1;
        }
        None
    }

    /// Looks up the event_target SubProgramId for a given region/control pair
    #[verifier::loop_isolation(false)]
    pub fn find_event_target(&self, region_id: RegionId, control_id: ControlId) -> (target: Option<SubProgramId>)
        ensures
            target == event_target_of(self.regions(), region_id, control_id),
    {
        match self.find_region(region_id) {
            None => None,
            Some(idx) => {
                let region = &self.region_data[idx];
                assert(self.regions()[idx as int] == region@);
                let ghost ids = control_ids(region.controls@);
                let mut j: usize = 0;
                while j < region.controls.len()
                    invariant
                        ids == control_ids(region.controls@),
                        j <= region.controls.len(),
                        forall|k: int| 0 <= k < j ==> ids[k] != control_id,
                    decreases region.controls.len() - j,
                {
                    if region.controls[j].id.0 == control_id.0 {
                        proof {
                            assert(ids[j as int] == control_id);
                            assert(is_first_index(ids, control_id, j as int));
                            lemma_first_index_is(ids, control_id, j as int);
                            assert(ids.contains(control_id));
                        }
                        return Some(region.controls[j].event_target);
                    }
                    j = j + 1;
                }
                Some(region.event_target)
            },
        }
    }

    /// Marks a region as belonging to a certain subprogram (`control` is `None`), or claims a control
    /// within it (`control` is the control's ID). Returns the subprogram to greet when the claim
    /// created the region.
    pub fn claim_region(
        &mut self,
        region_id: RegionId,
        event_target: SubProgramId,
        shape: S,
        control: Option<ControlId>,
        z_index: usize,
    ) -> (greet: Option<SubProgramId>)
        ensures
            final(self).regions() == regions_after_claim(old(self).regions(), region_id, event_target, shape, control, z_index),
            greet == (if has_region(old(self).regions(), region_id) { None } else { Some(event_target) }),
            unique_region_ids(final(self).regions()),
            final(self).keyboard_unchanged(*old(self)),
            final(self).pointer_unchanged(*old(self)),
    {
        proof {
            use_type_invariant(&*self);
        }
        let ghost before = self.regions();
        let found = self.find_region(region_id);
        let mut data: Vec<SubProgramRegion<S>> = Vec::new();
        std::mem::swap(&mut data, &mut self.region_data);
        assert(region_models(data@) == before);
        let (idx, greet) = match found {
            Some(i) => (i, None),
            None => {
                let fresh = SubProgramRegion {
                    id: region_id,
                    event_target: event_target,
                    shape: None,
                    controls: Vec::new(),
                    z_index: 0,
                };
                proof {
                    assert(fresh@ == new_region::<S>(region_id, event_target));
                    assert(region_models(data@.push(fresh)) =~= before.push(fresh@));
                    assert forall|i: int, j: int| 0 <= i < before.len() + 1 && 0 <= j < before.len() + 1 && i != j
                        implies #[trigger] before.push(fresh@)[i].id != #[trigger] before.push(fresh@)[j].id by {
                        if i < before.len() && j < before.len() {
                            assert(before[i].id != before[j].id);
                        } else if i < before.len() {
                            assert(before[i].id == before.push(fresh@)[i].id);
                        } else {
                            assert(before[j].id == before.push(fresh@)[j].id);
                        }
                    }
                }
                data.push(fresh);
                (data.len() - 1, Some(event_target))
            },
        };
        let ghost with_region = region_models(data@);
        let ghost initial = data@;
        let mut region = data.remove(idx);
        assert(with_region[idx as int] == region@);
        match control {
            Some(control) => {
                region.controls.push(
                    SubProgramControl { id: control, event_target: event_target, shape: shape, z_index: z_index },
                );
            },
            None => {
                region.event_target = event_target;
                region.shape = Some(shape);
                region.z_index = z_index;
            },
        }
        proof {
            assert(initial.remove(idx as int).insert(idx as int, region) =~= initial.update(idx as int, region));
            assert(region_models(initial.update(idx as int, region)) =~= with_region.update(idx as int, region@));
            assert(region@ == claimed_region(with_region[idx as int], event_target, shape, control, z_index));
            let after = with_region.update(idx as int, region@);
            assert forall|i: int, j: int| 0 <= i < after.len() && 0 <= j < after.len() && i != j
                implies #[trigger] after[i].id != #[trigger] after[j].id by {
                assert(with_region[i].id != with_region[j].id);
            }
            if has_region(before, region_id) {
                assert(with_region == before);
            } else {
                lemma_region_lookup(with_region, idx as int);
            }
        }
        data.insert(idx, region);
        self.region_data = data;
        greet
    }

    /// Removes all claims for the specified region
    pub fn remove_region_claims(&mut self, region_id: RegionId)
        ensures
            final(self).regions() == (if has_region(old(self).regions(), region_id) {
                old(self).regions().remove(region_index(old(self).regions(), region_id))
            } else {
                old(self).regions()
            }),
            !has_region(final(self).regions(), region_id),
            unique_region_ids(final(self).regions()),
            final(self).keyboard_unchanged(*old(self)),
            final(self).pointer_unchanged(*old(self)),
    {
        proof {
            use_type_invariant(&*self);
        }
        if let Some(idx) = self.find_region(region_id) {
            let ghost before = self.regions();
            let ghost data = self.region_data@;
            let mut taken: Vec<SubProgramRegion<S>> = Vec::new();
            std::mem::swap(&mut taken, &mut self.region_data);
            proof {
                assert(region_models(data.remove(idx as int)) =~= before.remove(idx as int));
                let after = before.remove(idx as int);
                assert forall|i: int| 0 <= i < after.len() implies #[trigger] after[i].id != region_id by {
                    if i < idx {
                        assert(before[i].id != before[idx as int].id);
                    } else {
                        assert(before[i + 1].id != before[idx as int].id);
                    }
                }
                assert forall|i: int, j: int| 0 <= i < after.len() && 0 <= j < after.len() && i != j
                    implies #[trigger] after[i].id != #[trigger] after[j].id by {
                    let bi = if i < idx { i } else { i + 1 };
                    let bj = if j < idx { j } else { j + 1 };
                    assert(before[bi].id != before[bj].id);
                }
            }
            taken.remove(idx);
            self.region_data = taken;
        }
    }

    /// Removes the claims that match the specified control in a region
    pub fn remove_control_claims(&mut self, region_id: RegionId, control: ControlId)
        ensures
            final(self).regions() == (if has_region(old(self).regions(), region_id) {
                let idx = region_index(old(self).regions(), region_id);
                old(self).regions().update(idx, without_control(old(self).regions()[idx], control))
            } else {
                old(self).regions()
            }),
            unique_region_ids(final(self).regions()),
            final(self).keyboard_unchanged(*old(self)),
            final(self).pointer_unchanged(*old(self)),
    {
        proof {
            use_type_invariant(&*self);
        }
        if let Some(idx) = self.find_region(region_id) {
            let ghost before = self.regions();
            let ghost data = self.region_data@;
            let mut taken: Vec<SubProgramRegion<S>> = Vec::new();
            std::mem::swap(&mut taken, &mut self.region_data);
            let mut region = taken.remove(idx);
            assert(before[idx as int] == region@);
            let mut controls: Vec<SubProgramControl<S>> = Vec::new();
            std::mem::swap(&mut controls, &mut region.controls);
            region.controls = keep_controls_without_id(controls, control);
            proof {
                assert(region@ == without_control(before[idx as int], control));
                assert(data.remove(idx as int).insert(idx as int, region) =~= data.update(idx as int, region));
                assert(region_models(data.update(idx as int, region)) =~= before.update(idx as int, region@));
                let after = before.update(idx as int, region@);
                assert forall|i: int, j: int| 0 <= i < after.len() && 0 <= j < after.len() && i != j
                    implies #[trigger] after[i].id != #[trigger] after[j].id by {
                    assert(before[i].id != before[j].id);
                }
            }
            taken.insert(idx, region);
            self.region_data = taken;
        }
    }

    /// Removes all claims that belong to the specified program (called when the program stops):
    /// the regions that route to it, and the controls in other regions that route to it
    pub fn remove_program_claims(&mut self, program: SubProgramId)
        ensures
            final(self).regions() == regions_without_program(old(self).regions(), program),
            unique_region_ids(final(self).regions()),
            final(self).keyboard_unchanged(*old(self)),
            final(self).pointer_unchanged(*old(self)),
    {
        proof {
            use_type_invariant(&*self);
        }
        let ghost before = self.regions();
        let mut rest: Vec<SubProgramRegion<S>> = Vec::new();
        std::mem::swap(&mut rest, &mut self.region_data);
        let total = rest.len();
        let ghost initial = rest@;
        assert(region_models(initial) == before);
        let mut kept: Vec<SubProgramRegion<S>> = Vec::new();
        let mut k: usize = 0;
        while rest.len() > 0
            invariant
                region_models(initial) == before,
                unique_region_ids(before),
                initial.len() == total,
                k <= total,
                rest@ == initial.skip(k as int),
                rest@.len() == total - k,
                region_models(kept@) == before.take(k as int).filter(|r: RegionModel<S>| r.event_target != program)
                    .map_values(|r: RegionModel<S>| without_program_controls(r, program)),
                unique_region_ids(region_models(kept@)),
                forall|a: int| #![trigger kept@[a]] 0 <= a < kept@.len() ==> exists|b: int| 0 <= b < k && #[trigger] before[b].id == kept@[a].id,
            decreases rest.len(),
        {
            let mut region = rest.remove(0);
            let ghost kept_before = kept@;
            proof {
                reveal(Seq::filter);
                assert(initial.skip(k as int)[0] == region);
                assert(before[k as int] == region@);
                assert(before.take(k + 1).drop_last() =~= before.take(k as int));
                assert(before.take(k + 1).last() == region@);
                assert(initial.skip(k + 1) =~= initial.skip(k as int).remove(0));
            }
            if !same_program(&region.event_target, &program) {
                let mut controls: Vec<SubProgramControl<S>> = Vec::new();
                std::mem::swap(&mut controls, &mut region.controls);
                region.controls = keep_controls_without_program(controls, program);
                proof {
                    let p = |r: RegionModel<S>| r.event_target != program;
                    let f = |r: RegionModel<S>| without_program_controls(r, program);
                    assert(region@ == f(before[k as int]));
                    assert(before.take(k + 1).filter(p) == before.take(k as int).filter(p).push(before[k as int]));
                    assert(before.take(k as int).filter(p).push(before[k as int]).map_values(f)
                        =~= before.take(k as int).filter(p).map_values(f).push(f(before[k as int])));
                    assert(region_models(kept@.push(region)) =~= region_models(kept@).push(region@));
                    let after = region_models(kept@.push(region));
                    assert forall|a: int, b: int| 0 <= a < after.len() && 0 <= b < after.len() && a != b
                        implies #[trigger] after[a].id != #[trigger] after[b].id by {
                        if a < kept@.len() && b < kept@.len() {
                            assert(region_models(kept@)[a].id != region_models(kept@)[b].id);
                        } else if a < kept@.len() {
                            assert(after[a].id == kept@[a].id);
                            let c = choose|c: int| 0 <= c < k && #[trigger] before[c].id == kept@[a].id;
                            assert(before[c].id != before[k as int].id);
                        } else {
                            assert(after[b].id == kept@[b].id);
                            let c = choose|c: int| 0 <= c < k && #[trigger] before[c].id == kept@[b].id;
                            assert(before[c].id != before[k as int].id);
                        }
                    }
                }
                kept.push(region);
                proof {
                    assert forall|a: int| #![trigger kept@[a]] 0 <= a < kept@.len() implies exists|b: int| 0 <= b < k + 1 && #[trigger] before[b].id == kept@[a].id by {
                        if a < kept_before.len() {
                            assert(kept@[a] == kept_before[a]);
                            let c = choose|c: int| 0 <= c < k && #[trigger] before[c].id == kept_before[a].id;
                            assert(before[c].id == kept@[a].id);
                        } else {
                            assert(before[k as int].id == kept@[a].id);
                        }
                    }
                }
            } else {
                proof {
                    assert forall|a: int| #![trigger kept@[a]] 0 <= a < kept@.len() implies exists|b: int| 0 <= b < k + 1 && #[trigger] before[b].id == kept@[a].id by {
                        let c = choose|c: int| 0 <= c < k && #[trigger] before[c].id == kept@[a].id;
                        assert(before[c].id == kept@[a].id);
                    }
                }
            }
            k = k + 1;
        }
        assert(before.take(total as int) =~= before);
        self.region_data = kept;
    }

    /// Forgets a program that has stopped: the keyboard focus tracking for the regions that route
    /// to it is removed (while those regions are still known), then all of its claims
    pub fn remove_stopped_program(&mut self, program: SubProgramId)
        ensures
            final(self).regions() == regions_without_program(old(self).regions(), program),
            final(self).tab_orders() == old(self).tab_orders().remove_keys(regions_of_program(old(self).regions(), program)),
            final(self).region_order() == old(self).region_order()
                .filter(|r: RegionId| !regions_of_program(old(self).regions(), program).contains(r)),
            final(self).focus_region() == old(self).focus_region(),
            final(self).focus_control() == old(self).focus_control(),
            final(self).pointer_unchanged(*old(self)),
    {
        self.remove_program_focus(program);
        self.remove_program_claims(program);
    }

    /// Removes all keyboard focus tracking for the regions that route to the specified program
    pub fn remove_program_focus(&mut self, program: SubProgramId)
        ensures
            final(self).tab_orders() == old(self).tab_orders().remove_keys(regions_of_program(old(self).regions(), program)),
            final(self).region_order() == old(self).region_order()
                .filter(|r: RegionId| !regions_of_program(old(self).regions(), program).contains(r)),
            final(self).regions() == old(self).regions(),
            final(self).focus_region() == old(self).focus_region(),
            final(self).focus_control() == old(self).focus_control(),
            final(self).pointer_unchanged(*old(self)),
    {
        proof {
            use_type_invariant(&*self);
        }
        let ghost removed = regions_of_program(self.regions(), program);
        let ghost models = self.regions();

        // Find all regions whose event_target matches this program
        let mut ids: Vec<RegionId> = Vec::new();
        let mut i: usize = 0;
        while i < self.region_data.len()
            invariant
                models == self.regions(),
                i <= self.region_data.len(),
                forall|r: RegionId| #[trigger] ids@.contains(r) <==> exists|j: int|
                    0 <= j < i && #[trigger] models[j].id == r && models[j].event_target == program,
            decreases self.region_data.len() - i,
        {
            let region = &self.region_data[i];
            assert(models[i as int] == region@);
            if same_program(&region.event_target, &program) {
                proof {
                    assert forall|r: RegionId| #[trigger] ids@.push(region.id).contains(r) <==> exists|j: int|
                        0 <= j < i + 1 && #[trigger] models[j].id == r && models[j].event_target == program by {
                        let ext = exists|j: int| 0 <= j < i + 1 && #[trigger] models[j].id == r && models[j].event_target == program;
                        if r == region.id {
                            assert(ids@.push(region.id)[ids@.len() as int] == r);
                            assert(models[i as int].id == r && models[i as int].event_target == program);
                            assert(ext);
                        } else {
                            if ids@.push(region.id).contains(r) {
                                let x = choose|x: int| 0 <= x < ids@.len() + 1 && ids@.push(region.id)[x] == r;
                                assert(x < ids@.len());
                                assert(ids@[x] == r);
                                assert(ids@.contains(r));
                                let j = choose|j: int| 0 <= j < i && #[trigger] models[j].id == r && models[j].event_target == program;
                                assert(ext);
                            }
                            if ext {
                                let j = choose|j: int| 0 <= j < i + 1 && #[trigger] models[j].id == r && models[j].event_target == program;
                                assert(j < i);
                                assert(ids@.contains(r));
                                let x = choose|x: int| 0 <= x < ids@.len() && ids@[x] == r;
                                assert(ids@.push(region.id)[x] == r);
                                assert(ids@.push(region.id).contains(r));
                            }
                        }
                    }
                }
                ids.push(region.id);
            } else {
                proof {
                    assert forall|r: RegionId| #[trigger] ids@.contains(r) <==> exists|j: int|
                        0 <= j < i + 1 && #[trigger] models[j].id == r && models[j].event_target == program by {
                        if exists|j: int| 0 <= j < i + 1 && #[trigger] models[j].id == r && models[j].event_target == program {
                            let j = choose|j: int| 0 <= j < i + 1 && #[trigger] models[j].id == r && models[j].event_target == program;
                            assert(j != i);
                        }
                    }
                }
            }
            i = i + 1;
        }
        assert forall|r: RegionId| #[trigger] ids@.contains(r) <==> removed.contains(r) by {
            if removed.contains(r) {
                let j = choose|j: int| 0 <= j < models.len() && #[trigger] models[j].id == r && models[j].event_target == program;
                assert(models[j].id == r);
            }
        }

        // Take these regions out of the region order
        let ghost order = self.region_order@;
        let mut new_order: Vec<RegionId> = Vec::new();
        let mut k: usize = 0;
        while k < self.region_order.len()
            invariant
                order == self.region_order@,
                k <= order.len(),
                forall|r: RegionId| #[trigger] ids@.contains(r) <==> removed.contains(r),
                new_order@ == order.take(k as int).filter(|r: RegionId| !removed.contains(r)),
            decreases order.len() - k,
        {
            let r = self.region_order[k];
            proof {
                reveal(Seq::filter);
                assert(order.take(k + 1).drop_last() =~= order.take(k as int));
                assert(order.take(k + 1).last() == r);
            }
            if !super::ordering::holds(&ids, &r) {
                new_order.push(r);
            }
            k = k + 1;
        }
        assert(order.take(order.len() as int) =~= order);
        self.region_order = new_order;

        // Take these regions out of the keyboard orders
        let ghost tabs_before = tab_view(self.tab_ordering@);
        let mut tabs: HashMap<u128, Vec<ControlId>> = HashMap::new();
        std::mem::swap(&mut tabs, &mut self.tab_ordering);
        assert(tab_view(tabs@) == tabs_before);
        let mut k: usize = 0;
        while k < ids.len()
            invariant
                k <= ids.len(),
                forall|r: RegionId| #[trigger] ids@.contains(r) <==> removed.contains(r),
                forall|r: RegionId| #[trigger] tab_view(tabs@).contains_key(r)
                    <==> tabs_before.contains_key(r) && !ids@.take(k as int).contains(r),
                forall|r: RegionId| #[trigger] tab_view(tabs@).contains_key(r) ==> tab_view(tabs@)[r] == tabs_before[r],
            decreases ids.len() - k,
        {
            let id = ids[k];
            let ghost tabs_step = tab_view(tabs@);
            tab_take(&mut tabs, id);
            proof {
                let seen = ids@.take(k as int);
                assert(ids@.take(k + 1) =~= seen.push(id));
                assert forall|r: RegionId| #[trigger] seen.push(id).contains(r) <==> seen.contains(r) || r == id by {
                    if seen.push(id).contains(r) && r != id {
                        let x = choose|x: int| 0 <= x < seen.len() + 1 && seen.push(id)[x] == r;
                        assert(x < seen.len() && seen[x] == r);
                    }
                    if seen.contains(r) {
                        let x = choose|x: int| 0 <= x < seen.len() && seen[x] == r;
                        assert(seen.push(id)[x] == r);
                    }
                    if r == id {
                        assert(seen.push(id)[seen.len() as int] == r);
                    }
                }
                assert(tab_view(tabs@) == tabs_step.remove(id));
            }
            k = k + 1;
        }
        proof {
            assert(ids@.take(ids@.len() as int) =~= ids@);
            assert(tab_view(tabs@) =~= tabs_before.remove_keys(removed));
        }
        self.tab_ordering = tabs;
    }

    /// Every subprogram that some region or control routes events to, each listed once
    pub fn all_event_targets(&self) -> (targets: Vec<SubProgramId>)
        ensures
            targets@.no_duplicates(),
            targets@.to_set() == event_targets(self.regions()),
    {
        let ghost models = self.regions();
        let mut targets: Vec<SubProgramId> = Vec::new();
        let mut i: usize = 0;
        while i < self.region_data.len()
            invariant
                models == self.regions(),
                i <= self.region_data.len(),
                targets@.no_duplicates(),
                forall|p: SubProgramId| #[trigger] targets@.contains(p) <==> exists|k: int| 0 <= k < i && #[trigger] routes_to(models[k], p),
            decreases self.region_data.len() - i,
        {
            let region = &self.region_data[i];
            assert(models[i as int] == region@);
            add_program(&mut targets, region.event_target);
            let mut j: usize = 0;
            while j < region.controls.len()
                invariant
                    models == self.regions(),
                    i < self.region_data.len(),
                    models[i as int] == region@,
                    j <= region.controls.len(),
                    targets@.no_duplicates(),
                    forall|p: SubProgramId| #[trigger] targets@.contains(p) <==> (
                        (exists|k: int| 0 <= k < i && #[trigger] routes_to(models[k], p))
                        || region.event_target == p
                        || exists|c: int| 0 <= c < j && #[trigger] region.controls@[c].event_target == p),
                decreases region.controls.len() - j,
            {
                add_program(&mut targets, region.controls[j].event_target);
                j = j + 1;
            }
            proof {
                assert forall|p: SubProgramId| #[trigger] targets@.contains(p) <==> exists|k: int| 0 <= k < i + 1 && #[trigger] routes_to(models[k], p) by {
                    if targets@.contains(p) {
                        if exists|k: int| 0 <= k < i && #[trigger] routes_to(models[k], p) {
                            let k = choose|k: int| 0 <= k < i && #[trigger] routes_to(models[k], p);
                            assert(routes_to(models[k], p));
                        } else if region.event_target == p {
                            assert(routes_to(models[i as int], p));
                        } else {
                            let c = choose|c: int| 0 <= c < j && #[trigger] region.controls@[c].event_target == p;
                            assert(models[i as int].controls[c].event_target == p);
                            assert(routes_to(models[i as int], p));
                        }
                    }
                    if exists|k: int| 0 <= k < i + 1 && #[trigger] routes_to(models[k], p) {
                        let k = choose|k: int| 0 <= k < i + 1 && #[trigger] routes_to(models[k], p);
                        if k == i {
                            if region.event_target != p {
                                let c = choose|c: int| 0 <= c < models[k].controls.len() && #[trigger] models[k].controls[c].event_target == p;
                                assert(region.controls@[c].event_target == p);
                            }
                        }
                    }
                }
            }
            i = i + 1;
        }
        proof {
            assert forall|p: SubProgramId| #[trigger] targets@.to_set().contains(p) <==> event_targets(models).contains(p) by {
                if exists|k: int| 0 <= k < models.len() && #[trigger] routes_to(models[k], p) {
                    let k = choose|k: int| 0 <= k < models.len() && #[trigger] routes_to(models[k], p);
                    assert(routes_to(models[k], p));
                }
            }
            assert(targets@.to_set() =~= event_targets(models));
        }
        targets
    }

    /// Sets the following control for keyboard focus within a region (moving `control_id` so it
    /// comes just before `next_control_id`, which is added at the end if it has no place yet)
    pub fn set_following_control(&mut self, region_id: RegionId, control_id: ControlId, next_control_id: ControlId)
        ensures
            final(self).region_order() == (if old(self).region_order().contains(region_id) {
                old(self).region_order()
            } else {
                old(self).region_order().push(region_id)
            }),
            final(self).tab_orders() == old(self).tab_orders().insert(
                region_id,
                insert_before(controls_in_order(old(self).tab_orders(), region_id), control_id, next_control_id),
            ),
            final(self).regions() == old(self).regions(),
            final(self).focus_region() == old(self).focus_region(),
            final(self).focus_control() == old(self).focus_control(),
            final(self).pointer_unchanged(*old(self)),
    {
        proof {
            use_type_invariant(&*self);
        }
        // Ensure the region is in the ordering
        if !holds(&self.region_order, &region_id) {
            let mut order: Vec<RegionId> = Vec::new();
            std::mem::swap(&mut order, &mut self.region_order);
            order.push(region_id);
            self.region_order = order;
        }

        let mut tabs: HashMap<u128, Vec<ControlId>> = HashMap::new();
        std::mem::swap(&mut tabs, &mut self.tab_ordering);
        let ghost before = tab_view(tabs@);
        let mut order = tab_take(&mut tabs, region_id);
        move_before(&mut order, control_id, next_control_id);
        tab_put(&mut tabs, region_id, order);
        proof {
            assert(before.remove(region_id).insert(region_id, order@) =~= before.insert(region_id, order@));
        }
        self.tab_ordering = tabs;
    }

    /// Sets the following region for keyboard focus (moving `region_id` so it comes just before
    /// `next_region_id`, which is added at the end if it has no place yet)
    pub fn set_following_region(&mut self, region_id: RegionId, next_region_id: RegionId)
        ensures
            final(self).tab_orders() == with_order_for(with_order_for(old(self).tab_orders(), region_id), next_region_id),
            final(self).region_order() == insert_before(old(self).region_order(), region_id, next_region_id),
            final(self).regions() == old(self).regions(),
            final(self).focus_region() == old(self).focus_region(),
            final(self).focus_control() == old(self).focus_control(),
            final(self).pointer_unchanged(*old(self)),
    {
        proof {
            use_type_invariant(&*self);
        }
        // Ensure that the control order exists for the regions
        let mut tabs: HashMap<u128, Vec<ControlId>> = HashMap::new();
        std::mem::swap(&mut tabs, &mut self.tab_ordering);
        ensure_tab(&mut tabs, region_id);
        ensure_tab(&mut tabs, next_region_id);
        self.tab_ordering = tabs;

        // Move region_id before next_region_id
        let mut order: Vec<RegionId> = Vec::new();
        std::mem::swap(&mut order, &mut self.region_order);
        move_before(&mut order, region_id, next_region_id);
        self.region_order = order;
    }

    /// Figures out the following region ID in focus order
    pub fn next_region(&self, current_region: Option<RegionId>) -> (next: Option<RegionId>)
        ensures
            next == next_region_after(self.region_order(), current_region),
    {
        let current_region = match current_region {
            Some(r) => r,
            None => {
                return None;
            },
        };
        match position_of(&self.region_order, &current_region) {
            None => None,
            Some(idx) => {
                proof {
                    lemma_first_index_is(self.region_order@, current_region, idx as int);
                }
                assert(idx < self.region_order.len());
                let next_idx = if idx + 1 >= self.region_order.len() { 0 } else { idx + 1 };
                Some(self.region_order[next_idx])
            },
        }
    }

    /// Figures out the previous region ID in focus order
    pub fn previous_region(&self, current_region: Option<RegionId>) -> (previous: Option<RegionId>)
        ensures
            previous == previous_region_before(self.region_order(), current_region),
    {
        let current_region = match current_region {
            Some(r) => r,
            None => {
                return None;
            },
        };
        match position_of(&self.region_order, &current_region) {
            None => None,
            Some(idx) => {
                proof {
                    lemma_first_index_is(self.region_order@, current_region, idx as int);
                }
                let previous_idx = if idx == 0 { self.region_order.len() - 1 } else { idx - 1 };
                Some(self.region_order[previous_idx])
            },
        }
    }

    /// Figures out the following control in keyboard focus order
    pub fn next_control(&self, current_region: Option<RegionId>, current_control: Option<ControlId>) -> (next: Option<(RegionId, ControlId)>)
        ensures
            next == next_control_after(self.region_order(), self.tab_orders(), current_region, current_control),
    {
        proof {
            use_type_invariant(self);
        }
        let (region, control) = match (current_region, current_control) {
            (Some(r), Some(c)) => (r, c),
            _ => {
                return None;
            },
        };
        let order = match tab_lookup(&self.tab_ordering, region) {
            Some(o) => o,
            None => {
                return None;
            },
        };
        let pos = match position_of(order, &control) {
            Some(pos) => pos,
            None => {
                return None;
            },
        };
        proof {
            lemma_first_index_is(order@, control, pos as int);
        }
        assert(pos < order.len());
        if pos + 1 >= order.len() {
            // Loop to the first control of the next region
            let next_region = match self.next_region(Some(region)) {
                Some(r) => r,
                None => {
                    return None;
                },
            };
            let next_order = match tab_lookup(&self.tab_ordering, next_region) {
            Some(o) => o,
            None => {
                return None;
            },
        };
            if next_order.len() == 0 {
                None
            } else {
                Some((next_region, next_order[0]))
            }
        } else {
            Some((region, order[pos + 1]))
        }
    }

    /// Figures out the preceding control in keyboard focus order
    pub fn previous_control(&self, current_region: Option<RegionId>, current_control: Option<ControlId>) -> (previous: Option<(RegionId, ControlId)>)
        ensures
            previous == previous_control_before(self.region_order(), self.tab_orders(), current_region, current_control),
    {
        proof {
            use_type_invariant(self);
        }
        let (region, control) = match (current_region, current_control) {
            (Some(r), Some(c)) => (r, c),
            _ => {
                return None;
            },
        };
        let order = match tab_lookup(&self.tab_ordering, region) {
            Some(o) => o,
            None => {
                return None;
            },
        };
        let pos = match position_of(order, &control) {
            Some(pos) => pos,
            None => {
                return None;
            },
        };
        proof {
            lemma_first_index_is(order@, control, pos as int);
        }
        if pos == 0 {
            // Return the last control of the previous region
            let previous_region = match self.previous_region(Some(region)) {
                Some(r) => r,
                None => {
                    return None;
                },
            };
            let previous_order = match tab_lookup(&self.tab_ordering, previous_region) {
            Some(o) => o,
            None => {
                return None;
            },
        };
            if previous_order.len() == 0 {
                None
            } else {
                Some((previous_region, previous_order[previous_order.len() - 1]))
            }
        } else {
            Some((region, order[pos - 1]))
        }
    }

    /// Sets keyboard focus to a specific region/control. `connected` says whether the subprogram
    /// that receives the control's events (`find_event_target`) could be reached.
    pub fn set_keyboard_focus(&mut self, region_id: RegionId, control_id: ControlId, connected: bool) -> (change: KeyboardFocusChange)
        ensures
            (final(self).focus_region(), final(self).focus_control(), change) == keyboard_focus_transition(
                old(self).regions(), old(self).focus_region(), old(self).focus_control(), region_id, control_id, connected),
            final(self).regions() == old(self).regions(),
            final(self).tab_orders() == old(self).tab_orders(),
            final(self).region_order() == old(self).region_order(),
            final(self).pointer_unchanged(*old(self)),
    {
        proof {
            use_type_invariant(&*self);
        }
        // Unfocus the existing region/control
        let mut unfocus = None;
        if let (Some(old_region_id), Some(old_control_id)) = (self.focused_region, self.focused_control) {
            if let Some(old_event_target) = self.find_event_target(old_region_id, old_control_id) {
                unfocus = Some((old_event_target, old_control_id));
            }
            self.focused_region = None;
            self.focused_control = None;
        }

        // Update the focused region/control and inform the relevant event target
        let mut focus = None;
        if let Some(event_target) = self.find_event_target(region_id, control_id) {
            if connected {
                self.focused_region = Some(region_id);
                self.focused_control = Some(control_id);
                focus = Some((event_target, control_id));
            }
        }
        KeyboardFocusChange { unfocus: unfocus, focus: focus }
    }

    /// Focuses the next control in keyboard order (nothing happens when there is none).
    /// `connected` says whether the subprogram that receives the next control's events
    /// (`next_focus_target`) could be reached.
    pub fn focus_next(&mut self, connected: bool) -> (change: Option<KeyboardFocusChange>)
        ensures
            match next_control_after(old(self).region_order(), old(self).tab_orders(), old(self).focus_region(), old(self).focus_control()) {
                Some((region, control)) => {
                    &&& change is Some
                    &&& (final(self).focus_region(), final(self).focus_control(), change->0) == keyboard_focus_transition(
                        old(self).regions(), old(self).focus_region(), old(self).focus_control(), region, control, connected)
                },
                None => change is None && final(self).focus_region() == old(self).focus_region()
                    && final(self).focus_control() == old(self).focus_control(),
            },
            final(self).regions() == old(self).regions(),
            final(self).tab_orders() == old(self).tab_orders(),
            final(self).region_order() == old(self).region_order(),
            final(self).pointer_unchanged(*old(self)),
    {
        match self.next_control(self.focused_region, self.focused_control) {
            Some((region, control)) => Some(self.set_keyboard_focus(region, control, connected)),
            None => None,
        }
    }

    /// Focuses the previous control in keyboard order (nothing happens when there is none).
    /// `connected` says whether the subprogram that receives the previous control's events
    /// (`previous_focus_target`) could be reached.
    pub fn focus_previous(&mut self, connected: bool) -> (change: Option<KeyboardFocusChange>)
        ensures
            match previous_control_before(old(self).region_order(), old(self).tab_orders(), old(self).focus_region(), old(self).focus_control()) {
                Some((region, control)) => {
                    &&& change is Some
                    &&& (final(self).focus_region(), final(self).focus_control(), change->0) == keyboard_focus_transition(
                        old(self).regions(), old(self).focus_region(), old(self).focus_control(), region, control, connected)
                },
                None => change is None && final(self).focus_region() == old(self).focus_region()
                    && final(self).focus_control() == old(self).focus_control(),
            },
            final(self).regions() == old(self).regions(),
            final(self).tab_orders() == old(self).tab_orders(),
            final(self).region_order() == old(self).region_order(),
            final(self).pointer_unchanged(*old(self)),
    {
        match self.previous_control(self.focused_region, self.focused_control) {
            Some((region, control)) => Some(self.set_keyboard_focus(region, control, connected)),
            None => None,
        }
    }

    /// The subprogram that `focus_next` would focus a control in
    pub fn next_focus_target(&self) -> (target: Option<SubProgramId>)
        ensures
            target == match next_control_after(self.region_order(), self.tab_orders(), self.focus_region(), self.focus_control()) {
                Some((region, control)) => event_target_of(self.regions(), region, control),
                None => None,
            },
    {
        match self.next_control(self.focused_region, self.focused_control) {
            Some((region, control)) => self.find_event_target(region, control),
            None => None,
        }
    }

    /// The subprogram that `focus_previous` would focus a control in
    pub fn previous_focus_target(&self) -> (target: Option<SubProgramId>)
        ensures
            target == match previous_control_before(self.region_order(), self.tab_orders(), self.focus_region(), self.focus_control()) {
                Some((region, control)) => event_target_of(self.regions(), region, control),
                None => None,
            },
    {
        match self.previous_control(self.focused_region, self.focused_control) {
            Some((region, control)) => self.find_event_target(region, control),
            None => None,
        }
    }

    /// Sets the target of pointer events, according to where the pointer is (`hits`, see
    /// `pointer_target_filter`). `connected` says whether there is a connection to the current
    /// pointer target. Returns the commands to run, in order, on that connection. Nothing
    /// changes while a button is down (the target is locked by the press).
    pub fn set_pointer_target(&mut self, hits: &Option<Vec<RegionHit>>, connected: bool) -> (commands: Vec<PointerCommand>)
        ensures
            if old(self).buttons_down().len() > 0 {
                &&& commands@ == Seq::<PointerCommand>::empty()
                &&& final(self).pointer_program() == old(self).pointer_program()
                &&& final(self).pointer_control() == old(self).pointer_control()
            } else {
                (final(self).pointer_program(), final(self).pointer_control(), commands@) == pointer_transition(
                    old(self).pointer_program(), old(self).pointer_control(), old(self).canvas(), connected,
                    destination_at(old(self).regions(), *hits, None))
            },
            final(self).regions() == old(self).regions(),
            final(self).keyboard_unchanged(*old(self)),
            final(self).canvas() == old(self).canvas(),
            final(self).hovering() == old(self).hovering(),
            final(self).buttons_down() == old(self).buttons_down(),
    {
        proof {
            use_type_invariant(&*self);
        }
        // Do nothing if the pointer target is locked (usually by a mouse down operation)
        if self.button_state.num_buttons_down() > 0 {
            return Vec::new();
        }

        // Locate the subprogram that the pointer is over
        let (target_program, target_control) = pointer_target(&self.region_data, hits);
        let old_control = self.pointer_target_control;
        let mut commands: Vec<PointerCommand> = Vec::new();

        match target_program {
            Some(target) => {
                // Over a specific region
                if !same_optional_program(&self.pointer_target_program, &Some(target)) {
                    leave_target(&mut commands, connected, old_control);
                    commands.push(PointerCommand::ConnectTo(target));
                    commands.push(PointerCommand::Enter(None));
                    self.pointer_target_control = None;
                }
                self.pointer_target_program = Some(target);
            },
            None => {
                match self.canvas_program {
                    Some(canvas) => {
                        // Over the canvas
                        if !same_optional_program(&self.pointer_target_program, &Some(canvas)) {
                            leave_target(&mut commands, connected, old_control);
                            if connected {
                                self.pointer_target_control = None;
                            }
                            commands.push(PointerCommand::ConnectTo(canvas));
                            commands.push(PointerCommand::Enter(None));
                        }
                        self.pointer_target_program = Some(canvas);
                    },
                    None => {
                        // No canvas program set
                        leave_target(&mut commands, connected, old_control);
                        commands.push(PointerCommand::Disconnect);
                        self.pointer_target_program = None;
                        self.pointer_target_control = None;
                    },
                }
            },
        }

        let same_control = match (target_control, self.pointer_target_control) {
            (Some(a), Some(b)) => a.0 == b.0,
            (None, None) => true,
            _ => false,
        };
        if !same_control {
            if let Some(old) = self.pointer_target_control {
                commands.push(PointerCommand::Leave(Some(old)));
            }
            self.pointer_target_control = target_control;
            if let Some(new) = target_control {
                commands.push(PointerCommand::Enter(Some(new)));
            }
        }
        commands
    }

    /// Updates the hover destination: where the pointer is, leaving out the current pointer
    /// target. Returns the hover event to send to the pointer target when the destination
    /// changed to one with a subprogram. Hovering only happens while a button is held down.
    pub fn send_hover(&mut self, hits: &Option<Vec<RegionHit>>) -> (hover_event: Option<(SubProgramId, Option<ControlId>)>)
        ensures
            if old(self).buttons_down().len() == 0 {
                &&& final(self).hovering() == (None::<SubProgramId>, None::<ControlId>)
                &&& hover_event is None
            } else {
                let dest = destination_at(old(self).regions(), *hits, exclusion(old(self).pointer_program(), old(self).pointer_control()));
                &&& final(self).hovering() == dest
                &&& hover_event == (if old(self).hovering() != dest { event_for(dest) } else { None })
            },
            final(self).regions() == old(self).regions(),
            final(self).keyboard_unchanged(*old(self)),
            final(self).canvas() == old(self).canvas(),
            final(self).pointer_program() == old(self).pointer_program(),
            final(self).pointer_control() == old(self).pointer_control(),
            final(self).buttons_down() == old(self).buttons_down(),
    {
        proof {
            use_type_invariant(&*self);
        }
        // 'Hovering' only happens when a mouse button is held down
        if self.button_state.num_buttons_down() == 0 {
            self.hover = (None, None);
            return None;
        }

        // Locate the subprogram that the pointer is over
        let exclude = match self.pointer_target_program {
            Some(p) => Some((p, self.pointer_target_control)),
            None => None,
        };
        let (hover_program, hover_control) = pointer_target_filter(&self.region_data, hits, &exclude);

        let same_control = match (hover_control, self.hover.1) {
            (Some(a), Some(b)) => a.0 == b.0,
            (None, None) => true,
            _ => false,
        };
        if !(same_optional_program(&self.hover.0, &hover_program) && same_control) {
            // Replace the hover control
            self.hover = (hover_program, hover_control);
            match hover_program {
                Some(p) => Some((p, hover_control)),
                None => None,
            }
        } else {
            None
        }
    }

    /// The drop destination: where the pointer is, leaving out the current pointer target.
    /// Returns the drop event for the pointer target, when the destination has a subprogram.
    /// Releasing the pointer buttons does not send it (see `release_buttons`).
    pub fn send_drop(&self, hits: &Option<Vec<RegionHit>>) -> (drop_event: Option<(SubProgramId, Option<ControlId>)>)
        ensures
            drop_event == event_for(destination_at(self.regions(), *hits, exclusion(self.pointer_program(), self.pointer_control()))),
    {
        let exclude = match self.pointer_target_program {
            Some(p) => Some((p, self.pointer_target_control)),
            None => None,
        };
        let (drop_program, drop_control) = pointer_target_filter(&self.region_data, hits, &exclude);
        match drop_program {
            Some(p) => Some((p, drop_control)),
            None => None,
        }
    }

    /// Where a keyboard event goes, and the control it is addressed to (the focused control)
    pub fn send_to_focus(&self) -> (destination: (KeyboardDestination, Option<ControlId>))
        ensures
            destination == (keyboard_destination(self.pointer_program()), self.focus_control()),
    {
        let control = self.focused_control;
        match self.pointer_target_program {
            Some(p) => (KeyboardDestination::PointerTarget(p), control),
            None => (KeyboardDestination::Focus, control),
        }
    }

    /// The pointer buttons are released (`pressed_buttons` are the ones still down). The pointer
    /// target is sent a `ButtonUp` addressed to the returned control, and nothing else: releasing
    /// the buttons sends no drop, wherever the pointer is, and the pointer target stays as it was
    /// until the pointer next moves.
    pub fn release_buttons(&mut self, pressed_buttons: &Vec<PointerButton>) -> (button_up: Option<ControlId>)
        ensures
            button_up == old(self).pointer_control(),
            final(self).buttons_down() == pressed_buttons@.to_set(),
            final(self).regions() == old(self).regions(),
            final(self).keyboard_unchanged(*old(self)),
            final(self).canvas() == old(self).canvas(),
            final(self).pointer_program() == old(self).pointer_program(),
            final(self).pointer_control() == old(self).pointer_control(),
            final(self).hovering() == old(self).hovering(),
    {
        self.set_buttons(pressed_buttons);
        self.pointer_target_control
    }

    /// Updates the buttons that are down
    pub fn set_buttons(&mut self, pressed_buttons: &Vec<PointerButton>)
        ensures
            final(self).buttons_down() == pressed_buttons@.to_set(),
            final(self).regions() == old(self).regions(),
            final(self).keyboard_unchanged(*old(self)),
            final(self).canvas() == old(self).canvas(),
            final(self).pointer_program() == old(self).pointer_program(),
            final(self).pointer_control() == old(self).pointer_control(),
            final(self).hovering() == old(self).hovering(),
    {
        proof {
            use_type_invariant(&*self);
        }
        let mut buttons = ButtonState::new();
        std::mem::swap(&mut buttons, &mut self.button_state);
        buttons.set_buttons(pressed_buttons);
        self.button_state = buttons;
    }

    /// Number of pointer buttons that are down
    pub fn num_buttons_down(&self) -> (count: usize)
        ensures
            count == self.buttons_down().len(),
    {
        self.button_state.num_buttons_down()
    }

    /// The program that canvas events get sent to
    pub fn canvas_program(&self) -> (canvas: Option<SubProgramId>)
        ensures
            canvas == self.canvas(),
    {
        self.canvas_program
    }

    /// The subprogram that pointer events go to (keyboard events also go there while it is set)
    pub fn pointer_target_program(&self) -> (program: Option<SubProgramId>)
        ensures
            program == self.pointer_program(),
    {
        self.pointer_target_program
    }

    /// The control that pointer events go to
    pub fn pointer_target_control(&self) -> (control: Option<ControlId>)
        ensures
            control == self.pointer_control(),
    {
        self.pointer_target_control
    }

    /// The region that has keyboard focus
    pub fn focused_region(&self) -> (region: Option<RegionId>)
        ensures
            region == self.focus_region(),
    {
        self.focused_region
    }

    /// The control that has keyboard focus
    pub fn focused_control(&self) -> (control: Option<ControlId>)
        ensures
            control == self.focus_control(),
    {
        self.focused_control
    }

    /// Sets the program where mouse events go if there's no region defined
    pub fn set_canvas(&mut self, canvas_program: SubProgramId)
        ensures
            final(self).canvas() == Some(canvas_program),
            final(self).regions() == old(self).regions(),
            final(self).tab_orders() == old(self).tab_orders(),
            final(self).region_order() == old(self).region_order(),
            final(self).pointer_program() == old(self).pointer_program(),
            final(self).pointer_control() == old(self).pointer_control(),
            final(self).focus_region() == old(self).focus_region(),
            final(self).focus_control() == old(self).focus_control(),
            final(self).hovering() == old(self).hovering(),
            final(self).buttons_down() == old(self).buttons_down(),
    {
        proof {
            use_type_invariant(&*self);
        }
        self.canvas_program = Some(canvas_program);
    }
}

/// The controls, in order, with the ones that have the ID `control` taken out
fn keep_controls_without_id<S>(controls: Vec<SubProgramControl<S>>, control: ControlId) -> (kept: Vec<SubProgramControl<S>>)
    ensures
        kept@ == controls@.filter(|c: SubProgramControl<S>| c.id != control),
{
    let ghost initial = controls@;
    let total = controls.len();
    let mut rest = controls;
    let mut kept: Vec<SubProgramControl<S>> = Vec::new();
    let mut k: usize = 0;
    while rest.len() > 0
        invariant
            k <= initial.len(),
            rest@ == initial.skip(k as int),
            rest@.len() == initial.len() - k,
            initial.len() == total,
            kept@ == initial.take(k as int).filter(|c: SubProgramControl<S>| c.id != control),
        decreases rest.len(),
    {
        let item = rest.remove(0);
        proof {
            reveal(Seq::filter);
            assert(initial.take(k + 1).drop_last() =~= initial.take(k as int));
            assert(initial.take(k + 1).last() == item);
            assert(initial.skip(k + 1) =~= initial.skip(k as int).remove(0));
        }
        if item.id.0 != control.0 {
            kept.push(item);
        }
        k = k + 1;
    }
    assert(initial.take(initial.len() as int) =~= initial);
    kept
}

/// The controls, in order, with the ones that route to `program` taken out
fn keep_controls_without_program<S>(controls: Vec<SubProgramControl<S>>, program: SubProgramId) -> (kept: Vec<SubProgramControl<S>>)
    ensures
        kept@ == controls@.filter(|c: SubProgramControl<S>| c.event_target != program),
{
    let ghost initial = controls@;
    let total = controls.len();
    let mut rest = controls;
    let mut kept: Vec<SubProgramControl<S>> = Vec::new();
    let mut k: usize = 0;
    while rest.len() > 0
        invariant
            k <= initial.len(),
            rest@ == initial.skip(k as int),
            rest@.len() == initial.len() - k,
            initial.len() == total,
            kept@ == initial.take(k as int).filter(|c: SubProgramControl<S>| c.event_target != program),
        decreases rest.len(),
    {
        let item = rest.remove(0);
        proof {
            reveal(Seq::filter);
            assert(initial.take(k + 1).drop_last() =~= initial.take(k as int));
            assert(initial.take(k + 1).last() == item);
            assert(initial.skip(k + 1) =~= initial.skip(k as int).remove(0));
        }
        if !same_program(&item.event_target, &program) {
            kept.push(item);
        }
        k = k + 1;
    }
    assert(initial.take(initial.len() as int) =~= initial);
    kept
}

/// Adds `program` to a list that holds each subprogram once
fn add_program(programs: &mut Vec<SubProgramId>, program: SubProgramId)
    requires
        old(programs)@.no_duplicates(),
    ensures
        final(programs)@.no_duplicates(),
        forall|p: SubProgramId| #[trigger] final(programs)@.contains(p) <==> (old(programs)@.contains(p) || p == program),
{
    let mut idx: usize = 0;
    while idx < programs.len()
        invariant
            idx <= programs.len(),
            programs@ == old(programs)@,
            programs@.no_duplicates(),
            forall|j: int| 0 <= j < idx ==> programs@[j] != program,
        decreases programs.len() - idx,
    {
        if same_program(&programs[idx], &program) {
            assert(programs@[idx as int] == program);
            return;
        }
        idx = idx + 1;
    }
    let ghost before = programs@;
    programs.push(program);
    proof {
        assert forall|p: SubProgramId| #[trigger] programs@.contains(p) <==> (before.contains(p) || p == program) by {
            if programs@.contains(p) && p != program {
                let x = choose|x: int| 0 <= x < programs@.len() && programs@[x] == p;
                assert(before[x] == p);
            }
            if before.contains(p) {
                let x = choose|x: int| 0 <= x < before.len() && before[x] == p;
                assert(programs@[x] == p);
            }
            if p == program {
                assert(programs@[before.len() as int] == p);
            }
        }
    }
}

/// The keyboard order of a region, if it has one
fn tab_lookup(tabs: &HashMap<u128, Vec<ControlId>>, region: RegionId) -> (order: Option<&Vec<ControlId>>)
    ensures
        match order {
            Some(o) => tab_view(tabs@).contains_key(region) && o@ == tab_view(tabs@)[region],
            None => !tab_view(tabs@).contains_key(region),
        },
{
    broadcast use vstd::std_specs::hash::group_hash_axioms;
    tabs.get(&region.0)
}

/// Takes the keyboard order of a region out of the table (an empty order where it has none)
fn tab_take(tabs: &mut HashMap<u128, Vec<ControlId>>, region: RegionId) -> (order: Vec<ControlId>)
    ensures
        order@ == controls_in_order(tab_view(old(tabs)@), region),
        tab_view(final(tabs)@) == tab_view(old(tabs)@).remove(region),
{
    broadcast use vstd::std_specs::hash::group_hash_axioms;
    let order = match tabs.remove(&region.0) {
        Some(order) => order,
        None => Vec::new(),
    };
    assert(tab_view(tabs@) =~= tab_view(old(tabs)@).remove(region));
    order
}

/// Sets the keyboard order of a region
fn tab_put(tabs: &mut HashMap<u128, Vec<ControlId>>, region: RegionId, order: Vec<ControlId>)
    ensures
        tab_view(final(tabs)@) == tab_view(old(tabs)@).insert(region, order@),
{
    broadcast use vstd::std_specs::hash::group_hash_axioms;
    let ghost value = order@;
    tabs.insert(region.0, order);
    assert(tab_view(tabs@) =~= tab_view(old(tabs)@).insert(region, value));
}

/// Adds an empty keyboard order for a region that has none
fn ensure_tab(tabs: &mut HashMap<u128, Vec<ControlId>>, region: RegionId)
    ensures
        tab_view(final(tabs)@) == with_order_for(tab_view(old(tabs)@), region),
{
    broadcast use vstd::std_specs::hash::group_hash_axioms;
    if !tabs.contains_key(&region.0) {
        tabs.insert(region.0, Vec::new());
        assert(tab_view(tabs@) =~= tab_view(old(tabs)@).insert(region, Seq::empty()));
    }
}

/// Adds the commands that leave the current pointer target
fn leave_target(commands: &mut Vec<PointerCommand>, connected: bool, control: Option<ControlId>)
    ensures
        final(commands)@ == old(commands)@ + leave_commands(connected, control),
{
    if connected {
        commands.push(PointerCommand::Leave(control));
        if control.is_some() {
            commands.push(PointerCommand::Leave(None));
        }
    }
    assert(final(commands)@ =~= old(commands)@ + leave_commands(connected, control));
}

} // verus!
