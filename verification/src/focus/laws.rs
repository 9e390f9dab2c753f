use vstd::prelude::*;

use super::focus_state::{
    controls_in_order, event_target_of, has_region, next_control_after, pointer_transition, keyboard_focus_transition, event_for,
    previous_control_before, region_index, regions_after_claim, unique_region_ids, control_ids, routes_to,
    without_program_controls, regions_without_program, PointerCommand,
};
use super::ordering::{
    first_index, following, insert_before, lemma_first_index, lemma_first_index_is,
    lemma_first_index_no_duplicates, preceding, without, is_first_index,
};
use super::regions::{RegionModel, RegionHit, SubProgramControl};
use super::pointer_target::{destination_at, is_destination, is_topmost, local_target, lemma_destination_unique};
use crate::subprograms::{ControlId, RegionId};
use flo_scene::SubProgramId;

verus! {

/// After `insert_before(s, item, next)` with `item != next`, `item` occurs once, just before `next`
pub proof fn lemma_insert_before_places_item<T>(s: Seq<T>, item: T, next: T)
    requires
        item != next,
    ensures
        insert_before(s, item, next).contains(item),
        first_index(insert_before(s, item, next), item) + 1 < insert_before(s, item, next).len(),
        insert_before(s, item, next)[first_index(insert_before(s, item, next), item) + 1] == next,
{
    broadcast use vstd::seq_lib::group_filter_ensures;
    let rest = without(s, item);
    let result = insert_before(s, item, next);
    assert forall|k: int| 0 <= k < rest.len() implies #[trigger] rest[k] != item by {
        s.lemma_filter_pred(|y: T| y != item, k);
    }
    if rest.contains(next) {
        lemma_first_index(rest, next);
        let p = first_index(rest, next);
        assert(result == rest.insert(p, item));
        assert(result[p] == item);
        assert(result[p + 1] == rest[p]);
        assert forall|j: int| 0 <= j < p implies result[j] != item by {
            assert(result[j] == rest[j]);
        }
        assert(is_first_index(result, item, p));
        lemma_first_index_is(result, item, p);
    } else {
        let p = rest.len() as int;
        assert(result == rest.push(item).push(next));
        assert(result[p] == item);
        assert(result[p + 1] == next);
        assert forall|j: int| 0 <= j < p implies result[j] != item by {
            assert(result[j] == rest[j]);
        }
        assert(is_first_index(result, item, p));
        lemma_first_index_is(result, item, p);
    }
}

/// Setting the control that follows `control` in a region makes keyboard focus move from
/// `control` straight to `next_control`
pub proof fn law_following_control_comes_next(
    order: Seq<RegionId>,
    tabs: Map<RegionId, Seq<ControlId>>,
    region: RegionId,
    control: ControlId,
    next_control: ControlId,
)
    requires
        control != next_control,
    ensures
        next_control_after(
            order,
            tabs.insert(region, insert_before(controls_in_order(tabs, region), control, next_control)),
            Some(region),
            Some(control),
        ) == Some((region, next_control)),
{
    lemma_insert_before_places_item(controls_in_order(tabs, region), control, next_control);
}

/// Setting the region that follows `region` makes keyboard focus move from the last control
/// of `region` to the first control of `next_region`
pub proof fn law_following_region_comes_next(order: Seq<RegionId>, region: RegionId, next_region: RegionId)
    requires
        region != next_region,
    ensures
        following(insert_before(order, region, next_region), region) == Some(next_region),
{
    lemma_insert_before_places_item(order, region, next_region);
}

/// Within a region with no repeated controls, moving to the previous control undoes moving to the
/// next one, when the regions are ordered without repeats and the next region's controls have none
pub proof fn law_previous_undoes_next(
    order: Seq<RegionId>,
    tabs: Map<RegionId, Seq<ControlId>>,
    region: RegionId,
    control: ControlId,
)
    requires
        order.no_duplicates(),
        forall|r: RegionId| #[trigger] tabs.contains_key(r) ==> tabs[r].no_duplicates(),
        next_control_after(order, tabs, Some(region), Some(control)) is Some,
    ensures
        ({
            let (next_region, next) = next_control_after(order, tabs, Some(region), Some(control))->0;
            previous_control_before(order, tabs, Some(next_region), Some(next)) == Some((region, control))
        }),
{
    let s = tabs[region];
    lemma_first_index(s, control);
    let pos = first_index(s, control);
    if pos + 1 >= s.len() {
        lemma_first_index(order, region);
        let i = first_index(order, region);
        let ni = if i + 1 >= order.len() { 0 } else { i + 1 };
        let next_region = order[ni];
        let t = tabs[next_region];
        assert(t[0] == t[0]);
        assert(t.contains(t[0]));
        lemma_first_index_no_duplicates(t, 0);
        assert(order.contains(next_region));
        lemma_first_index_no_duplicates(order, ni);
        assert(preceding(order, next_region) == Some(region));
        assert(s.last() == control);
    } else {
        let next = s[pos + 1];
        assert(s.contains(next));
        lemma_first_index_no_duplicates(s, pos + 1);
        assert(first_index(s, next) == pos + 1);
    }
}

/// Within a region with no repeated controls, moving to the next control undoes moving to the
/// previous one, when the regions are ordered without repeats and the previous region's controls have none
pub proof fn law_next_undoes_previous(
    order: Seq<RegionId>,
    tabs: Map<RegionId, Seq<ControlId>>,
    region: RegionId,
    control: ControlId,
)
    requires
        order.no_duplicates(),
        forall|r: RegionId| #[trigger] tabs.contains_key(r) ==> tabs[r].no_duplicates(),
        previous_control_before(order, tabs, Some(region), Some(control)) is Some,
    ensures
        ({
            let (previous_region, previous) = previous_control_before(order, tabs, Some(region), Some(control))->0;
            next_control_after(order, tabs, Some(previous_region), Some(previous)) == Some((region, control))
        }),
{
    let s = tabs[region];
    lemma_first_index(s, control);
    let pos = first_index(s, control);
    if pos == 0 {
        lemma_first_index(order, region);
        let i = first_index(order, region);
        let pi = if i == 0 { order.len() - 1 } else { i - 1 };
        let previous_region = order[pi];
        let t = tabs[previous_region];
        let last = t.len() - 1;
        assert(t[last] == t.last());
        assert(t.contains(t.last()));
        lemma_first_index_no_duplicates(t, last);
        assert(order.contains(previous_region));
        lemma_first_index_no_duplicates(order, pi);
        assert(following(order, previous_region) == Some(region));
        assert(s[0] == control);
    } else {
        let previous = s[pos - 1];
        assert(s.contains(previous));
        lemma_first_index_no_duplicates(s, pos - 1);
    }
}

/// With one region in the keyboard order, keyboard focus cycles through its controls: the
/// control after the last one is the first one
pub proof fn law_focus_cycles_within_region(region: RegionId, controls: Seq<ControlId>, i: int)
    requires
        controls.no_duplicates(),
        0 <= i < controls.len(),
    ensures
        next_control_after(seq![region], map![region => controls], Some(region), Some(controls[i]))
            == Some((region, controls[(i + 1) % (controls.len() as int)])),
        previous_control_before(seq![region], map![region => controls], Some(region), Some(controls[i]))
            == Some((region, controls[(i + controls.len() - 1) % (controls.len() as int)])),
{
    let order = seq![region];
    assert(controls.contains(controls[i]));
    lemma_first_index_no_duplicates(controls, i);
    assert(order[0] == region);
    assert(order.contains(region));
    lemma_first_index_is(order, region, 0);
    let n = controls.len() as int;
    if i + 1 < n {
        assert((i + 1) % n == i + 1) by (nonlinear_arith)
            requires 0 <= i + 1 < n;
    } else {
        assert((i + 1) % n == 0) by (nonlinear_arith)
            requires i + 1 == n, n > 0;
    }
    if i > 0 {
        assert((i + n - 1) % n == i - 1) by (nonlinear_arith)
            requires 0 < i < n;
    } else {
        assert((i + n - 1) % n == n - 1) by (nonlinear_arith)
            requires i == 0, n > 0;
    }
}

/// Claiming a region (with `control` as `None`) or a control in it routes that control's events
/// to the claiming subprogram, as long as no control with the same ID was claimed in the
/// region before
pub proof fn law_claim_routes_to_claimant<S>(
    regions: Seq<RegionModel<S>>,
    region_id: RegionId,
    event_target: SubProgramId,
    shape: S,
    control: Option<ControlId>,
    z_index: usize,
    control_id: ControlId,
)
    requires
        unique_region_ids(regions),
        control is Some ==> control == Some(control_id),
        has_region(regions, region_id) ==> !control_ids(regions[region_index(regions, region_id)].controls).contains(control_id),
    ensures
        event_target_of(
            regions_after_claim(regions, region_id, event_target, shape, control, z_index),
            region_id,
            control_id,
        ) == Some(event_target),
{
    let after = regions_after_claim(regions, region_id, event_target, shape, control, z_index);
    let idx = if has_region(regions, region_id) { region_index(regions, region_id) } else { regions.len() as int };
    assert(after[idx].id == region_id);
    assert forall|a: int, b: int| 0 <= a < after.len() && 0 <= b < after.len() && a != b
        implies #[trigger] after[a].id != #[trigger] after[b].id by {
        if a < regions.len() && b < regions.len() {
            assert(regions[a].id != regions[b].id);
        } else if a < regions.len() {
            assert(after[a].id == regions[a].id);
            assert(!has_region(regions, region_id) ==> regions[a].id != region_id);
        } else {
            assert(after[b].id == regions[b].id);
            assert(!has_region(regions, region_id) ==> regions[b].id != region_id);
        }
    }
    let k = region_index(after, region_id);
    assert(after[k].id == region_id);
    if k != idx {
        assert(after[k].id != after[idx].id);
    }
    let before_controls = if has_region(regions, region_id) { regions[idx].controls } else { Seq::<SubProgramControl<S>>::empty() };
    let ids = control_ids(after[idx].controls);
    match control {
        Some(c) => {
            let n = before_controls.len() as int;
            assert(after[idx].controls == before_controls.push(
                SubProgramControl { id: c, event_target: event_target, shape: shape, z_index: z_index }));
            assert(ids[n] == control_id);
            assert(ids.contains(control_id));
            assert forall|j: int| 0 <= j < n implies ids[j] != control_id by {
                assert(control_ids(before_controls)[j] == ids[j]);
                if has_region(regions, region_id) {
                    assert(!control_ids(before_controls).contains(control_id));
                }
            }
            assert(is_first_index(ids, control_id, n));
            lemma_first_index_is(ids, control_id, n);
        },
        None => {
            assert(after[idx].controls == before_controls);
            if ids.contains(control_id) {
                let j = choose|j: int| 0 <= j < ids.len() && ids[j] == control_id;
                assert(control_ids(before_controls)[j] == control_id);
                assert(has_region(regions, region_id));
            }
        },
    }
}

/// Once a program's claims are removed, no region routes events to it
pub proof fn law_removed_program_gets_no_events<S>(regions: Seq<RegionModel<S>>, program: SubProgramId)
    ensures
        forall|k: int| 0 <= k < regions_without_program(regions, program).len()
            ==> !routes_to(#[trigger] regions_without_program(regions, program)[k], program),
{
    broadcast use vstd::seq_lib::group_filter_ensures;
    let kept = regions.filter(|r: RegionModel<S>| r.event_target != program);
    let after = kept.map_values(|r: RegionModel<S>| without_program_controls(r, program));
    assert forall|k: int| 0 <= k < after.len() implies !routes_to(#[trigger] after[k], program) by {
        assert(kept[k].event_target != program);
        let controls = kept[k].controls.filter(|c: SubProgramControl<S>| c.event_target != program);
        assert(after[k].controls == controls);
        assert forall|c: int| 0 <= c < controls.len() implies #[trigger] controls[c].event_target != program by {
            kept[k].controls.lemma_filter_pred(|c: SubProgramControl<S>| c.event_target != program, c);
        }
    }
}

/// After the pointer target moves (with no buttons down), pointer events go to the subprogram and
/// control under the pointer, or to the canvas program when the pointer is over no region
pub proof fn law_pointer_follows_destination(
    program: Option<SubProgramId>,
    control: Option<ControlId>,
    canvas: Option<SubProgramId>,
    connected: bool,
    target: (Option<SubProgramId>, Option<ControlId>),
)
    ensures
        ({
            let (new_program, new_control, _) = pointer_transition(program, control, canvas, connected, target);
            &&& new_program == (if target.0 is Some { target.0 } else { canvas })
            &&& new_control == target.1
        }),
{
}

/// Moving within the control that already receives pointer events sends nothing
pub proof fn law_pointer_stays_quiet(
    program: SubProgramId,
    control: Option<ControlId>,
    canvas: Option<SubProgramId>,
    connected: bool,
)
    ensures
        pointer_transition(Some(program), control, canvas, connected, (Some(program), control))
            == (Some(program), control, Seq::<PointerCommand>::empty()),
{
}

/// The control named by a `Leave` command (`None` for any other command, and for leaving the
/// subprogram itself)
pub open spec fn left_control(command: PointerCommand) -> Option<ControlId> {
    match command {
        PointerCommand::Leave(Some(c)) => Some(c),
        _ => None,
    }
}

/// The control named by an `Enter` command (`None` for any other command, and for entering the
/// subprogram itself)
pub open spec fn entered_control(command: PointerCommand) -> Option<ControlId> {
    match command {
        PointerCommand::Enter(Some(c)) => Some(c),
        _ => None,
    }
}

/// When the pointer target moves, a control is only ever told that the pointer left it if it
/// is the control that the pointer held before the move, and only ever told that the pointer
/// entered it if it is the control under the pointer now
pub proof fn law_pointer_leaves_old_control_enters_new(
    program: Option<SubProgramId>,
    control: Option<ControlId>,
    canvas: Option<SubProgramId>,
    connected: bool,
    target: (Option<SubProgramId>, Option<ControlId>),
)
    ensures
        ({
            let commands = pointer_transition(program, control, canvas, connected, target).2;
            &&& forall|i: int| 0 <= i < commands.len() && #[trigger] left_control(commands[i]) is Some
                ==> left_control(commands[i]) == control
            &&& forall|i: int| 0 <= i < commands.len() && #[trigger] entered_control(commands[i]) is Some
                ==> entered_control(commands[i]) == target.1
        }),
{
    let commands = pointer_transition(program, control, canvas, connected, target).2;
    assert forall|i: int| 0 <= i < commands.len() && #[trigger] left_control(commands[i]) is Some
        implies left_control(commands[i]) == control by {
    }
    assert forall|i: int| 0 <= i < commands.len() && #[trigger] entered_control(commands[i]) is Some
        implies entered_control(commands[i]) == target.1 by {
    }
}

/// Moving from one control of the pointer target's subprogram to another control of the same
/// subprogram tells it that the pointer left the first control and entered the second, and
/// nothing else
pub proof fn law_pointer_moves_between_controls(
    program: SubProgramId,
    from: ControlId,
    to: ControlId,
    canvas: Option<SubProgramId>,
    connected: bool,
)
    requires
        from != to,
    ensures
        pointer_transition(Some(program), Some(from), canvas, connected, (Some(program), Some(to)))
            == (Some(program), Some(to), seq![PointerCommand::Leave(Some(from)), PointerCommand::Enter(Some(to))]),
{
    let result = pointer_transition(Some(program), Some(from), canvas, connected, (Some(program), Some(to)));
    assert(result.2 =~= seq![PointerCommand::Leave(Some(from)), PointerCommand::Enter(Some(to))]);
}

/// A drop or hover event names the subprogram and the control of the topmost allowed claim
/// under the pointer: a claimed control under the pointer is reported as that control
pub proof fn law_drop_names_topmost_hit<S>(
    regions: Seq<RegionModel<S>>,
    hits: Vec<RegionHit>,
    exclude: Option<(SubProgramId, Option<ControlId>)>,
    i: int,
    j: int,
)
    requires
        is_topmost(regions, hits@, exclude, i, j),
    ensures
        event_for(destination_at(regions, Some(hits), exclude)) == Some(local_target(regions[i], j)),
{
    let (program, control) = local_target(regions[i], j);
    let dest = (Some(program), control);
    assert(is_destination(regions, hits@, exclude, dest));
    let chosen = destination_at(regions, Some(hits), exclude);
    assert(is_destination(regions, hits@, exclude, chosen));
    lemma_destination_unique(regions, hits@, exclude, chosen, dest);
}

/// Giving keyboard focus to a control of a claimed region (when its subprogram can be reached)
/// tells the subprogram that owns that control: the first control claimed with that ID in the
/// region, or the region's own subprogram when no control has that ID. Without a claimed
/// region or a connection, nothing gains focus.
pub proof fn law_focus_goes_to_the_controls_owner<S>(
    regions: Seq<RegionModel<S>>,
    focused_region: Option<RegionId>,
    focused_control: Option<ControlId>,
    region: RegionId,
    control: ControlId,
    connected: bool,
)
    ensures
        ({
            let change = keyboard_focus_transition(regions, focused_region, focused_control, region, control, connected).2;
            let claim = regions[region_index(regions, region)];
            &&& (change.focus is Some <==> connected && has_region(regions, region))
            &&& forall|k: int| #![trigger claim.controls[k]]
                connected && has_region(regions, region) && 0 <= k < claim.controls.len()
                && claim.controls[k].id == control
                && (forall|k2: int| 0 <= k2 < k ==> #[trigger] claim.controls[k2].id != control)
                ==> change.focus == Some((claim.controls[k].event_target, control))
            &&& (connected && has_region(regions, region)
                && (forall|k: int| 0 <= k < claim.controls.len() ==> #[trigger] claim.controls[k].id != control))
                ==> change.focus == Some((claim.event_target, control))
        }),
{
    let change = keyboard_focus_transition(regions, focused_region, focused_control, region, control, connected).2;
    let claim = regions[region_index(regions, region)];
    let ids = control_ids(claim.controls);
    assert forall|k: int| #![trigger claim.controls[k]]
        connected && has_region(regions, region) && 0 <= k < claim.controls.len()
        && claim.controls[k].id == control
        && (forall|k2: int| 0 <= k2 < k ==> #[trigger] claim.controls[k2].id != control)
        implies change.focus == Some((claim.controls[k].event_target, control)) by {
        assert(ids[k] == control);
        assert forall|k2: int| 0 <= k2 < k implies ids[k2] != control by {
            assert(claim.controls[k2].id != control);
        }
        assert(is_first_index(ids, control, k));
        lemma_first_index_is(ids, control, k);
        assert(ids.contains(control));
    }
    if connected && has_region(regions, region)
        && (forall|k: int| 0 <= k < claim.controls.len() ==> #[trigger] claim.controls[k].id != control) {
        if ids.contains(control) {
            let k = choose|k: int| 0 <= k < ids.len() && ids[k] == control;
            assert(claim.controls[k].id == control);
        }
    }
}

/// Moving keyboard focus away from a control tells the subprogram that owns the control that
/// had focus (the first control claimed with that ID in its region, or the region's own
/// subprogram when no control has that ID); when the new control gains focus, it and its region
/// are what is focused afterwards
pub proof fn law_unfocus_goes_to_the_old_controls_owner<S>(
    regions: Seq<RegionModel<S>>,
    old_region: RegionId,
    old_control: ControlId,
    region: RegionId,
    control: ControlId,
    connected: bool,
)
    ensures
        ({
            let (new_region, new_control, change) = keyboard_focus_transition(
                regions, Some(old_region), Some(old_control), region, control, connected);
            let claim = regions[region_index(regions, old_region)];
            &&& (change.unfocus is Some <==> has_region(regions, old_region))
            &&& forall|k: int| #![trigger claim.controls[k]]
                has_region(regions, old_region) && 0 <= k < claim.controls.len()
                && claim.controls[k].id == old_control
                && (forall|k2: int| 0 <= k2 < k ==> #[trigger] claim.controls[k2].id != old_control)
                ==> change.unfocus == Some((claim.controls[k].event_target, old_control))
            &&& (has_region(regions, old_region)
                && (forall|k: int| 0 <= k < claim.controls.len() ==> #[trigger] claim.controls[k].id != old_control))
                ==> change.unfocus == Some((claim.event_target, old_control))
            &&& (change.focus is Some ==> new_region == Some(region) && new_control == Some(control))
            &&& (change.focus is None ==> new_region is None && new_control is None)
        }),
{
    let change = keyboard_focus_transition(regions, Some(old_region), Some(old_control), region, control, connected).2;
    let claim = regions[region_index(regions, old_region)];
    let ids = control_ids(claim.controls);
    assert forall|k: int| #![trigger claim.controls[k]]
        has_region(regions, old_region) && 0 <= k < claim.controls.len()
        && claim.controls[k].id == old_control
        && (forall|k2: int| 0 <= k2 < k ==> #[trigger] claim.controls[k2].id != old_control)
        implies change.unfocus == Some((claim.controls[k].event_target, old_control)) by {
        assert(ids[k] == old_control);
        assert forall|k2: int| 0 <= k2 < k implies ids[k2] != old_control by {
            assert(claim.controls[k2].id != old_control);
        }
        assert(is_first_index(ids, old_control, k));
        lemma_first_index_is(ids, old_control, k);
        assert(ids.contains(old_control));
    }
    if has_region(regions, old_region)
        && (forall|k: int| 0 <= k < claim.controls.len() ==> #[trigger] claim.controls[k].id != old_control) {
        if ids.contains(old_control) {
            let k = choose|k: int| 0 <= k < ids.len() && ids[k] == old_control;
            assert(claim.controls[k].id == old_control);
        }
    }
}

} // verus!
