use vstd::prelude::*;

use super::regions::{hits_a_control, hits_region, RegionHit, RegionModel, SubProgramRegion};
use crate::subprograms::{same_program, ControlId};
use flo_scene::SubProgramId;

verus! {

/// Where pointer events go: a subprogram, and the control within it (`None` for the subprogram itself)
pub type PointerDestination = (Option<SubProgramId>, Option<ControlId>);

/// The models of a sequence of region claims
pub open spec fn region_models<S>(regions: Seq<SubProgramRegion<S>>) -> Seq<RegionModel<S>> {
    regions.map_values(|r: SubProgramRegion<S>| r@)
}

/// Something with z-index `za` at position `ia` is drawn above something with z-index `zb`
/// at position `ib`: a higher z-index wins, and for equal z-indexes the later claim wins
pub open spec fn above(za: int, ia: int, zb: int, ib: int) -> bool {
    za > zb || (za == zb && ia > ib)
}

/// Within one region, `j` can receive the point: either a control (`j >= 0`) that the point
/// is inside, or the region itself (`j == -1`) when the point is inside none of its controls
pub open spec fn is_local_candidate<S>(region: RegionModel<S>, hit: RegionHit, j: int) -> bool {
    ||| j == -1 && !hits_a_control(hit)
    ||| 0 <= j < region.controls.len() && j < hit.in_controls@.len() && hit.in_controls@[j]
}

/// The subprogram and control that receive events for candidate `j` of a region
pub open spec fn local_target<S>(region: RegionModel<S>, j: int) -> (SubProgramId, Option<ControlId>) {
    if j == -1 {
        (region.event_target, None)
    } else {
        (region.controls[j].event_target, Some(region.controls[j].id))
    }
}

/// A destination that the filter lets through (`exclude` is the one destination it rejects)
pub open spec fn allowed(
    target: (SubProgramId, Option<ControlId>),
    exclude: Option<(SubProgramId, Option<ControlId>)>,
) -> bool {
    match exclude {
        Some(e) => target != e,
        None => true,
    }
}

/// Within one region, candidate `j1` is above candidate `j2`
pub open spec fn local_before<S>(region: RegionModel<S>, j1: int, j2: int) -> bool {
    &&& j1 >= 0
    &&& j2 >= 0
    &&& above(region.controls[j1].z_index as int, j1, region.controls[j2].z_index as int, j2)
}

/// Candidate `j` of region `i` can receive the point
pub open spec fn is_candidate<S>(regions: Seq<RegionModel<S>>, hits: Seq<RegionHit>, i: int, j: int) -> bool {
    &&& 0 <= i < regions.len()
    &&& i < hits.len()
    &&& hits_region(hits[i])
    &&& is_local_candidate(regions[i], hits[i], j)
}

/// Candidate `(i1, j1)` comes before candidate `(i2, j2)`: regions are ordered by z-index,
/// then the controls within a region by theirs
pub open spec fn comes_before<S>(regions: Seq<RegionModel<S>>, i1: int, j1: int, i2: int, j2: int) -> bool {
    if i1 != i2 {
        above(regions[i1].z_index as int, i1, regions[i2].z_index as int, i2)
    } else {
        j1 != j2 && local_before(regions[i1], j1, j2)
    }
}

/// Candidate `(i, j)` passes the filter
pub open spec fn is_allowed_candidate<S>(
    regions: Seq<RegionModel<S>>,
    hits: Seq<RegionHit>,
    exclude: Option<(SubProgramId, Option<ControlId>)>,
    i: int,
    j: int,
) -> bool {
    is_candidate(regions, hits, i, j) && allowed(local_target(regions[i], j), exclude)
}

/// Candidate `(i, j)` is the topmost candidate that passes the filter
pub open spec fn is_topmost<S>(
    regions: Seq<RegionModel<S>>,
    hits: Seq<RegionHit>,
    exclude: Option<(SubProgramId, Option<ControlId>)>,
    i: int,
    j: int,
) -> bool {
    &&& is_allowed_candidate(regions, hits, exclude, i, j)
    &&& forall|i2: int, j2: int|
        #[trigger] is_allowed_candidate(regions, hits, exclude, i2, j2) && (i2 != i || j2 != j)
            ==> comes_before(regions, i, j, i2, j2)
}

/// The destination of a point: the target of the topmost candidate that passes the filter,
/// or nothing where no candidate passes
pub open spec fn is_destination<S>(
    regions: Seq<RegionModel<S>>,
    hits: Seq<RegionHit>,
    exclude: Option<(SubProgramId, Option<ControlId>)>,
    dest: PointerDestination,
) -> bool {
    match dest {
        (Some(program), control) => exists|i: int, j: int|
            #[trigger] is_topmost(regions, hits, exclude, i, j)
                && local_target(regions[i], j) == (program, control),
        (None, control) => control is None && forall|i: int, j: int|
            !#[trigger] is_allowed_candidate(regions, hits, exclude, i, j),
    }
}

/// There is at most one destination for a point
pub proof fn lemma_destination_unique<S>(
    regions: Seq<RegionModel<S>>,
    hits: Seq<RegionHit>,
    exclude: Option<(SubProgramId, Option<ControlId>)>,
    d1: PointerDestination,
    d2: PointerDestination,
)
    requires
        is_destination(regions, hits, exclude, d1),
        is_destination(regions, hits, exclude, d2),
    ensures
        d1 == d2,
{
    match (d1, d2) {
        ((Some(p1), c1), (Some(p2), c2)) => {
            let (i1, j1) = choose|i: int, j: int| #[trigger] is_topmost(regions, hits, exclude, i, j)
                && local_target(regions[i], j) == (p1, c1);
            let (i2, j2) = choose|i: int, j: int| #[trigger] is_topmost(regions, hits, exclude, i, j)
                && local_target(regions[i], j) == (p2, c2);
            if i1 != i2 || j1 != j2 {
                assert(is_allowed_candidate(regions, hits, exclude, i2, j2));
                assert(is_allowed_candidate(regions, hits, exclude, i1, j1));
                assert(comes_before(regions, i1, j1, i2, j2));
                assert(comes_before(regions, i2, j2, i1, j1));
            }
        },
        ((Some(p1), c1), (None, _)) => {
            let (i1, j1) = choose|i: int, j: int| #[trigger] is_topmost(regions, hits, exclude, i, j)
                && local_target(regions[i], j) == (p1, c1);
            assert(is_allowed_candidate(regions, hits, exclude, i1, j1));
        },
        ((None, _), (Some(p2), c2)) => {
            let (i2, j2) = choose|i: int, j: int| #[trigger] is_topmost(regions, hits, exclude, i, j)
                && local_target(regions[i], j) == (p2, c2);
            assert(is_allowed_candidate(regions, hits, exclude, i2, j2));
        },
        ((None, _), (None, _)) => {},
    }
}

/// The destination of a point: nothing where the pointer has no location on the canvas, otherwise
/// the one destination that `is_destination` describes
pub open spec fn destination_at<S>(
    regions: Seq<RegionModel<S>>,
    hits: Option<Vec<RegionHit>>,
    exclude: Option<(SubProgramId, Option<ControlId>)>,
) -> PointerDestination {
    match hits {
        Some(hits) => choose|d: PointerDestination| is_destination(regions, hits@, exclude, d),
        None => (None, None),
    }
}

/// Encodes a choice within a region: `None` is the region itself, `Some(j)` its control `j`
pub open spec fn choice_index(choice: Option<usize>) -> int {
    match choice {
        Some(j) => j as int,
        None => -1,
    }
}

/// True if `target` passes the filter
fn is_allowed(
    program: &SubProgramId,
    control: &Option<ControlId>,
    exclude: &Option<(SubProgramId, Option<ControlId>)>,
) -> (ok: bool)
    ensures
        ok == allowed((*program, *control), *exclude),
{
    match exclude {
        None => true,
        Some((ex_program, ex_control)) => {
            let same_control = match (control, ex_control) {
                (Some(a), Some(b)) => a.0 == b.0,
                (None, None) => true,
                _ => false,
            };
            !(same_program(program, ex_program) && same_control)
        },
    }
}

/// The topmost candidate within one region that passes the filter
fn region_choice<S>(
    region: &SubProgramRegion<S>,
    hit: &RegionHit,
    exclude: &Option<(SubProgramId, Option<ControlId>)>,
) -> (choice: Option<Option<usize>>)
    ensures
        match choice {
            Some(c) => {
                &&& is_local_candidate(region@, *hit, choice_index(c))
                &&& allowed(local_target(region@, choice_index(c)), *exclude)
                &&& forall|j2: int|
                    #[trigger] is_local_candidate(region@, *hit, j2) && allowed(local_target(region@, j2), *exclude)
                        && j2 != choice_index(c) ==> local_before(region@, choice_index(c), j2)
            },
            None => forall|j2: int|
                #[trigger] is_local_candidate(region@, *hit, j2) ==> !allowed(local_target(region@, j2), *exclude),
        },
{
    // Does the point hit any control?
    let mut any_control = false;
    let mut k: usize = 0;
    while k < hit.in_controls.len()
        invariant
            k <= hit.in_controls.len(),
            any_control == exists|j: int| 0 <= j < k && hit.in_controls@[j],
        decreases hit.in_controls.len() - k,
    {
        if hit.in_controls[k] {
            any_control = true;
        }
        k = k + 1;
    }

    if !any_control {
        // Only the region itself can receive the point
        if is_allowed(&region.event_target, &None, exclude) {
            return Some(None);
        } else {
            assert forall|j2: int| #[trigger] is_local_candidate(region@, *hit, j2)
                implies !allowed(local_target(region@, j2), *exclude) by {
                if j2 != -1 {
                    assert(hit.in_controls@[j2]);
                }
            }
            return None;
        }
    }

    // The topmost control that the point is inside and that passes the filter
    let count = if region.controls.len() < hit.in_controls.len() { region.controls.len() } else { hit.in_controls.len() };
    let mut best: Option<usize> = None;
    let mut j: usize = 0;
    while j < count
        invariant
            count <= region.controls.len(),
            count <= hit.in_controls.len(),
            count == region.controls.len() || count == hit.in_controls.len(),
            j <= count,
            hits_a_control(*hit),
            match best {
                Some(b) => {
                    &&& b < j
                    &&& is_local_candidate(region@, *hit, b as int)
                    &&& allowed(local_target(region@, b as int), *exclude)
                    &&& forall|j2: int|
                        0 <= j2 < j && #[trigger] is_local_candidate(region@, *hit, j2)
                            && allowed(local_target(region@, j2), *exclude) && j2 != b
                            ==> local_before(region@, b as int, j2)
                },
                None => forall|j2: int|
                    0 <= j2 < j && #[trigger] is_local_candidate(region@, *hit, j2)
                        ==> !allowed(local_target(region@, j2), *exclude),
            },
        decreases count - j,
    {
        if hit.in_controls[j] {
            let control = &region.controls[j];
            if is_allowed(&control.event_target, &Some(control.id), exclude) {
                match best {
                    None => {
                        best = Some(j);
                    },
                    Some(b) => {
                        let current = &region.controls[b];
                        if control.z_index >= current.z_index {
                            best = Some(j);
                        }
                    },
                }
            }
        }
        j = j + 1;
    }

    match best {
        Some(b) => {
            assert forall|j2: int|
                #[trigger] is_local_candidate(region@, *hit, j2) && allowed(local_target(region@, j2), *exclude)
                    && j2 != b as int implies local_before(region@, b as int, j2) by {
                assert(j2 != -1);
                assert(j2 < count);
            }
            Some(Some(b))
        },
        None => {
            assert forall|j2: int| #[trigger] is_local_candidate(region@, *hit, j2)
                implies !allowed(local_target(region@, j2), *exclude) by {
                assert(j2 != -1);
                assert(j2 < count);
            }
            None
        },
    }
}

/// Finds where events for a point go: the topmost region that the point is inside, and the
/// topmost control within it, skipping the destination `exclude`
///
/// `hits` says, for each region in `regions` (in the same order), where the point lies; `None`
/// means the pointer has no location on the canvas
pub fn pointer_target_filter<S>(
    regions: &Vec<SubProgramRegion<S>>,
    hits: &Option<Vec<RegionHit>>,
    exclude: &Option<(SubProgramId, Option<ControlId>)>,
) -> (dest: PointerDestination)
    ensures
        match hits {
            Some(hits) => is_destination(region_models(regions@), hits@, *exclude, dest),
            None => dest == (None::<SubProgramId>, None::<ControlId>),
        },
        dest == destination_at(region_models(regions@), *hits, *exclude),
{
    let dest = find_destination(regions, hits, exclude);
    proof {
        if let Some(h) = hits {
            let d = destination_at(region_models(regions@), *hits, *exclude);
            assert(is_destination(region_models(regions@), h@, *exclude, d));
            lemma_destination_unique(region_models(regions@), h@, *exclude, dest, d);
        }
    }
    dest
}

/// Finds the destination of a point (see `pointer_target_filter`)
fn find_destination<S>(
    regions: &Vec<SubProgramRegion<S>>,
    hits: &Option<Vec<RegionHit>>,
    exclude: &Option<(SubProgramId, Option<ControlId>)>,
) -> (dest: PointerDestination)
    ensures
        match hits {
            Some(hits) => is_destination(region_models(regions@), hits@, *exclude, dest),
            None => dest == (None::<SubProgramId>, None::<ControlId>),
        },
{
    let hits = match hits {
        Some(hits) => hits,
        None => {
            return (None, None);
        },
    };
    let ghost rs = region_models(regions@);
    let count = if regions.len() < hits.len() { regions.len() } else { hits.len() };
    let mut best: Option<(usize, Option<usize>)> = None;
    let mut i: usize = 0;
    while i < count
        invariant
            rs == region_models(regions@),
            count <= regions.len(),
            count <= hits.len(),
            count == regions.len() || count == hits.len(),
            i <= count,
            match best {
                Some((bi, bj)) => {
                    &&& bi < i
                    &&& is_allowed_candidate(rs, hits@, *exclude, bi as int, choice_index(bj))
                    &&& forall|i2: int, j2: int|
                        0 <= i2 < i && #[trigger] is_allowed_candidate(rs, hits@, *exclude, i2, j2)
                            && (i2 != bi || j2 != choice_index(bj))
                            ==> comes_before(rs, bi as int, choice_index(bj), i2, j2)
                },
                None => forall|i2: int, j2: int|
                    0 <= i2 < i ==> !#[trigger] is_allowed_candidate(rs, hits@, *exclude, i2, j2),
            },
        decreases count - i,
    {
        let region = &regions[i];
        let hit = &hits[i];
        assert(rs[i as int] == region@);
        if hit.point_is_inside() {
            let choice = region_choice(region, hit, exclude);
            match choice {
                Some(c) => {
                    match best {
                        None => {
                            best = Some((i, c));
                        },
                        Some((bi, _)) => {
                            if region.z_index >= regions[bi].z_index {
                                best = Some((i, c));
                            }
                        },
                    }
                },
                None => {
                    assert forall|j2: int| !#[trigger] is_allowed_candidate(rs, hits@, *exclude, i as int, j2) by {
                        if is_local_candidate(rs[i as int], hits@[i as int], j2) {
                        }
                    }
                },
            }
        } else {
            assert forall|j2: int| !#[trigger] is_allowed_candidate(rs, hits@, *exclude, i as int, j2) by {}
        }
        i = i + 1;
    }

    match best {
        Some((bi, bj)) => {
            assert(is_topmost(rs, hits@, *exclude, bi as int, choice_index(bj)));
            let region = &regions[bi];
            match bj {
                Some(j) => (Some(region.controls[j].event_target), Some(region.controls[j].id)),
                None => (Some(region.event_target), None),
            }
        },
        None => (None, None),
    }
}

/// Finds where events for a point go, with no filter
pub fn pointer_target<S>(regions: &Vec<SubProgramRegion<S>>, hits: &Option<Vec<RegionHit>>) -> (dest: PointerDestination)
    ensures
        match hits {
            Some(hits) => is_destination(region_models(regions@), hits@, None, dest),
            None => dest == (None::<SubProgramId>, None::<ControlId>),
        },
        dest == destination_at(region_models(regions@), *hits, None),
{
    pointer_target_filter(regions, hits, &None)
}

} // verus!
