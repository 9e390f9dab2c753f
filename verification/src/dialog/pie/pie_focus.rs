use vstd::prelude::*;

use crate::subprograms::{ControlId, same_program};
use flo_scene::SubProgramId;

verus! {

/// Describes a focus region in a pie dialog: the control's shape (`P`, in the pie's flat
/// coordinates), the control, where its events go and its z-index
#[derive(Debug, PartialEq)]
pub struct PieFocusRegion<P> {
    pub path: P,
    pub control: ControlId,
    pub target: SubProgramId,
    pub z_index: usize,
}

/// A request to the focus subprogram that a change to a pie's controls calls for
#[derive(Clone, Copy, Debug, PartialEq, Eq)]
pub enum ClaimUpdate {
    /// Claim the region of this control (as its claim now stands)
    Claim(ControlId),
    /// Remove the claim for this control, whose events went to this subprogram
    RemoveClaim(SubProgramId, ControlId),
}

/// Some region in the list is for this control
pub open spec fn has_control<P>(regions: Seq<PieFocusRegion<P>>, control: ControlId) -> bool {
    exists|i: int| 0 <= i < regions.len() && #[trigger] regions[i].control == control
}

/// The position of the region for this control
pub open spec fn control_index<P>(regions: Seq<PieFocusRegion<P>>, control: ControlId) -> int {
    choose|i: int| 0 <= i < regions.len() && #[trigger] regions[i].control == control
}

/// No two regions in the list are for the same control
pub open spec fn unique_controls<P>(regions: Seq<PieFocusRegion<P>>) -> bool {
    forall|i: int, j: int| 0 <= i < regions.len() && 0 <= j < regions.len() && i != j
        ==> #[trigger] regions[i].control != #[trigger] regions[j].control
}

/// The flag at position `i` (a missing flag counts as `false`)
pub open spec fn flag_at(flags: Seq<bool>, i: int) -> bool {
    0 <= i < flags.len() && flags[i]
}

/// A claim is left as it is when the wanted region has the same target, the same path and the
/// same z-index
pub open spec fn unchanged<P>(claim: PieFocusRegion<P>, wanted: PieFocusRegion<P>, same_path: bool) -> bool {
    claim.target == wanted.target && same_path && claim.z_index == wanted.z_index
}

/// A changed claim takes the wanted path, control and target. It keeps its old z-index even when
/// the wanted region has another one: the claim is removed and made again, but the stored z-index
/// is never replaced, so a claim whose z-index differs is re-made on every update.
pub open spec fn refreshed<P>(claim: PieFocusRegion<P>, wanted: PieFocusRegion<P>) -> PieFocusRegion<P> {
    PieFocusRegion { path: wanted.path, control: wanted.control, target: wanted.target, z_index: claim.z_index }
}

/// The wanted regions whose controls have no claim yet, in order
pub open spec fn new_claims<P>(claims: Seq<PieFocusRegion<P>>, wanted: Seq<PieFocusRegion<P>>) -> Seq<PieFocusRegion<P>> {
    wanted.filter(|r: PieFocusRegion<P>| !has_control(claims, r.control))
}

/// The claims messages for new regions
pub open spec fn claim_messages<P>(regions: Seq<PieFocusRegion<P>>) -> Seq<ClaimUpdate> {
    regions.map_values(|r: PieFocusRegion<P>| ClaimUpdate::Claim(r.control))
}

/// For each wanted region (in order) whose control has a claim that changes: remove the old
/// claim, then claim it again
pub open spec fn changed_messages<P>(
    claims: Seq<PieFocusRegion<P>>,
    wanted: Seq<PieFocusRegion<P>>,
    same_path: Seq<bool>,
) -> Seq<ClaimUpdate>
    decreases wanted.len(),
{
    if wanted.len() == 0 {
        Seq::empty()
    } else {
        let before = changed_messages(claims, wanted.drop_last(), same_path);
        let w = wanted.last();
        if has_control(claims, w.control) {
            let c = claims[control_index(claims, w.control)];
            if unchanged(c, w, flag_at(same_path, wanted.len() - 1)) {
                before
            } else {
                before + seq![ClaimUpdate::RemoveClaim(c.target, c.control), ClaimUpdate::Claim(w.control)]
            }
        } else {
            before
        }
    }
}

/// The messages that remove the claims whose controls are no longer wanted, in order
pub open spec fn removed_messages<P>(claims: Seq<PieFocusRegion<P>>, wanted: Seq<PieFocusRegion<P>>) -> Seq<ClaimUpdate> {
    claims.filter(|c: PieFocusRegion<P>| !has_control(wanted, c.control))
        .map_values(|c: PieFocusRegion<P>| ClaimUpdate::RemoveClaim(c.target, c.control))
}

/// A claim after an update: as it was, or refreshed from the wanted region for its control
pub open spec fn updated_claim<P>(
    claim: PieFocusRegion<P>,
    wanted: Seq<PieFocusRegion<P>>,
    same_path: Seq<bool>,
) -> PieFocusRegion<P> {
    let i = control_index(wanted, claim.control);
    if unchanged(claim, wanted[i], flag_at(same_path, i)) {
        claim
    } else {
        refreshed(claim, wanted[i])
    }
}

/// The claims that stay (those whose controls are still wanted), updated, in order
pub open spec fn kept_claims<P>(
    claims: Seq<PieFocusRegion<P>>,
    wanted: Seq<PieFocusRegion<P>>,
    same_path: Seq<bool>,
) -> Seq<PieFocusRegion<P>> {
    claims.filter(|c: PieFocusRegion<P>| has_control(wanted, c.control))
        .map_values(|c: PieFocusRegion<P>| updated_claim(c, wanted, same_path))
}

/// The claims that a pie dialog has made with the focus subprogram, one per control
pub struct PieClaims<P> {
    claims: Vec<PieFocusRegion<P>>,
}

impl<P> PieClaims<P> {
    #[verifier::type_invariant]
    spec fn one_claim_per_control(&self) -> bool {
        unique_controls(self.claims@)
    }

    /// The claims, in the order they were made
    pub closed spec fn claims(&self) -> Seq<PieFocusRegion<P>> {
        self.claims@
    }

    /// A pie with no claims
    pub fn new() -> (claims: Self)
        ensures
            claims.claims() == Seq::<PieFocusRegion<P>>::empty(),
    {
        PieClaims { claims: Vec::new() }
    }

    /// The claims, in the order they were made
    pub fn regions(&self) -> (regions: &Vec<PieFocusRegion<P>>)
        ensures
            regions@ == self.claims(),
            unique_controls(regions@),
    {
        proof {
            use_type_invariant(self);
        }
        &self.claims
    }

    /// The claim for a control
    pub fn claim_for(&self, control: ControlId) -> (claim: Option<&PieFocusRegion<P>>)
        ensures
            match claim {
                Some(c) => has_control(self.claims(), control) && *c == self.claims()[control_index(self.claims(), control)],
                None => !has_control(self.claims(), control),
            },
    {
        proof {
            use_type_invariant(self);
        }
        match find_control(&self.claims, control) {
            Some(idx) => Some(&self.claims[idx]),
            None => None,
        }
    }

    /// Brings the claims up to date with the regions that are wanted now (one per control).
    /// `same_path[i]` says whether `wanted[i]` has the same path as the claim for its control.
    /// Returns the messages for the focus subprogram: claims for new controls, then a removal
    /// and a new claim for each changed control, then removals for controls no longer wanted.
    pub fn update(&mut self, wanted: Vec<PieFocusRegion<P>>, same_path: &Vec<bool>) -> (messages: Vec<ClaimUpdate>)
        requires
            unique_controls(wanted@),
        ensures
            final(self).claims() == kept_claims(old(self).claims(), wanted@, same_path@)
                + new_claims(old(self).claims(), wanted@),
            messages@ == claim_messages(new_claims(old(self).claims(), wanted@))
                + changed_messages(old(self).claims(), wanted@, same_path@)
                + removed_messages(old(self).claims(), wanted@),
    {
        proof {
            use_type_invariant(&*self);
        }
        let ghost claims = self.claims@;
        let ghost all_wanted = wanted@;
        let mut current: Vec<PieFocusRegion<P>> = Vec::new();
        std::mem::swap(&mut current, &mut self.claims);

        // Claims for the new controls, and updates for the changed ones
        let total = wanted.len();
        let mut rest = wanted;
        let mut wanted_controls: Vec<ControlId> = Vec::new();
        let mut added: Vec<PieFocusRegion<P>> = Vec::new();
        let mut new_messages: Vec<ClaimUpdate> = Vec::new();
        let mut changed: Vec<ClaimUpdate> = Vec::new();
        let mut d: usize = 0;
        while rest.len() > 0
            invariant
                unique_controls(claims),
                unique_controls(all_wanted),
                all_wanted.len() == total,
                d <= total,
                rest@ == all_wanted.skip(d as int),
                rest@.len() == total - d,
                current@.len() == claims.len(),
                forall|k: int| 0 <= k < claims.len() ==> #[trigger] current@[k] == (if has_control(all_wanted.take(d as int), claims[k].control) {
                    updated_claim(claims[k], all_wanted, same_path@)
                } else {
                    claims[k]
                }),
                wanted_controls@ == all_wanted.take(d as int).map_values(|r: PieFocusRegion<P>| r.control),
                added@ == new_claims(claims, all_wanted.take(d as int)),
                new_messages@ == claim_messages(new_claims(claims, all_wanted.take(d as int))),
                changed@ == changed_messages(claims, all_wanted.take(d as int), same_path@),
            decreases rest.len(),
        {
            let entry = rest.remove(0);
            let ghost prefix = all_wanted.take(d + 1);
            proof {
                reveal(Seq::filter);
                assert(all_wanted.skip(d as int)[0] == entry);
                assert(all_wanted[d as int] == entry);
                assert(all_wanted.skip(d + 1) =~= all_wanted.skip(d as int).remove(0));
                assert(prefix.drop_last() =~= all_wanted.take(d as int));
                assert(prefix.last() == entry);
                assert(control_index(all_wanted, entry.control) == d) by {
                    let i = control_index(all_wanted, entry.control);
                    assert(all_wanted[d as int].control == entry.control);
                    if i != d {
                        assert(all_wanted[i].control != all_wanted[d as int].control);
                    }
                }
                assert(prefix.map_values(|r: PieFocusRegion<P>| r.control)
                    =~= all_wanted.take(d as int).map_values(|r: PieFocusRegion<P>| r.control).push(entry.control));
            }
            let control = entry.control;
            let flag = d < same_path.len() && same_path[d];
            wanted_controls.push(control);
            match find_control(&current, control) {
                None => {
                    proof {
                        assert(!has_control(claims, control)) by {
                            if has_control(claims, control) {
                                let k = choose|k: int| 0 <= k < claims.len() && #[trigger] claims[k].control == control;
                                assert(current@[k].control == control);
                            }
                        }
                        assert(new_claims(claims, prefix) == new_claims(claims, all_wanted.take(d as int)).push(entry));
                        assert(claim_messages(new_claims(claims, prefix))
                            =~= claim_messages(new_claims(claims, all_wanted.take(d as int))).push(ClaimUpdate::Claim(control)));
                        assert(changed_messages(claims, prefix, same_path@) == changed_messages(claims, all_wanted.take(d as int), same_path@));
                        assert forall|k: int| 0 <= k < claims.len() implies (has_control(prefix, claims[k].control)
                            <==> has_control(all_wanted.take(d as int), claims[k].control)) by {
                            if has_control(prefix, claims[k].control) {
                                let i = choose|i: int| 0 <= i < prefix.len() && #[trigger] prefix[i].control == claims[k].control;
                                if i == d {
                                    assert(claims[k].control == control);
                                }
                                assert(all_wanted.take(d as int)[i].control == claims[k].control);
                            }
                            if has_control(all_wanted.take(d as int), claims[k].control) {
                                let i = choose|i: int| 0 <= i < d && #[trigger] all_wanted.take(d as int)[i].control == claims[k].control;
                                assert(prefix[i].control == claims[k].control);
                            }
                        }
                    }
                    new_messages.push(ClaimUpdate::Claim(control));
                    added.push(entry);
                },
                Some(k) => {
                    let ghost claim = claims[k as int];
                    proof {
                        assert(claim.control == control) by {
                            if has_control(all_wanted.take(d as int), claims[k as int].control) {
                                assert(current@[k as int] == updated_claim(claims[k as int], all_wanted, same_path@));
                            }
                        }
                        assert(!has_control(all_wanted.take(d as int), control)) by {
                            if has_control(all_wanted.take(d as int), control) {
                                let i = choose|i: int| 0 <= i < d && #[trigger] all_wanted.take(d as int)[i].control == control;
                                assert(all_wanted[i].control == all_wanted[d as int].control);
                            }
                        }
                        assert(current@[k as int] == claim);
                        assert(has_control(claims, control));
                        assert(control_index(claims, control) == k) by {
                            let i = control_index(claims, control);
                            if i != k {
                                assert(claims[i].control != claims[k as int].control);
                            }
                        }
                        assert(new_claims(claims, prefix) == new_claims(claims, all_wanted.take(d as int)));
                        assert forall|j: int| 0 <= j < claims.len() implies (has_control(prefix, claims[j].control)
                            <==> (has_control(all_wanted.take(d as int), claims[j].control) || j == k)) by {
                            if has_control(prefix, claims[j].control) {
                                let i = choose|i: int| 0 <= i < prefix.len() && #[trigger] prefix[i].control == claims[j].control;
                                if i == d {
                                    if j != k {
                                        assert(claims[j].control != claims[k as int].control);
                                    }
                                } else {
                                    assert(all_wanted.take(d as int)[i].control == claims[j].control);
                                }
                            }
                            if has_control(all_wanted.take(d as int), claims[j].control) {
                                let i = choose|i: int| 0 <= i < d && #[trigger] all_wanted.take(d as int)[i].control == claims[j].control;
                                assert(prefix[i].control == claims[j].control);
                            }
                            if j == k {
                                assert(prefix[d as int].control == claims[j].control);
                            }
                        }
                    }
                    let old_claim = current.remove(k);
                    let same_target = same_program(&old_claim.target, &entry.target);
                    if same_target && flag && old_claim.z_index == entry.z_index {
                        proof {
                            assert(updated_claim(claim, all_wanted, same_path@) == claim);
                            assert(changed_messages(claims, prefix, same_path@) == changed_messages(claims, all_wanted.take(d as int), same_path@));
                        }
                        current.insert(k, old_claim);
                    } else {
                        changed.push(ClaimUpdate::RemoveClaim(old_claim.target, old_claim.control));
                        changed.push(ClaimUpdate::Claim(control));
                        let new_claim = PieFocusRegion {
                            path: entry.path,
                            control: entry.control,
                            target: entry.target,
                            z_index: old_claim.z_index,
                        };
                        proof {
                            assert(updated_claim(claim, all_wanted, same_path@) == new_claim);
                            assert(changed_messages(claims, prefix, same_path@) =~= changed_messages(claims, all_wanted.take(d as int), same_path@)
                                + seq![ClaimUpdate::RemoveClaim(claim.target, claim.control), ClaimUpdate::Claim(control)]);
                        }
                        current.insert(k, new_claim);
                    }
                },
            }
            d = d + 1;
        }
        proof {
            assert(all_wanted.take(total as int) =~= all_wanted);
        }

        // Remove any claims that are no longer wanted
        let ghost updated = current@;
        let count = current.len();
        let mut kept: Vec<PieFocusRegion<P>> = Vec::new();
        let mut removed: Vec<ClaimUpdate> = Vec::new();
        let mut k: usize = 0;
        while current.len() > 0
            invariant
                unique_controls(claims),
                unique_controls(all_wanted),
                claims.len() == count,
                updated.len() == count,
                k <= count,
                current@ == updated.skip(k as int),
                current@.len() == count - k,
                forall|j: int| 0 <= j < count ==> #[trigger] updated[j] == (if has_control(all_wanted, claims[j].control) {
                    updated_claim(claims[j], all_wanted, same_path@)
                } else {
                    claims[j]
                }),
                wanted_controls@ == all_wanted.map_values(|r: PieFocusRegion<P>| r.control),
                kept@ == kept_claims(claims.take(k as int), all_wanted, same_path@),
                removed@ == removed_messages(claims.take(k as int), all_wanted),
            decreases current.len(),
        {
            let claim = current.remove(0);
            proof {
                reveal(Seq::filter);
                assert(updated.skip(k as int)[0] == claim);
                assert(updated[k as int] == claim);
                assert(updated.skip(k + 1) =~= updated.skip(k as int).remove(0));
                assert(claims.take(k + 1).drop_last() =~= claims.take(k as int));
                assert(claims.take(k + 1).last() == claims[k as int]);
            }
            let ghost original = claims[k as int];
            proof {
                if has_control(all_wanted, original.control) {
                    let i = control_index(all_wanted, original.control);
                    assert(all_wanted[i].control == original.control);
                    assert(claim.control == original.control);
                } else {
                    assert(claim == original);
                }
            }
            let still_wanted = crate::focus::holds(&wanted_controls, &claim.control);
            proof {
                assert(still_wanted == has_control(all_wanted, original.control)) by {
                    if still_wanted {
                        let i = choose|i: int| 0 <= i < wanted_controls@.len() && wanted_controls@[i] == claim.control;
                        assert(all_wanted[i].control == original.control);
                    }
                    if has_control(all_wanted, original.control) {
                        let i = choose|i: int| 0 <= i < all_wanted.len() && #[trigger] all_wanted[i].control == original.control;
                        assert(wanted_controls@[i] == claim.control);
                    }
                }
                let p = |c: PieFocusRegion<P>| has_control(all_wanted, c.control);
                let f = |c: PieFocusRegion<P>| updated_claim(c, all_wanted, same_path@);
                let q = |c: PieFocusRegion<P>| !has_control(all_wanted, c.control);
                let g = |c: PieFocusRegion<P>| ClaimUpdate::RemoveClaim(c.target, c.control);
                if still_wanted {
                    assert(claims.take(k + 1).filter(p) == claims.take(k as int).filter(p).push(original));
                    assert(claims.take(k + 1).filter(p).map_values(f) =~= claims.take(k as int).filter(p).map_values(f).push(f(original)));
                    assert(claims.take(k + 1).filter(q) == claims.take(k as int).filter(q));
                } else {
                    assert(claims.take(k + 1).filter(q) == claims.take(k as int).filter(q).push(original));
                    assert(claims.take(k + 1).filter(q).map_values(g) =~= claims.take(k as int).filter(q).map_values(g).push(g(original)));
                    assert(claims.take(k + 1).filter(p) == claims.take(k as int).filter(p));
                }
            }
            if still_wanted {
                kept.push(claim);
            } else {
                removed.push(ClaimUpdate::RemoveClaim(claim.target, claim.control));
            }
            k = k + 1;
        }
        proof {
            assert(claims.take(count as int) =~= claims);
        }

        // The new claims go after the ones that stay
        let ghost kept_view = kept@;
        let ghost added_view = added@;
        proof {
            broadcast use vstd::seq_lib::group_filter_ensures;
            lemma_kept_and_added_unique(claims, all_wanted, same_path@);
        }
        kept.append(&mut added);
        assert(kept@ =~= kept_view + added_view);
        self.claims = kept;

        new_messages.append(&mut changed);
        new_messages.append(&mut removed);
        new_messages
    }
}

/// The claims after an update hold one claim per control
pub proof fn lemma_kept_and_added_unique<P>(claims: Seq<PieFocusRegion<P>>, wanted: Seq<PieFocusRegion<P>>, same_path: Seq<bool>)
    requires
        unique_controls(claims),
        unique_controls(wanted),
    ensures
        unique_controls(kept_claims(claims, wanted, same_path) + new_claims(claims, wanted)),
{
    broadcast use vstd::seq_lib::group_filter_ensures;
    let p = |c: PieFocusRegion<P>| has_control(wanted, c.control);
    let q = |r: PieFocusRegion<P>| !has_control(claims, r.control);
    let filtered = claims.filter(p);
    let kept = kept_claims(claims, wanted, same_path);
    let added = new_claims(claims, wanted);
    let all = kept + added;
    lemma_filter_keeps_unique(claims, p);
    lemma_filter_keeps_unique(wanted, q);
    assert forall|i: int| 0 <= i < kept.len() implies #[trigger] kept[i].control == filtered[i].control by {
        let c = filtered[i];
        claims.lemma_filter_pred(p, i);
        let j = control_index(wanted, c.control);
        assert(wanted[j].control == c.control);
    }
    assert forall|a: int, b: int| 0 <= a < all.len() && 0 <= b < all.len() && a != b
        implies #[trigger] all[a].control != #[trigger] all[b].control by {
        if a < kept.len() && b < kept.len() {
            assert(filtered[a].control != filtered[b].control);
        } else if a >= kept.len() && b >= kept.len() {
            assert(added[a - kept.len()].control != added[b - kept.len()].control);
        } else {
            let x = if a < kept.len() { a } else { b };
            let y = if a < kept.len() { b - kept.len() } else { a - kept.len() };
            assert(0 <= x < kept.len());
            assert(0 <= y < added.len());
            wanted.lemma_filter_pred(q, y);
            let fc = filtered[x];
            assert(filtered.contains(fc));
            claims.lemma_filter_contains_rev(p, fc);
            let m = choose|m: int| 0 <= m < claims.len() && claims[m] == fc;
            assert(claims[m].control == fc.control);
            assert(!has_control(claims, added[y].control));
            assert(kept[x].control != added[y].control);
        }
    }
}

/// After an update, every claim sends its control's events where the wanted region for that
/// control says: its target is the wanted region's target
pub proof fn law_update_claims_take_wanted_targets<P>(
    claims: Seq<PieFocusRegion<P>>,
    wanted: Seq<PieFocusRegion<P>>,
    same_path: Seq<bool>,
)
    requires
        unique_controls(wanted),
    ensures
        ({
            let after = kept_claims(claims, wanted, same_path) + new_claims(claims, wanted);
            forall|i: int| #![trigger after[i]] 0 <= i < after.len() ==> {
                &&& has_control(wanted, after[i].control)
                &&& after[i].target == wanted[control_index(wanted, after[i].control)].target
            }
        }),
{
    broadcast use vstd::seq_lib::group_filter_ensures;
    let p = |c: PieFocusRegion<P>| has_control(wanted, c.control);
    let q = |r: PieFocusRegion<P>| !has_control(claims, r.control);
    let filtered = claims.filter(p);
    let kept = kept_claims(claims, wanted, same_path);
    let added = new_claims(claims, wanted);
    let after = kept + added;
    assert forall|i: int| #![trigger after[i]] 0 <= i < after.len() implies {
        &&& has_control(wanted, after[i].control)
        &&& after[i].target == wanted[control_index(wanted, after[i].control)].target
    } by {
        if i < kept.len() {
            claims.lemma_filter_pred(p, i);
            let c = filtered[i];
            let j = control_index(wanted, c.control);
            assert(wanted[j].control == c.control);
            assert(after[i] == kept[i]);
            assert(kept[i] == updated_claim(c, wanted, same_path));
            assert(after[i].control == c.control);
        } else {
            let y = i - kept.len();
            assert(after[i] == added[y]);
            assert(added.contains(added[y]));
            wanted.lemma_filter_contains_rev(q, added[y]);
            let m = choose|m: int| 0 <= m < wanted.len() && wanted[m] == added[y];
            assert(wanted[m].control == added[y].control);
            let j = control_index(wanted, added[y].control);
            assert(wanted[j].control == added[y].control);
            if j != m {
                assert(wanted[j].control != wanted[m].control);
            }
        }
    }
}

/// In the messages of an update, a wanted control whose claim sends its events to another
/// subprogram than the wanted region says is re-claimed: the old claim is removed (naming the
/// subprogram it sent to) and the control is claimed again, one message after the other
pub proof fn law_retargeted_claim_is_reclaimed<P>(
    claims: Seq<PieFocusRegion<P>>,
    wanted: Seq<PieFocusRegion<P>>,
    same_path: Seq<bool>,
    k: int,
)
    requires
        0 <= k < wanted.len(),
        has_control(claims, wanted[k].control),
        claims[control_index(claims, wanted[k].control)].target != wanted[k].target,
    ensures
        ({
            let old_claim = claims[control_index(claims, wanted[k].control)];
            let messages = claim_messages(new_claims(claims, wanted))
                + changed_messages(claims, wanted, same_path)
                + removed_messages(claims, wanted);
            exists|m: int| #![trigger messages[m]] 0 <= m && m + 1 < messages.len()
                && messages[m] == ClaimUpdate::RemoveClaim(old_claim.target, wanted[k].control)
                && messages[m + 1] == ClaimUpdate::Claim(wanted[k].control)
        }),
{
    let old_claim = claims[control_index(claims, wanted[k].control)];
    let first = claim_messages(new_claims(claims, wanted));
    let changed = changed_messages(claims, wanted, same_path);
    let rest = removed_messages(claims, wanted);
    let messages = first + changed + rest;
    let m = lemma_retarget_in_changed(claims, wanted, same_path, k);
    assert(old_claim.control == wanted[k].control);
    let at = first.len() + m;
    assert(messages[at] == changed[m]);
    assert(messages[at + 1] == changed[m + 1]);
}

/// Where in `changed_messages` the re-claim of the wanted region at `k` stands
proof fn lemma_retarget_in_changed<P>(
    claims: Seq<PieFocusRegion<P>>,
    wanted: Seq<PieFocusRegion<P>>,
    same_path: Seq<bool>,
    k: int,
) -> (m: int)
    requires
        0 <= k < wanted.len(),
        has_control(claims, wanted[k].control),
        claims[control_index(claims, wanted[k].control)].target != wanted[k].target,
    ensures
        ({
            let old_claim = claims[control_index(claims, wanted[k].control)];
            let changed = changed_messages(claims, wanted, same_path);
            &&& 0 <= m && m + 1 < changed.len()
            &&& changed[m] == ClaimUpdate::RemoveClaim(old_claim.target, old_claim.control)
            &&& changed[m + 1] == ClaimUpdate::Claim(wanted[k].control)
        }),
    decreases wanted.len(),
{
    let before = changed_messages(claims, wanted.drop_last(), same_path);
    if k == wanted.len() - 1 {
        before.len() as int
    } else {
        assert(wanted.drop_last()[k] == wanted[k]);
        lemma_retarget_in_changed(claims, wanted.drop_last(), same_path, k)
    }
}

/// After an update, exactly the wanted controls have claims
pub proof fn law_update_claims_wanted_controls<P>(
    claims: Seq<PieFocusRegion<P>>,
    wanted: Seq<PieFocusRegion<P>>,
    same_path: Seq<bool>,
    control: ControlId,
)
    requires
        unique_controls(claims),
        unique_controls(wanted),
    ensures
        has_control(kept_claims(claims, wanted, same_path) + new_claims(claims, wanted), control)
            <==> has_control(wanted, control),
{
    broadcast use vstd::seq_lib::group_filter_ensures;
    let p = |c: PieFocusRegion<P>| has_control(wanted, c.control);
    let q = |r: PieFocusRegion<P>| !has_control(claims, r.control);
    let filtered = claims.filter(p);
    let kept = kept_claims(claims, wanted, same_path);
    let added = new_claims(claims, wanted);
    let all = kept + added;
    assert forall|i: int| 0 <= i < kept.len() implies #[trigger] kept[i].control == filtered[i].control by {
        claims.lemma_filter_pred(p, i);
        let j = control_index(wanted, filtered[i].control);
        assert(wanted[j].control == filtered[i].control);
    }
    if has_control(all, control) {
        let i = choose|i: int| 0 <= i < all.len() && #[trigger] all[i].control == control;
        if i < kept.len() {
            assert(kept[i].control == control);
            claims.lemma_filter_pred(p, i);
        } else {
            let y = i - kept.len();
            assert(added[y].control == control);
            assert(added.contains(added[y]));
            wanted.lemma_filter_contains_rev(q, added[y]);
            let m = choose|m: int| 0 <= m < wanted.len() && wanted[m] == added[y];
            assert(wanted[m].control == control);
        }
    }
    if has_control(wanted, control) {
        let j = choose|j: int| 0 <= j < wanted.len() && #[trigger] wanted[j].control == control;
        if has_control(claims, control) {
            let k = choose|k: int| 0 <= k < claims.len() && #[trigger] claims[k].control == control;
            assert(p(claims[k]));
            claims.lemma_filter_contains(p, k);
            let x = choose|x: int| 0 <= x < filtered.len() && filtered[x] == claims[k];
            assert(kept[x].control == control);
            assert(all[x].control == control);
        } else {
            assert(q(wanted[j]));
            wanted.lemma_filter_contains(q, j);
            let y = choose|y: int| 0 <= y < added.len() && added[y] == wanted[j];
            assert(all[kept.len() + y].control == control);
        }
    }
}

/// Filtering a list with one region per control keeps one region per control
proof fn lemma_filter_keeps_unique<P>(regions: Seq<PieFocusRegion<P>>, keep: spec_fn(PieFocusRegion<P>) -> bool)
    requires
        unique_controls(regions),
    ensures
        unique_controls(regions.filter(keep)),
    decreases regions.len(),
{
    reveal(Seq::filter);
    if regions.len() > 0 {
        let rest = regions.drop_last();
        let last = regions.last();
        assert(unique_controls(rest)) by {
            assert forall|i: int, j: int| 0 <= i < rest.len() && 0 <= j < rest.len() && i != j
                implies #[trigger] rest[i].control != #[trigger] rest[j].control by {
                assert(regions[i].control != regions[j].control);
            }
        }
        lemma_filter_keeps_unique(rest, keep);
        let filtered_rest = rest.filter(keep);
        if keep(last) {
            let filtered = filtered_rest.push(last);
            assert forall|i: int, j: int| 0 <= i < filtered.len() && 0 <= j < filtered.len() && i != j
                implies #[trigger] filtered[i].control != #[trigger] filtered[j].control by {
                if i < filtered_rest.len() && j < filtered_rest.len() {
                    assert(filtered_rest[i].control != filtered_rest[j].control);
                } else {
                    let x = if i < filtered_rest.len() { i } else { j };
                    assert(0 <= x < filtered_rest.len());
                    let e = filtered_rest[x];
                    assert(filtered_rest.contains(e));
                    rest.lemma_filter_contains_rev(keep, e);
                    let m = choose|m: int| 0 <= m < rest.len() && rest[m] == e;
                    assert(regions[m] == e);
                    assert(regions[m].control != regions[regions.len() - 1].control);
                }
            }
        }
    }
}

/// True if no two regions in the list are for the same control
pub fn has_unique_controls<P>(regions: &Vec<PieFocusRegion<P>>) -> (unique: bool)
    ensures
        unique == unique_controls(regions@),
{
    let mut i: usize = 0;
    while i < regions.len()
        invariant
            i <= regions.len(),
            forall|a: int, b: int| 0 <= a < i && 0 <= b < regions@.len() && a != b
                ==> #[trigger] regions@[a].control != #[trigger] regions@[b].control,
        decreases regions.len() - i,
    {
        let mut j: usize = 0;
        while j < regions.len()
            invariant
                i < regions.len(),
                j <= regions.len(),
                forall|a: int, b: int| 0 <= a < i && 0 <= b < regions@.len() && a != b
                    ==> #[trigger] regions@[a].control != #[trigger] regions@[b].control,
                forall|b: int| 0 <= b < j && b != i ==> regions@[i as int].control != #[trigger] regions@[b].control,
            decreases regions.len() - j,
        {
            if j != i && regions[i].control.0 == regions[j].control.0 {
                assert(regions@[i as int].control == regions@[j as int].control);
                return false;
            }
            j = j + 1;
        }
        i = i + 1;
    }
    true
}

/// Finds the position of the region for a control
fn find_control<P>(regions: &Vec<PieFocusRegion<P>>, control: ControlId) -> (idx: Option<usize>)
    ensures
        match idx {
            Some(i) => i < regions@.len() && regions@[i as int].control == control,
            None => !has_control(regions@, control),
        },
{
    let mut idx: usize = 0;
    while idx < regions.len()
        invariant
            idx <= regions.len(),
            forall|j: int| 0 <= j < idx ==> regions@[j].control != control,
        decreases regions.len() - idx,
    {
        if regions[idx].control.0 == control.0 {
            return Some(idx);
        }
        idx = idx + 1;
    }
    None
}

} // verus!
