use flo_scene::SubProgramId;
use flo_ui::dialog::pie::{has_unique_controls, ClaimUpdate, PieClaims, PieFocusRegion};
use flo_ui::subprograms::ControlId;

fn region(path: &'static str, control: ControlId, target: SubProgramId, z_index: usize) -> PieFocusRegion<&'static str> {
    PieFocusRegion { path, control, target, z_index }
}

#[test]
fn pie_claims_follow_the_wanted_regions() {
    let p = SubProgramId::called("pie_claims_p");
    let q = SubProgramId::called("pie_claims_q");
    let (c1, c2, c3) = (ControlId::new(), ControlId::new(), ControlId::new());
    let mut claims = PieClaims::<&'static str>::new();

    // New controls are claimed
    let wanted = vec![region("a", c1, p, 0), region("b", c2, p, 1)];
    assert!(has_unique_controls(&wanted));
    let messages = claims.update(wanted, &vec![false, false]);
    assert_eq!(messages, vec![ClaimUpdate::Claim(c1), ClaimUpdate::Claim(c2)]);
    assert_eq!(claims.regions().len(), 2);

    // An unchanged control sends nothing, a changed one is removed and claimed again
    let wanted = vec![region("a", c1, p, 0), region("b2", c2, p, 1), region("c", c3, q, 0)];
    let messages = claims.update(wanted, &vec![true, false, false]);
    assert_eq!(messages, vec![ClaimUpdate::Claim(c3), ClaimUpdate::RemoveClaim(p, c2), ClaimUpdate::Claim(c2)]);
    assert_eq!(claims.claim_for(c2).unwrap().path, "b2");
    assert_eq!(claims.claim_for(c3).unwrap().target, q);

    // Controls that are no longer wanted are removed
    let wanted = vec![region("c", c3, q, 0)];
    let messages = claims.update(wanted, &vec![true]);
    assert_eq!(messages, vec![ClaimUpdate::RemoveClaim(p, c1), ClaimUpdate::RemoveClaim(p, c2)]);
    assert_eq!(claims.regions().len(), 1);
    assert!(claims.claim_for(c1).is_none());

    // A change of target re-claims with the new target; the z-index of a claim stays as first claimed
    let wanted = vec![region("c", c3, p, 4)];
    let messages = claims.update(wanted, &vec![true]);
    assert_eq!(messages, vec![ClaimUpdate::RemoveClaim(q, c3), ClaimUpdate::Claim(c3)]);
    assert_eq!(claims.claim_for(c3).unwrap().target, p);
    assert_eq!(claims.claim_for(c3).unwrap().z_index, 0);
}

#[test]
fn duplicate_controls_are_detected() {
    let p = SubProgramId::called("pie_claims_dup");
    let c = ControlId::new();
    assert!(!has_unique_controls(&vec![region("a", c, p, 0), region("b", c, p, 0)]));
    assert!(has_unique_controls(&Vec::<PieFocusRegion<&str>>::new()));
}
