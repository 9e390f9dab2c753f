use flo_scene::SubProgramId;
use flo_ui::dialog::pie::{split_drawing, DrawingKind, PieAnimation};
use flo_ui::focus::{ButtonState, FocusProgram, PointerButton, RegionHit};
use flo_ui::subprograms::{same_optional_program, subprogram_focus, ControlId, RegionId};

#[test]
fn ids_are_unique() {
    assert_ne!(RegionId::new(), RegionId::new());
    assert_ne!(ControlId::new(), ControlId::new());
}

#[test]
fn focus_subprogram_has_a_well_known_name() {
    assert_eq!(subprogram_focus(), SubProgramId::called("flo_ui::focus"));
    assert!(same_optional_program(&Some(subprogram_focus()), &Some(SubProgramId::called("flo_ui::focus"))));
    assert!(!same_optional_program(&Some(subprogram_focus()), &Some(SubProgramId::called("something_else"))));
    assert!(same_optional_program(&None, &None));
    assert!(!same_optional_program(&Some(subprogram_focus()), &None));
}

#[test]
fn buttons_count_once() {
    let mut buttons = ButtonState::new();
    assert_eq!(buttons.num_buttons_down(), 0);
    buttons.set_buttons(&vec![PointerButton::Left, PointerButton::Right, PointerButton::Left, PointerButton::Other(4)]);
    assert_eq!(buttons.num_buttons_down(), 3);
    buttons.set_buttons(&vec![]);
    assert_eq!(buttons.num_buttons_down(), 0);
}

#[test]
fn removing_claims() {
    let program_a = SubProgramId::called("remove_a");
    let program_b = SubProgramId::called("remove_b");
    let (region_a, region_b) = (RegionId::new(), RegionId::new());
    let (control_a, control_b) = (ControlId::new(), ControlId::new());
    let mut focus = FocusProgram::<u32>::new();
    focus.claim_region(region_a, program_a, 1, None, 0);
    focus.claim_region(region_b, program_b, 2, None, 0);
    focus.claim_region(region_b, program_a, 3, Some(control_a), 0);
    focus.claim_region(region_b, program_b, 4, Some(control_b), 0);

    let mut targets = focus.all_event_targets();
    targets.sort();
    let mut expected = vec![program_a, program_b];
    expected.sort();
    assert_eq!(targets, expected);

    // Stopping program A takes out its region and its control in region B
    focus.remove_program_claims(program_a);
    assert_eq!(focus.region_claims().len(), 1);
    assert_eq!(focus.region_claims()[0].id, region_b);
    assert_eq!(focus.region_claims()[0].controls.len(), 1);
    assert_eq!(focus.region_claims()[0].controls[0].shape, 4);
    assert_eq!(focus.all_event_targets(), vec![program_b]);

    focus.remove_control_claims(region_b, control_b);
    assert_eq!(focus.region_claims()[0].controls.len(), 0);
    assert_eq!(focus.region_claims()[0].shape, Some(2));

    focus.remove_region_claims(region_b);
    assert_eq!(focus.region_claims().len(), 0);
    assert_eq!(focus.find_event_target(region_b, control_b), None);
}

#[test]
fn reclaiming_a_region_replaces_its_shape() {
    let program_a = SubProgramId::called("reclaim_a");
    let program_b = SubProgramId::called("reclaim_b");
    let region = RegionId::new();
    let mut focus = FocusProgram::<&str>::new();
    assert_eq!(focus.claim_region(region, program_a, "first", None, 2), Some(program_a));
    assert_eq!(focus.claim_region(region, program_b, "second", None, 7), None);
    let claims = focus.region_claims();
    assert_eq!(claims.len(), 1);
    assert_eq!(claims[0].shape, Some("second"));
    assert_eq!(claims[0].z_index, 7);
    assert_eq!(claims[0].event_target, program_b);
}

#[test]
fn removing_program_focus() {
    let program_a = SubProgramId::called("focus_removed");
    let program_b = SubProgramId::called("focus_kept");
    let (region_a, region_b) = (RegionId::new(), RegionId::new());
    let (a1, b1) = (ControlId::new(), ControlId::new());
    let mut focus = FocusProgram::<()>::new();
    focus.claim_region(region_a, program_a, (), None, 0);
    focus.claim_region(region_b, program_b, (), None, 0);
    focus.set_following_control(region_a, a1, a1);
    focus.set_following_control(region_b, b1, b1);
    assert_eq!(focus.next_region(Some(region_a)), Some(region_b));

    focus.remove_program_focus(program_a);
    assert_eq!(focus.next_region(Some(region_a)), None);
    assert_eq!(focus.next_region(Some(region_b)), Some(region_b));
    assert_eq!(focus.next_control(Some(region_a), Some(a1)), None);
    assert_eq!(focus.next_control(Some(region_b), Some(b1)), Some((region_b, b1)));
}

#[test]
fn stopped_program_loses_claims_and_focus() {
    let program_a = SubProgramId::called("stopped_program");
    let program_b = SubProgramId::called("running_program");
    let (region_a, region_b) = (RegionId::new(), RegionId::new());
    let (a1, b1) = (ControlId::new(), ControlId::new());
    let mut focus = FocusProgram::<()>::new();
    focus.claim_region(region_a, program_a, (), None, 0);
    focus.claim_region(region_b, program_b, (), None, 0);
    focus.set_following_control(region_a, a1, a1);
    focus.set_following_control(region_b, b1, b1);

    focus.remove_stopped_program(program_a);
    assert_eq!(focus.region_claims().len(), 1);
    assert_eq!(focus.find_event_target(region_a, a1), None);
    assert_eq!(focus.find_event_target(region_b, b1), Some(program_b));
    assert_eq!(focus.next_region(Some(region_a)), None);
    assert_eq!(focus.next_region(Some(region_b)), Some(region_b));
    assert_eq!(focus.next_control(Some(region_a), Some(a1)), None);
    assert_eq!(focus.next_control(Some(region_b), Some(b1)), Some((region_b, b1)));
}

#[test]
fn point_inside_region() {
    assert!(RegionHit { in_shape: true, in_controls: vec![] }.point_is_inside());
    assert!(RegionHit { in_shape: false, in_controls: vec![false, true] }.point_is_inside());
    assert!(!RegionHit { in_shape: false, in_controls: vec![false, false] }.point_is_inside());
}

#[test]
fn drawing_splits_at_the_last_clear() {
    let (shape, state, clear, resource, unsupported) =
        (DrawingKind::Shape, DrawingKind::State, DrawingKind::Clear, DrawingKind::Resource, DrawingKind::Unsupported);
    let split = split_drawing(&vec![shape, resource, clear, state, shape, unsupported, resource, state]);
    assert!(split.cleared);
    assert_eq!(split.shapes, vec![3, 4, 7]);
    assert_eq!(split.immediate, vec![1, 3, 6, 7]);

    let split = split_drawing(&vec![shape, state, shape]);
    assert!(!split.cleared);
    assert_eq!(split.shapes, vec![0, 1, 2]);
    assert_eq!(split.immediate, vec![1]);

    let split = split_drawing(&vec![]);
    assert!(!split.cleared && split.shapes.is_empty() && split.immediate.is_empty());
}

#[test]
fn pie_animations_compare() {
    assert_eq!(PieAnimation::ExpandFanOut, PieAnimation::ExpandFanOut);
    assert_ne!(PieAnimation::Pop, PieAnimation::Expand);
    assert_ne!(PieAnimation::FanOut, PieAnimation::Expand);
}

#[test]
fn canvas_receives_events_outside_regions() {
    let canvas = SubProgramId::called("canvas_only");
    let mut focus = FocusProgram::<()>::new();
    assert_eq!(focus.canvas_program(), None);
    focus.set_canvas(canvas);
    assert_eq!(focus.canvas_program(), Some(canvas));
    let commands = focus.set_pointer_target(&Some(vec![]), false);
    assert_eq!(commands.len(), 2);
    assert_eq!(focus.pointer_target_program(), Some(canvas));
}

#[test]
fn ids_are_random_uuids() {
    for _ in 0..16 {
        let region = RegionId::new().0;
        let control = ControlId::new().0;
        assert_eq!((region >> 76) & 0xf, 4);
        assert_eq!((region >> 62) & 0x3, 2);
        assert_eq!((control >> 76) & 0xf, 4);
        assert_eq!((control >> 62) & 0x3, 2);
        assert_eq!(uuid::Uuid::from_u128(region).get_version_num(), 4);
    }
}
