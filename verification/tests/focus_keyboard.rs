use flo_scene::SubProgramId;
use flo_ui::focus::{FocusProgram, KeyboardFocusChange};
use flo_ui::subprograms::{ControlId, RegionId};

/// A focus state with one region, claimed by `program`, and four controls in keyboard order
fn four_controls(program: SubProgramId) -> (FocusProgram<()>, RegionId, [ControlId; 4]) {
    let mut focus = FocusProgram::<()>::new();
    let region = RegionId::new();
    let controls = [ControlId::new(), ControlId::new(), ControlId::new(), ControlId::new()];

    focus.claim_region(region, program, (), None, 0);
    focus.set_following_control(region, controls[0], controls[1]);
    focus.set_following_control(region, controls[1], controls[2]);
    focus.set_following_control(region, controls[2], controls[3]);

    (focus, region, controls)
}

fn expect_focus(change: &KeyboardFocusChange, program: SubProgramId, control: ControlId) {
    assert_eq!(change.focus, Some((program, control)));
}

fn expect_unfocus(change: &KeyboardFocusChange, program: SubProgramId, control: ControlId) {
    assert_eq!(change.unfocus, Some((program, control)));
}

#[test]
fn focus_following_control() {
    let test_program = SubProgramId::called("focus_following_control");
    let (mut focus, region, [control_1, control_2, control_3, control_4]) = four_controls(test_program);

    let change = focus.set_keyboard_focus(region, control_1, true);
    assert_eq!(change.unfocus, None);
    expect_focus(&change, test_program, control_1);

    let change = focus.focus_next(true).unwrap();
    expect_unfocus(&change, test_program, control_1);
    expect_focus(&change, test_program, control_2);

    let change = focus.focus_next(true).unwrap();
    expect_unfocus(&change, test_program, control_2);
    expect_focus(&change, test_program, control_3);

    let change = focus.focus_next(true).unwrap();
    expect_unfocus(&change, test_program, control_3);
    expect_focus(&change, test_program, control_4);
}

#[test]
fn focus_previous_control() {
    let test_program = SubProgramId::called("focus_following_control");
    let (mut focus, region, [control_1, control_2, control_3, control_4]) = four_controls(test_program);

    let change = focus.set_keyboard_focus(region, control_4, true);
    expect_focus(&change, test_program, control_4);

    let change = focus.focus_previous(true).unwrap();
    expect_unfocus(&change, test_program, control_4);
    expect_focus(&change, test_program, control_3);

    let change = focus.focus_previous(true).unwrap();
    expect_unfocus(&change, test_program, control_3);
    expect_focus(&change, test_program, control_2);

    let change = focus.focus_previous(true).unwrap();
    expect_unfocus(&change, test_program, control_2);
    expect_focus(&change, test_program, control_1);
}

#[test]
fn focus_previous_control_makes_loop() {
    let test_program = SubProgramId::called("focus_following_control");
    let (mut focus, region, [control_1, control_2, control_3, control_4]) = four_controls(test_program);

    let change = focus.set_keyboard_focus(region, control_4, true);
    expect_focus(&change, test_program, control_4);

    let change = focus.focus_previous(true).unwrap();
    expect_unfocus(&change, test_program, control_4);
    expect_focus(&change, test_program, control_3);

    let change = focus.focus_previous(true).unwrap();
    expect_unfocus(&change, test_program, control_3);
    expect_focus(&change, test_program, control_2);

    let change = focus.focus_previous(true).unwrap();
    expect_unfocus(&change, test_program, control_2);
    expect_focus(&change, test_program, control_1);

    let change = focus.focus_previous(true).unwrap();
    expect_unfocus(&change, test_program, control_1);
    expect_focus(&change, test_program, control_4);
}

#[test]
fn focus_following_control_makes_loop() {
    let test_program = SubProgramId::called("focus_following_control");
    let (mut focus, region, [control_1, control_2, control_3, control_4]) = four_controls(test_program);

    let change = focus.set_keyboard_focus(region, control_1, true);
    expect_focus(&change, test_program, control_1);

    let change = focus.focus_next(true).unwrap();
    expect_unfocus(&change, test_program, control_1);
    expect_focus(&change, test_program, control_2);

    let change = focus.focus_next(true).unwrap();
    expect_unfocus(&change, test_program, control_2);
    expect_focus(&change, test_program, control_3);

    let change = focus.focus_next(true).unwrap();
    expect_unfocus(&change, test_program, control_3);
    expect_focus(&change, test_program, control_4);

    let change = focus.focus_next(true).unwrap();
    expect_unfocus(&change, test_program, control_4);
    expect_focus(&change, test_program, control_1);
}

#[test]
fn keyboard_focus_moves_between_regions() {
    let program_a = SubProgramId::called("keyboard_region_a");
    let program_b = SubProgramId::called("keyboard_region_b");
    let mut focus = FocusProgram::<()>::new();
    let region_a = RegionId::new();
    let region_b = RegionId::new();
    let (a1, a2, b1) = (ControlId::new(), ControlId::new(), ControlId::new());

    focus.claim_region(region_a, program_a, (), None, 0);
    focus.claim_region(region_b, program_b, (), None, 0);
    focus.set_following_control(region_a, a1, a2);
    focus.set_following_control(region_b, b1, b1);
    focus.set_following_region(region_a, region_b);

    assert_eq!(focus.next_region(Some(region_a)), Some(region_b));
    assert_eq!(focus.next_region(Some(region_b)), Some(region_a));
    assert_eq!(focus.previous_region(Some(region_a)), Some(region_b));
    assert_eq!(focus.next_control(Some(region_a), Some(a1)), Some((region_a, a2)));
    assert_eq!(focus.next_control(Some(region_a), Some(a2)), Some((region_b, b1)));
    assert_eq!(focus.previous_control(Some(region_b), Some(b1)), Some((region_a, a2)));

    focus.set_keyboard_focus(region_a, a2, true);
    assert_eq!(focus.next_focus_target(), Some(program_b));
    let change = focus.focus_next(true).unwrap();
    assert_eq!(change.unfocus, Some((program_a, a2)));
    assert_eq!(change.focus, Some((program_b, b1)));
    assert_eq!(focus.focused_region(), Some(region_b));
}

#[test]
fn keyboard_focus_needs_a_connection() {
    let program = SubProgramId::called("keyboard_unreachable");
    let mut focus = FocusProgram::<()>::new();
    let region = RegionId::new();
    let (c1, c2) = (ControlId::new(), ControlId::new());
    focus.claim_region(region, program, (), None, 0);
    focus.set_following_control(region, c1, c2);

    focus.set_keyboard_focus(region, c1, true);
    let change = focus.set_keyboard_focus(region, c2, false);
    assert_eq!(change.unfocus, Some((program, c1)));
    assert_eq!(change.focus, None);
    assert_eq!(focus.focused_region(), None);
    assert_eq!(focus.focused_control(), None);

    // Nothing to move from
    assert!(focus.focus_next(true).is_none());
}

#[test]
fn unclaimed_region_gets_no_keyboard_focus() {
    let mut focus = FocusProgram::<()>::new();
    let change = focus.set_keyboard_focus(RegionId::new(), ControlId::new(), true);
    assert_eq!(change.unfocus, None);
    assert_eq!(change.focus, None);
    assert_eq!(focus.focused_control(), None);
}

#[test]
fn following_control_reorders_existing_controls() {
    let mut focus = FocusProgram::<()>::new();
    let region = RegionId::new();
    let (c1, c2, c3) = (ControlId::new(), ControlId::new(), ControlId::new());
    focus.set_following_control(region, c1, c2);
    focus.set_following_control(region, c2, c3);
    // Order is now c1, c2, c3; moving c3 before c1 gives c3, c1, c2
    focus.set_following_control(region, c3, c1);
    assert_eq!(focus.next_control(Some(region), Some(c3)), Some((region, c1)));
    assert_eq!(focus.next_control(Some(region), Some(c1)), Some((region, c2)));
    assert_eq!(focus.next_control(Some(region), Some(c2)), Some((region, c3)));
}
