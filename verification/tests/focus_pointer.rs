use flo_scene::SubProgramId;
use flo_ui::focus::{FocusProgram, KeyboardDestination, PointerButton, PointerCommand, RegionHit};
use flo_ui::subprograms::{ControlId, RegionId};

/// What a subprogram receives from the focus state machine in these tests
#[derive(Clone, Copy, Debug, PartialEq)]
enum Received {
    Enter(Option<ControlId>),
    Leave(Option<ControlId>),
    ButtonDown(Option<ControlId>),
    ButtonUp(Option<ControlId>),
    Move(Option<ControlId>),
    Hover(SubProgramId, Option<ControlId>),
}

/// Runs the focus state machine the way the focus subprogram does, with every connection succeeding
struct Harness {
    focus: FocusProgram<()>,
    sink: Option<SubProgramId>,
    received: Vec<(SubProgramId, Received)>,
}

impl Harness {
    fn new() -> Harness {
        Harness { focus: FocusProgram::new(), sink: None, received: vec![] }
    }

    fn send(&mut self, event: Received) {
        if let Some(target) = self.sink {
            self.received.push((target, event));
        }
    }

    fn run(&mut self, commands: Vec<PointerCommand>) {
        for command in commands {
            match command {
                PointerCommand::Leave(control) => self.send(Received::Leave(control)),
                PointerCommand::Enter(control) => self.send(Received::Enter(control)),
                PointerCommand::ConnectTo(program) => self.sink = Some(program),
                PointerCommand::Disconnect => self.sink = None,
            }
        }
    }

    fn button_down(&mut self, hits: Vec<RegionHit>, buttons: Vec<PointerButton>) {
        let commands = self.focus.set_pointer_target(&Some(hits), self.sink.is_some());
        self.run(commands);
        self.focus.set_buttons(&buttons);
        let control = self.focus.pointer_target_control();
        self.send(Received::ButtonDown(control));
    }

    fn button_up(&mut self, _hits: Vec<RegionHit>, buttons: Vec<PointerButton>) {
        // Where the pointer is does not matter: the release only sends ButtonUp to the pointer target
        let control = self.focus.release_buttons(&buttons);
        self.send(Received::ButtonUp(control));
    }

    fn move_to(&mut self, hits: Vec<RegionHit>) {
        let commands = self.focus.set_pointer_target(&Some(hits.clone()), self.sink.is_some());
        self.run(commands);
        if let Some((program, control)) = self.focus.send_hover(&Some(hits)) {
            self.send(Received::Hover(program, control));
        }
        let control = self.focus.pointer_target_control();
        self.send(Received::Move(control));
    }

    fn take(&mut self) -> Vec<(SubProgramId, Received)> {
        std::mem::take(&mut self.received)
    }
}

fn region_hit(in_shape: bool, in_controls: Vec<bool>) -> RegionHit {
    RegionHit { in_shape, in_controls }
}

fn is_enter(event: &Received) -> bool {
    matches!(event, Received::Enter(_))
}

fn is_leave(event: &Received) -> bool {
    matches!(event, Received::Leave(_))
}

#[test]
fn mouse_click_in_region() {
    let program1 = SubProgramId::called("Subprogram1");
    let program2 = SubProgramId::called("Subprogram2");
    let canvas = SubProgramId::called("CanvasProgram");
    let region1 = RegionId::new();
    let region2 = RegionId::new();

    let mut harness = Harness::new();
    harness.focus.claim_region(region1, program1, (), None, 0);
    harness.focus.claim_region(region2, program2, (), None, 1);
    harness.focus.set_canvas(canvas);

    // Circles around (300, 500) and (700, 500): where the test points lie
    let in_program1_path = || vec![region_hit(true, vec![]), region_hit(false, vec![])];
    let in_program2_path = || vec![region_hit(false, vec![]), region_hit(true, vec![])];
    let on_canvas = || vec![region_hit(false, vec![]), region_hit(false, vec![])];

    // Should keep tracking the mouse after the button goes down as staying in program 1
    harness.button_down(in_program1_path(), vec![PointerButton::Left]);
    let received = harness.take();
    assert_eq!(received.len(), 2);
    assert!(received[0].0 == program1 && is_enter(&received[0].1));
    assert!(received[1].0 == program1 && matches!(received[1].1, Received::ButtonDown(_)));

    // (the 'button down' point in program 2's path is the same point as in program 1's)
    harness.move_to(in_program1_path());
    assert_eq!(harness.take(), vec![(program1, Received::Move(None))]);
    harness.button_up(in_program2_path(), vec![]);
    assert_eq!(harness.take(), vec![(program1, Received::ButtonUp(None))]);

    // Moves should get sent to whichever program they're over
    harness.move_to(in_program2_path());
    let received = harness.take();
    assert_eq!(received.len(), 3);
    assert!(received[0].0 == program1 && is_leave(&received[0].1));
    assert!(received[1].0 == program2 && is_enter(&received[1].1));
    assert!(received[2].0 == program2 && matches!(received[2].1, Received::Move(_)));
    harness.move_to(in_program2_path());
    assert_eq!(harness.take(), vec![(program2, Received::Move(None))]);
    harness.move_to(in_program1_path());
    let received = harness.take();
    assert_eq!(received.len(), 3);
    assert!(received[0].0 == program2 && is_leave(&received[0].1));
    assert!(received[1].0 == program1 && is_enter(&received[1].1));
    assert!(received[2].0 == program1 && matches!(received[2].1, Received::Move(_)));
    harness.move_to(in_program1_path());
    assert_eq!(harness.take(), vec![(program1, Received::Move(None))]);

    harness.move_to(on_canvas());
    let received = harness.take();
    assert_eq!(received.len(), 3);
    assert!(received[0].0 == program1 && is_leave(&received[0].1));
    assert!(received[1].0 == canvas && is_enter(&received[1].1));
    assert!(received[2].0 == canvas && matches!(received[2].1, Received::Move(_)));
    harness.move_to(on_canvas());
    assert_eq!(harness.take(), vec![(canvas, Received::Move(None))]);
}

#[test]
fn mouse_click_in_control_region() {
    let program1 = SubProgramId::called("Subprogram1");
    let canvas = SubProgramId::called("CanvasProgram");
    let control1 = ControlId::new();
    let control2 = ControlId::new();
    let region1 = RegionId::new();

    let mut harness = Harness::new();
    harness.focus.claim_region(region1, program1, (), Some(control1), 0);
    harness.focus.claim_region(region1, program1, (), Some(control2), 1);
    harness.focus.set_canvas(canvas);

    let in_program1_path = || vec![region_hit(false, vec![true, false])];
    let in_program2_path = || vec![region_hit(false, vec![false, true])];
    let on_canvas = || vec![region_hit(false, vec![false, false])];

    // Should keep tracking the mouse after the button goes down as staying in program 1
    harness.button_down(in_program1_path(), vec![PointerButton::Left]);
    assert_eq!(harness.take(), vec![
        (program1, Received::Enter(None)),
        (program1, Received::Enter(Some(control1))),
        (program1, Received::ButtonDown(Some(control1))),
    ]);
    harness.move_to(in_program1_path());
    let received = harness.take();
    assert_eq!(received.len(), 1);
    assert!(matches!(received[0].1, Received::Move(_)));
    harness.button_up(in_program2_path(), vec![]);
    let received = harness.take();
    assert_eq!(received.len(), 1);
    assert!(matches!(received[0].1, Received::ButtonUp(_)));

    // Moves should get sent to whichever program they're over
    harness.move_to(in_program2_path());
    let received = harness.take();
    assert_eq!(received.len(), 3);
    assert!(is_leave(&received[0].1));
    assert_eq!(received[1], (program1, Received::Enter(Some(control2))));
    assert!(matches!(received[2].1, Received::Move(_)));
    harness.move_to(in_program2_path());
    assert_eq!(harness.take().len(), 1);
    harness.move_to(in_program1_path());
    let received = harness.take();
    assert_eq!(received.len(), 3);
    assert!(is_leave(&received[0].1));
    assert_eq!(received[1], (program1, Received::Enter(Some(control1))));
    assert!(matches!(received[2].1, Received::Move(_)));
    harness.move_to(in_program1_path());
    assert_eq!(harness.take().len(), 1);

    harness.move_to(on_canvas());
    let received = harness.take();
    assert_eq!(received.len(), 4);
    assert!(received[0].0 == program1 && is_leave(&received[0].1)); // Leave control
    assert!(received[1].0 == program1 && is_leave(&received[1].1)); // Leave program
    assert!(received[2].0 == canvas && is_enter(&received[2].1)); // Enter canvas
    assert!(received[3].0 == canvas && matches!(received[3].1, Received::Move(_)));
    harness.move_to(on_canvas());
    assert_eq!(harness.take(), vec![(canvas, Received::Move(None))]);
}

#[test]
fn release_over_another_program_sends_only_button_up() {
    let program1 = SubProgramId::called("drop_source");
    let program2 = SubProgramId::called("drop_target");
    let mut harness = Harness::new();
    harness.focus.claim_region(RegionId::new(), program1, (), None, 0);
    harness.focus.claim_region(RegionId::new(), program2, (), None, 1);
    let over1 = || vec![region_hit(true, vec![]), region_hit(false, vec![])];
    let over2 = || vec![region_hit(false, vec![]), region_hit(true, vec![])];

    harness.button_down(over1(), vec![PointerButton::Left]);
    harness.take();
    harness.button_up(over2(), vec![]);
    assert_eq!(harness.take(), vec![(program1, Received::ButtonUp(None))]);
    assert_eq!(harness.focus.num_buttons_down(), 0);
    assert_eq!(harness.focus.pointer_target_program(), Some(program1));

    // Where a drop would land: the destination under the pointer, leaving out the pointer target
    assert_eq!(harness.focus.send_drop(&Some(over2())), Some((program2, None)));
    assert_eq!(harness.focus.send_drop(&Some(over1())), None);
}

#[test]
fn hover_reports_other_programs_while_dragging() {
    let program1 = SubProgramId::called("hover_source");
    let program2 = SubProgramId::called("hover_target");
    let mut harness = Harness::new();
    harness.focus.claim_region(RegionId::new(), program1, (), None, 0);
    harness.focus.claim_region(RegionId::new(), program2, (), None, 0);
    let over1 = || vec![region_hit(true, vec![]), region_hit(false, vec![])];
    let over2 = || vec![region_hit(false, vec![]), region_hit(true, vec![])];

    // No hover without a button down
    harness.move_to(over2());
    harness.take();
    harness.move_to(over1());
    harness.take();
    harness.button_down(over1(), vec![PointerButton::Left]);
    harness.take();

    // Dragging over program 2 hovers it (once), events still go to program 1
    harness.move_to(over2());
    assert_eq!(harness.take(), vec![(program1, Received::Hover(program2, None)), (program1, Received::Move(None))]);
    harness.move_to(over2());
    assert_eq!(harness.take(), vec![(program1, Received::Move(None))]);
    assert_eq!(harness.focus.num_buttons_down(), 1);
}

#[test]
fn higher_z_index_wins() {
    let low = SubProgramId::called("z_low");
    let high = SubProgramId::called("z_high");
    let mut focus = FocusProgram::<()>::new();
    focus.claim_region(RegionId::new(), high, (), None, 5);
    focus.claim_region(RegionId::new(), low, (), None, 1);

    let both = Some(vec![region_hit(true, vec![]), region_hit(true, vec![])]);
    assert_eq!(flo_ui::focus::pointer_target(focus.region_claims(), &both), (Some(high), None));

    // Equal z-indexes: the later claim is on top
    let mut focus = FocusProgram::<()>::new();
    focus.claim_region(RegionId::new(), low, (), None, 1);
    focus.claim_region(RegionId::new(), high, (), None, 1);
    assert_eq!(flo_ui::focus::pointer_target(focus.region_claims(), &both), (Some(high), None));
    assert_eq!(flo_ui::focus::pointer_target(focus.region_claims(), &None), (None, None));
}

#[test]
fn control_routes_to_its_own_program() {
    let region_program = SubProgramId::called("control_region");
    let control_program = SubProgramId::called("control_owner");
    let control = ControlId::new();
    let region = RegionId::new();
    let mut focus = FocusProgram::<()>::new();
    assert_eq!(focus.claim_region(region, region_program, (), None, 0), Some(region_program));
    assert_eq!(focus.claim_region(region, control_program, (), Some(control), 3), None);

    // Inside the control: the control's program; inside only the region: the region's program
    let in_control = Some(vec![region_hit(true, vec![true])]);
    let in_region = Some(vec![region_hit(true, vec![false])]);
    assert_eq!(flo_ui::focus::pointer_target(focus.region_claims(), &in_control), (Some(control_program), Some(control)));
    assert_eq!(flo_ui::focus::pointer_target(focus.region_claims(), &in_region), (Some(region_program), None));
    assert_eq!(focus.find_event_target(region, control), Some(control_program));
    assert_eq!(focus.find_event_target(region, ControlId::new()), Some(region_program));

    // The control's own shape counts as part of the region
    assert!(region_hit(false, vec![true]).point_is_inside());
    assert!(!region_hit(false, vec![false]).point_is_inside());
}

#[test]
fn no_canvas_disconnects() {
    let program = SubProgramId::called("disconnect_program");
    let control = ControlId::new();
    let mut focus = FocusProgram::<()>::new();
    focus.claim_region(RegionId::new(), program, (), Some(control), 0);
    let commands = focus.set_pointer_target(&Some(vec![region_hit(false, vec![true])]), false);
    assert_eq!(commands, vec![PointerCommand::ConnectTo(program), PointerCommand::Enter(None), PointerCommand::Enter(Some(control))]);
    let commands = focus.set_pointer_target(&None, true);
    assert_eq!(commands, vec![PointerCommand::Leave(Some(control)), PointerCommand::Leave(None), PointerCommand::Disconnect]);
    assert_eq!(focus.pointer_target_program(), None);
    assert_eq!(focus.pointer_target_control(), None);
}

#[test]
fn keyboard_events_follow_the_pointer_target() {
    let program = SubProgramId::called("keyboard_pointer_program");
    let control = ControlId::new();
    let region = RegionId::new();
    let mut focus = FocusProgram::<()>::new();
    focus.claim_region(region, program, (), None, 0);
    focus.set_following_control(region, control, control);
    focus.set_keyboard_focus(region, control, true);

    // No pointer target: the keyboard focus receives the event, addressed to the focused control
    assert_eq!(focus.send_to_focus(), (KeyboardDestination::Focus, Some(control)));

    // With a pointer target, the event goes there instead
    focus.set_pointer_target(&Some(vec![region_hit(true, vec![])]), false);
    assert_eq!(focus.send_to_focus(), (KeyboardDestination::PointerTarget(program), Some(control)));
}
