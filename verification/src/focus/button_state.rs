use vstd::prelude::*;

verus! {

/// A button on a mouse or other pointing device
#[derive(Clone, Copy, Debug, PartialEq, Eq, Structural, Hash)]
pub enum PointerButton {
    Left,
    Middle,
    Right,
    Other(u64),
}

/// The current state of the pointer buttons
pub struct ButtonState {
    /// The buttons that are currently down, each listed once
    is_down: Vec<PointerButton>,
}

impl ButtonState {
    /// The set of buttons that are currently down
    pub closed spec fn down(&self) -> Set<PointerButton> {
        self.is_down@.to_set()
    }

    #[verifier::type_invariant]
    spec fn each_button_once(&self) -> bool {
        self.is_down@.no_duplicates()
    }

    /// Creates a new button state, with no buttons down
    pub fn new() -> (state: Self)
        ensures
            state.down() == Set::<PointerButton>::empty(),
    {
        let state = ButtonState { is_down: Vec::new() };
        assert(state.is_down@.to_set() =~= Set::<PointerButton>::empty());
        state
    }

    /// Updates the buttons that are down (a button listed more than once counts once)
    pub fn set_buttons(&mut self, pressed_buttons: &Vec<PointerButton>)
        ensures
            final(self).down() == pressed_buttons@.to_set(),
    {
        broadcast use vstd::seq_lib::group_seq_properties;
        let mut is_down: Vec<PointerButton> = Vec::new();
        let mut idx: usize = 0;
        while idx < pressed_buttons.len()
            invariant
                idx <= pressed_buttons.len(),
                is_down@.no_duplicates(),
                is_down@.to_set() =~= pressed_buttons@.take(idx as int).to_set(),
            decreases pressed_buttons.len() - idx,
        {
            let button = pressed_buttons[idx];
            proof {
                assert(pressed_buttons@.take(idx + 1) =~= pressed_buttons@.take(idx as int).push(button));
                pressed_buttons@.take(idx as int).lemma_push_to_set_commute(button);
            }
            if !contains_button(&is_down, button) {
                proof {
                    is_down@.lemma_push_to_set_commute(button);
                }
                is_down.push(button);
            } else {
                assert(is_down@.to_set().contains(button));
                assert(is_down@.to_set().insert(button) =~= is_down@.to_set());
            }
            idx = idx + 1;
        }
        assert(pressed_buttons@.take(pressed_buttons.len() as int) =~= pressed_buttons@);
        self.is_down = is_down;
    }

    /// Number of buttons that are down
    pub fn num_buttons_down(&self) -> (count: usize)
        ensures
            count == self.down().len(),
    {
        proof {
            use_type_invariant(self);
            self.is_down@.unique_seq_to_set();
        }
        self.is_down.len()
    }
}

/// True if `buttons` holds `button`
fn contains_button(buttons: &Vec<PointerButton>, button: PointerButton) -> (found: bool)
    ensures
        found == buttons@.contains(button),
{
    let mut idx: usize = 0;
    while idx < buttons.len()
        invariant
            idx <= buttons.len(),
            forall|j: int| 0 <= j < idx ==> buttons@[j] != button,
        decreases buttons.len() - idx,
    {
        if buttons[idx] == button {
            return true;
        }
        idx = idx + 1;
    }
    false
}

} // verus!
