//! The state machine behind the focus subprogram.

mod button_state;

pub use button_state::{ButtonState, PointerButton};
mod ordering;

pub use ordering::{
    Identifier, is_first_index, first_index, lemma_first_index, lemma_first_index_is,
    lemma_first_index_no_duplicates, without, insert_before, following, preceding, position_of, holds,
    remove_all, move_before,
};
mod regions;

pub use regions::{SubProgramControl, SubProgramRegion, RegionModel, RegionHit, hits_region, hits_a_control};
mod pointer_target;

pub use pointer_target::{
    PointerDestination, region_models, above, is_local_candidate, local_target, allowed, local_before,
    is_candidate, comes_before, is_allowed_candidate, is_topmost, is_destination, pointer_target_filter,
    pointer_target, lemma_destination_unique, destination_at,
};
mod focus_state;

pub use focus_state::{
    FocusProgram, unique_region_ids, has_region, region_index, control_ids, event_target_of,
    claimed_region, new_region, regions_after_claim, without_program_controls, regions_without_program, without_control, tab_view,
    regions_of_program, routes_to, event_targets, next_region_after, previous_region_before, next_control_after,
    previous_control_before, controls_in_order, with_order_for, KeyboardFocusChange, keyboard_focus_transition, KeyboardDestination, keyboard_destination, PointerCommand,
    leave_commands, pointer_transition, exclusion, event_for,
};
mod laws;

pub use laws::{
    lemma_insert_before_places_item, law_following_control_comes_next, law_following_region_comes_next,
    law_previous_undoes_next, law_next_undoes_previous, law_focus_cycles_within_region,
    law_claim_routes_to_claimant, law_removed_program_gets_no_events, law_pointer_follows_destination,
    law_pointer_stays_quiet, left_control, entered_control, law_pointer_leaves_old_control_enters_new,
    law_pointer_moves_between_controls, law_drop_names_topmost_hit, law_focus_goes_to_the_controls_owner,
    law_unfocus_goes_to_the_old_controls_owner,
};
