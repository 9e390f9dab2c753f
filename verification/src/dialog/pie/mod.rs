//! Pie dialogs
//!
//! These are circular dialog boxes with custom controls designed for this case, along with some custom
//! rendering and animation functions for creating them.

mod pie_animation;
mod drawing_binding;
mod pie_focus;

pub use pie_animation::PieAnimation;
pub use drawing_binding::{DrawingKind, DrawingSplit, split_drawing, shapes_after_clear, immediate_instructions, clears, law_shapes_follow_the_last_clear};
pub use pie_focus::{
    PieFocusRegion, ClaimUpdate, PieClaims, has_control, control_index, unique_controls, flag_at, unchanged, refreshed,
    new_claims, claim_messages, changed_messages, removed_messages, updated_claim, kept_claims,
    lemma_kept_and_added_unique, has_unique_controls,
    law_update_claims_wanted_controls, law_update_claims_take_wanted_targets, law_retargeted_claim_is_reclaimed,
};
