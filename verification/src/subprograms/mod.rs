//! Identifiers for the regions, controls and subprograms that the focus subprogram routes events to.

mod region_id;
mod control_id;
mod program_id;

pub use region_id::RegionId;
pub use control_id::ControlId;
pub use program_id::{is_random_uuid, same_optional_program, subprogram_focus};
pub(crate) use program_id::same_program;
