use vstd::prelude::*;

use flo_scene::SubProgramId;

verus! {

#[verifier::external_type_specification]
#[verifier::external_body]
pub struct ExSubProgramId(SubProgramId);

/// The layout of a random (version 4, RFC 9562 variant) UUID read as a big-endian 128-bit
/// value: the version nibble (bits 76 to 79) is 4 and the variant bits (62 and 63) are `10`.
pub open spec fn is_random_uuid(bits: u128) -> bool {
    &&& (bits >> 76u128) & 0xfu128 == 4u128
    &&& (bits >> 62u128) & 0x3u128 == 2u128
}

/// Draws a fresh random identifier by calling `uuid::Uuid::new_v4` and reading it with
/// `as_u128`. `new_v4` masks a random `u128` and sets the version and variant bits, and
/// `from_u128` / `as_u128` keep the value as it is, so the result has the layout of a random
/// UUID. Nothing else is promised of the value: the other 122 bits come from the system's
/// random number generator.
#[verifier::external_body]
pub(crate) fn new_unique_id() -> (bits: u128)
    ensures
        is_random_uuid(bits),
{
    uuid::Uuid::new_v4().as_u128()
}

/// Compares two subprogram IDs with `SubProgramId`'s `==`. The type derives `PartialEq` over
/// plain values (a name index, a UUID, a task number), so the result is structural equality.
#[verifier::external_body]
pub(crate) fn same_program(a: &SubProgramId, b: &SubProgramId) -> (same: bool)
    ensures
        same == (*a == *b),
{
    *a == *b
}

/// Creates the subprogram ID with a well-known name by calling `SubProgramId::called`.
/// Nothing is promised of the result: the name is interned in a table that the process fills
/// as names are first seen.
#[verifier::external_body]
fn program_called(name: &str) -> (id: SubProgramId) {
    SubProgramId::called(name)
}

/// Subprogram ID for the default 'focus' subprogram in a scene
pub fn subprogram_focus() -> (id: SubProgramId) {
    program_called("flo_ui::focus")
}

/// True if two optional subprogram IDs are the same
pub fn same_optional_program(a: &Option<SubProgramId>, b: &Option<SubProgramId>) -> (same: bool)
    ensures
        same == (*a == *b),
{
    match (a, b) {
        (Some(a), Some(b)) => same_program(a, b),
        (None, None) => true,
        _ => false,
    }
}

} // verus!
