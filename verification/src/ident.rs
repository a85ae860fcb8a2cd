//! Task identifiers.

use vstd::prelude::*;

verus! {

/// The identifier of a task: the 128 bits of a UUID, most significant byte
/// first. It is drawn once, when the task is created, and never changes.
pub type TaskID = u128;

/// The bits of an identifier that hold the version and the variant of a UUID.
pub const VERSION_AND_VARIANT_MASK: u128 = 0x0000_0000_0000_F000_C000_0000_0000_0000;

/// Those bits in a random (version 4) UUID of the variant of RFC 4122.
pub const RANDOM_VERSION_AND_VARIANT: u128 = 0x0000_0000_0000_4000_8000_0000_0000_0000;

/// Whether `id` is laid out as a random UUID.
pub open spec fn is_random_id(id: TaskID) -> bool {
    id & VERSION_AND_VARIANT_MASK == RANDOM_VERSION_AND_VARIANT
}

/// Draws a fresh identifier with `uuid::Uuid::new_v4` and hands out its bits
/// as `uuid::Uuid::as_u128` gives them.
///
/// Trusted: the outcome is random, and all that is claimed of it is what
/// `new_v4` sets whatever was drawn: version 4 and the RFC 4122 variant.
#[verifier::external_body]
pub(crate) fn fresh_id() -> (id: TaskID)
    ensures
        is_random_id(id),
{
    uuid::Uuid::new_v4().as_u128()
}

} // verus!
