//! Fresh identifiers for entities that come without one.

use vstd::prelude::*;

verus! {

/// The bits of an identifier that say how it was made.
pub const KIND_MASK: u128 = 0x0000_0000_0000_f000_c000_0000_0000_0000;

/// What those bits hold in an identifier that was drawn at random.
pub const KIND_RANDOM: u128 = 0x0000_0000_0000_4000_8000_0000_0000_0000;

/// `id` is marked as drawn at random (a version 4 UUID).
pub open spec fn is_random_id(id: u128) -> bool {
    id & KIND_MASK == KIND_RANDOM
}

/// A fresh identifier, drawn at random.
///
/// Trusted: calls `Uuid::new_v4` of `uuid` and reads the result with
/// `Uuid::as_u128`. `new_v4` takes 128 random bits from the operating system
/// and overwrites the version and variant bits with those of version 4;
/// `as_u128` packs the sixteen bytes, first byte highest. Nothing is claimed
/// of the other bits: two calls may differ.
#[verifier::external_body]
pub(crate) fn fresh_id() -> (id: u128)
    ensures
        is_random_id(id),
{
    uuid::Uuid::new_v4().as_u128()
}

} // verus!
