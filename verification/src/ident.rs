//! Identifiers of approvals.

use uuid::Uuid;
use vstd::prelude::*;

verus! {

/// The identifier of an approval: a UUID, held as its 128-bit value.
#[derive(Clone, Copy, Debug, PartialEq, Eq, Structural, Hash)]
pub struct ApprovalId {
    pub value: u128,
}

/// The bits that mark a 128-bit value as a random (version 4) UUID of the
/// RFC 4122 variant: the version nibble is 4 and the variant bits are `10`.
pub open spec fn is_random_uuid(value: u128) -> bool {
    value & 0x0000_0000_0000_f000_c000_0000_0000_0000u128
        == 0x0000_0000_0000_4000_8000_0000_0000_0000u128
}

/// Draws a UUID with `uuid::Uuid::new_v4` and hands out its 128-bit value
/// (`Uuid::as_u128`).
///
/// Trusted: the value is random, so the contract claims only what `new_v4`
/// gives every value it returns, the version and variant bits. It panics if
/// the operating system's random source fails.
#[verifier::external_body]
fn fresh_uuid() -> (value: u128)
    ensures
        is_random_uuid(value),
{
    Uuid::new_v4().as_u128()
}

impl ApprovalId {
    /// A fresh random identifier.
    pub fn random() -> (id: ApprovalId)
        ensures
            is_random_uuid(id.value),
    {
        ApprovalId { value: fresh_uuid() }
    }
}

} // verus!
