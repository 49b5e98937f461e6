//! Turning delivered random bytes into a cell index.
use vstd::prelude::*;

verus! {

/// The number that the outside sampler draws from 32 random bytes for the
/// range from `min_value` to `max_value`.
pub uninterp spec fn sampled_in_range(bytes: Seq<u8>, min_value: u8, max_value: u8) -> u8;

/// Calls `ephemeral_vrf_sdk::rnd::random_u8_with_range`.
///
/// Trusted, not proved: the result is a function of the three arguments
/// alone, written `sampled_in_range`, and lies between `min_value` and
/// `max_value`, both included. The outside function panics when `min_value`
/// exceeds `max_value`, which the precondition rules out.
#[verifier::external_body]
pub(crate) fn random_in_range(bytes: &[u8; 32], min_value: u8, max_value: u8) -> (drawn: u8)
    requires
        min_value <= max_value,
    ensures
        drawn == sampled_in_range(bytes@, min_value, max_value),
        min_value <= drawn <= max_value,
{
    ephemeral_vrf_sdk::rnd::random_u8_with_range(bytes, min_value, max_value)
}

} // verus!
