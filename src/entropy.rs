use vstd::prelude::*;

verus! {

/// Relies on rand::random: a fresh seed drawn from the thread-local
/// generator. Nothing is known of its value.
#[verifier::external_body]
pub(crate) fn fresh_seed() -> (r: u64) {
    rand::random::<u64>()
}

/// Relies on uuid::Uuid::new_v4 and Uuid::as_u128: a fresh random
/// identifier, as its 128-bit value. Nothing is known of its value.
#[verifier::external_body]
pub(crate) fn fresh_match_id() -> (r: u128) {
    uuid::Uuid::new_v4().as_u128()
}

} // verus!
