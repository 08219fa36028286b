//! Fresh identities for new rows.
use vstd::prelude::*;

verus! {

/// Relies on uuid::Uuid::new_v4 and Uuid::as_u128: a random version-4 UUID
/// in its numeric form. Nothing is promised of the value: callers check that
/// it is not in use.
#[verifier::external_body]
pub(crate) fn new_uuid() -> (r: u128) {
    uuid::Uuid::new_v4().as_u128()
}

} // verus!
