//! The wall clock, as far as a deadline needs it.

use std::time::Instant;
use vstd::prelude::*;

verus! {

/// `std::time::Instant`, opaque to the verifier.
#[verifier::external_type_specification]
#[verifier::external_body]
pub struct ExInstant(Instant);

/// `Instant::now`: the time of the call. It differs from call to call, so
/// nothing is stated about it.
#[verifier::external_body]
pub(crate) fn now() -> (time: Instant) {
    Instant::now()
}

/// `>=` of `Instant`: whether `time` is `deadline` or later. Nothing is
/// stated about it.
#[verifier::external_body]
pub(crate) fn reached(time: Instant, deadline: Instant) -> (late: bool) {
    time >= deadline
}

} // verus!
