//! The monotonic clock of the standard library, as far as the normalizer needs it.

use std::time::{Duration, Instant};
use vstd::prelude::*;

verus! {

#[verifier::external_type_specification]
#[verifier::external_body]
pub struct ExInstant(Instant);

/// `Instant::now`: the present moment on the monotonic clock. What it returns depends on
/// when it is called, so nothing is claimed of it.
#[verifier::external_body]
pub(crate) fn now() -> (moment: Instant) {
    Instant::now()
}

/// `Instant::elapsed`: the time that has passed since `since`. It depends on the clock,
/// so nothing is claimed of it.
#[verifier::external_body]
pub(crate) fn elapsed(since: &Instant) -> (passed: Duration) {
    since.elapsed()
}

/// `>` on `Duration`: whether `passed` is longer than `budget`. A `Duration` is opaque
/// to the proofs, so nothing is claimed of the answer.
#[verifier::external_body]
pub(crate) fn longer(passed: &Duration, budget: &Duration) -> (exceeded: bool) {
    passed > budget
}

} // verus!
