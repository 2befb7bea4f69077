//! The wall clock of the backtracking solver: `std::time::Instant`.
//!
//! What the clock returns depends on when it is asked, so nothing is
//! claimed of it; the solver is proved for every reading.

use std::time::{Duration, Instant};
use vstd::prelude::*;

verus! {

/// Makes `std::time::Instant` known to the verifier as a type whose inside
/// it does not see.
#[verifier::external_type_specification]
#[verifier::external_body]
pub struct ExInstant(Instant);

/// `Instant::now`: the present moment. Nothing is claimed of it.
pub assume_specification[ Instant::now ]() -> (now: Instant);

/// `Instant::elapsed`: the time gone by since the moment was taken.
/// Nothing is claimed of it.
pub assume_specification[ Instant::elapsed ](start: &Instant) -> (gone: Duration);

/// `Duration::as_secs`: the whole seconds of a span of time. Nothing is
/// claimed of it.
pub assume_specification[ Duration::as_secs ](span: &Duration) -> (secs: u64);

} // verus!
