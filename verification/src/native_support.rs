//! A clock for native builds, reading the monotonic system clock.
use crate::search::Clock;
use std::time::{Duration, Instant};
use vstd::prelude::*;

verus! {

#[verifier::external_type_specification]
#[verifier::external_body]
pub struct ExInstant(Instant);

/// The clock started when the search started.
pub struct StdClock(pub Instant);

/// `Instant::now`: the current reading of the monotonic clock. Nothing is claimed of
/// it; it depends on when it is called.
#[verifier::external_body]
fn instant_now() -> Instant {
    Instant::now()
}

/// `Instant::elapsed`: the time since `start`. Nothing is claimed of it; it depends on
/// when it is called.
#[verifier::external_body]
fn elapsed_since(start: &Instant) -> Duration {
    start.elapsed()
}

/// `Duration::as_millis`: the whole milliseconds in `d`. Nothing is claimed of the
/// result here, since a `Duration` is opaque to these proofs.
#[verifier::external_body]
fn whole_millis(d: &Duration) -> u128 {
    d.as_millis()
}

impl StdClock {
    pub fn start() -> StdClock {
        StdClock(instant_now())
    }
}

impl Clock for StdClock {
    fn now_ms(&self) -> u64 {
        let d = elapsed_since(&self.0);
        let ms = whole_millis(&d);
        ms as u64
    }
}

} // verus!
