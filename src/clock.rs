use std::time::Instant;
use vstd::prelude::*;

verus! {

#[verifier::external_type_specification]
#[verifier::external_body]
pub struct ExInstant(Instant);

/// A monotonic clock that reads milliseconds since it was started.
pub struct Clock {
    origin: Instant,
}

impl Clock {
    /// Relies on `Instant::now`: the current instant of the monotonic clock.
    #[verifier::external_body]
    pub fn start() -> (r: Clock) {
        Clock { origin: Instant::now() }
    }

    /// Relies on `Instant::elapsed`: milliseconds since the clock was started.
    /// What it returns depends on the time of the call.
    #[verifier::external_body]
    pub fn now_ms(&self) -> (r: u64) {
        self.origin.elapsed().as_millis() as u64
    }
}

} // verus!
