//! The processing deadline: a monotonic start instant and an optional
//! timeout, polled at safe points between reductions and trials.

use vstd::prelude::*;

verus! {

#[verifier::external_type_specification]
#[verifier::external_body]
pub struct ExInstant(std::time::Instant);

/// Relies on `std::time::Instant::now`: a monotonic clock reading. Nothing
/// can be promised of its value.
#[verifier::external_body]
fn instant_now() -> (r: std::time::Instant) {
    std::time::Instant::now()
}

/// Relies on `std::time::Instant::elapsed` (with `Duration::as_nanos`):
/// nanoseconds since `start`, saturated into 64 bits. Time is not a
/// function of the arguments, so nothing is promised of the value.
#[verifier::external_body]
fn elapsed_nanos(start: &std::time::Instant) -> (r: u64) {
    let d = start.elapsed().as_nanos();
    if d > u64::MAX as u128 {
        u64::MAX
    } else {
        d as u64
    }
}

/// Keeps track of the processing timeout.
pub struct Deadline {
    start: Option<std::time::Instant>,
    timeout_millis: u64,
}

impl Deadline {
    /// Whether a timeout was set at all.
    pub closed spec fn spec_active(&self) -> bool {
        self.start is Some
    }

    /// The timeout in milliseconds, where one was set.
    pub closed spec fn spec_timeout(&self) -> u64 {
        self.timeout_millis
    }

    /// Start tracking from now, with an optional timeout in milliseconds.
    pub fn new(timeout: Option<u64>) -> (r: Deadline)
        ensures
            r.spec_active() == timeout is Some,
            timeout matches Some(t) ==> r.spec_timeout() == t,
    {
        match timeout {
            Some(t) => Deadline { start: Some(instant_now()), timeout_millis: t },
            None => Deadline { start: Option::None, timeout_millis: 0 },
        }
    }

    /// True once the elapsed time exceeds the timeout; without a timeout it
    /// never fires. No new work should start after it returns true.
    pub fn passed(&self) -> (r: bool)
        ensures
            !self.spec_active() ==> r == false,
    {
        match &self.start {
            Some(s) => {
                let limit: u128 = (self.timeout_millis as u128) * 1_000_000;
                (elapsed_nanos(s) as u128) > limit
            },
            None => false,
        }
    }
}

} // verus!
