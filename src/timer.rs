//! A timer that tells when a frame period has passed.
use std::time::Instant;
use vstd::prelude::*;

verus! {

#[verifier::external_type_specification]
#[verifier::external_body]
pub struct ExInstant(Instant);

/// Relies on `Instant::now`: reads the monotonic clock. Nothing is promised
/// of the value.
#[verifier::external_body]
fn now() -> Instant {
    Instant::now()
}

/// Relies on `Instant::elapsed` and `Duration::as_millis`: whole
/// milliseconds since `start`. Nothing is promised of the value.
#[verifier::external_body]
fn elapsed_millis(start: &Instant) -> u128 {
    start.elapsed().as_millis()
}

/// Whether `elapsed_ms` milliseconds make up more than one period at `ups`
/// updates per second.
pub fn period_reached(elapsed_ms: u128, ups: usize) -> (r: bool)
    ensures
        r == (elapsed_ms * ups > 1000),
{
    if ups == 0 {
        false
    } else {
        let limit = 1000u128 / (ups as u128);
        proof {
            let e = elapsed_ms as int;
            let u = ups as int;
            let q = limit as int;
            assert(q * u <= 1000int < (q + 1) * u) by (nonlinear_arith)
                requires
                    q == 1000int / u,
                    u > 0,
            ;
            assert(e > q ==> e * u >= (q + 1) * u) by (nonlinear_arith)
                requires
                    u > 0,
            ;
            assert(e <= q ==> e * u <= q * u) by (nonlinear_arith)
                requires
                    u > 0,
            ;
        }
        elapsed_ms > limit
    }
}

/// Counts from a start instant towards a period of `1000 / ups` ms.
pub struct Timer {
    start: Instant,
    ups: usize,
}

impl Timer {
    pub closed spec fn rate(&self) -> usize {
        self.ups
    }

    /// A timer started now, for `ups` updates per second.
    pub fn new(ups: usize) -> (r: Timer)
        ensures
            r.rate() == ups,
    {
        Timer { start: now(), ups }
    }

    /// Whether more than one period has passed since the start. What the
    /// clock reads is the outside's; the decision is `period_reached`.
    pub fn reached(&self) -> bool {
        period_reached(elapsed_millis(&self.start), self.ups)
    }

    /// Starts the timer again from now.
    pub fn reset(&mut self)
        ensures
            final(self).rate() == old(self).rate(),
    {
        self.start = now();
    }

    /// The instant the timer was started at.
    pub fn start(&self) -> &Instant {
        &self.start
    }
}

} // verus!
