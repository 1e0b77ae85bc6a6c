//! Refusing work for a while after failures in a row.

use vstd::prelude::*;

verus! {

/// Counts failures in a row, and is open, refusing work, from a number of them on until it is
/// reset.
#[derive(Clone, Copy, Debug, PartialEq, Eq, Structural)]
pub struct CircuitBreaker {
    pub failures: u32,
    pub open: bool,
    pub threshold: u32,
    /// How long it stays open, in nanoseconds.
    pub reset_timeout: u64,
}

/// A breaker after a success: the count begins anew, and it stays open where it was.
pub open spec fn after_success(b: CircuitBreaker) -> CircuitBreaker {
    CircuitBreaker { failures: 0, ..b }
}

/// A breaker after a failure.
pub open spec fn after_failure(b: CircuitBreaker) -> CircuitBreaker {
    let failures = b.failures.wrapping_add(1);
    CircuitBreaker { failures, open: b.open || failures >= b.threshold, ..b }
}

/// A breaker after its timeout.
pub open spec fn after_reset(b: CircuitBreaker) -> CircuitBreaker {
    CircuitBreaker { failures: 0, open: false, ..b }
}

impl CircuitBreaker {
    pub fn new(threshold: u32, reset_timeout: u64) -> (r: CircuitBreaker)
        ensures
            r == (CircuitBreaker { failures: 0, open: false, threshold, reset_timeout }),
    {
        CircuitBreaker { failures: 0, open: false, threshold, reset_timeout }
    }

    /// Whether work is refused.
    pub fn is_open(&self) -> (r: bool)
        ensures
            r == self.open,
    {
        self.open
    }

    /// Takes in a success.
    pub fn record_success(&mut self)
        ensures
            *final(self) == after_success(*old(self)),
    {
        self.failures = 0;
    }

    /// Takes in a failure. Where it is one too many, gives the time after which the breaker
    /// is to be reset.
    pub fn record_failure(&mut self) -> (r: Option<u64>)
        ensures
            *final(self) == after_failure(*old(self)),
            r == (if final(self).failures >= old(self).threshold {
                Some(old(self).reset_timeout)
            } else {
                None
            }),
    {
        self.failures = self.failures.wrapping_add(1);
        if self.failures >= self.threshold {
            self.open = true;
            Some(self.reset_timeout)
        } else {
            None
        }
    }

    /// Lets work through again.
    pub fn reset(&mut self)
        ensures
            *final(self) == after_reset(*old(self)),
    {
        self.open = false;
        self.failures = 0;
    }
}

/// A breaker after some failures in a row.
pub open spec fn after_failures(b: CircuitBreaker, n: nat) -> CircuitBreaker
    decreases n,
{
    if n == 0 {
        b
    } else {
        after_failure(after_failures(b, (n - 1) as nat))
    }
}

/// A closed breaker opens at the threshold of failures in a row, and not before.
pub proof fn law_opens_at_threshold(b: CircuitBreaker, n: nat)
    requires
        b.failures == 0,
        !b.open,
        n <= u32::MAX,
    ensures
        after_failures(b, n).failures == n,
        after_failures(b, n).threshold == b.threshold,
        after_failures(b, n).open <==> (n >= 1 && n >= b.threshold),
    decreases n,
{
    if n > 0 {
        law_opens_at_threshold(b, (n - 1) as nat);
    }
}

/// An open breaker stays open whatever comes in, until it is reset.
pub proof fn law_stays_open(b: CircuitBreaker)
    requires
        b.open,
    ensures
        after_success(b).open,
        after_failure(b).open,
        !after_reset(b).open,
{
}

/// A failure that reaches the threshold opens the breaker and asks for a reset after its timeout;
/// a success in between begins the count anew; a reset closes it, and a breaker that was reset
/// takes in as many failures again.
pub proof fn law_breaker_goes_round(
    fail: &mut CircuitBreaker,
    success: &mut CircuitBreaker,
    again: &mut CircuitBreaker,
    reset: &mut CircuitBreaker,
    wait: Option<u64>,
    wait_again: Option<u64>,
    refused: bool,
)
    requires
        call_ensures(CircuitBreaker::record_failure, (fail,), wait),
        old(fail).failures < u32::MAX,
        call_ensures(CircuitBreaker::is_open, (&*final(fail),), refused),
        *old(success) == *final(fail),
        call_ensures(CircuitBreaker::record_success, (success,), ()),
        *old(again) == *final(success),
        call_ensures(CircuitBreaker::record_failure, (again,), wait_again),
        *old(reset) == *final(again),
        call_ensures(CircuitBreaker::reset, (reset,), ()),
    ensures
        wait is Some <==> old(fail).failures + 1 >= old(fail).threshold,
        wait matches Some(t) ==> t == old(fail).reset_timeout && refused,
        !old(fail).open && wait is None ==> !refused,
        wait_again is Some <==> old(fail).threshold <= 1,
        !final(reset).open,
        final(reset).failures == 0,
        final(reset).threshold == old(fail).threshold,
        final(reset).reset_timeout == old(fail).reset_timeout,
{
}

} // verus!
