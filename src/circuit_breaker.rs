use vstd::prelude::*;

verus! {

/// The state of a circuit breaker.
pub struct BreakerView {
    pub failure_threshold: usize,
    pub reset_timeout: u64,
    pub failures: usize,
    pub last_failure: Option<u64>,
}

/// Stops calls to a failing service: the circuit opens once failures in a
/// row reach the threshold, and closes again after a quiet spell longer
/// than the reset timeout. Times are milliseconds on a clock that the
/// caller reads.
pub struct CircuitBreaker {
    failure_threshold: usize,
    reset_timeout: u64,
    failures: usize,
    last_failure: Option<u64>,
}

impl View for CircuitBreaker {
    type V = BreakerView;

    closed spec fn view(&self) -> BreakerView {
        BreakerView {
            failure_threshold: self.failure_threshold,
            reset_timeout: self.reset_timeout,
            failures: self.failures,
            last_failure: self.last_failure,
        }
    }
}

impl CircuitBreaker {
    pub fn new(failure_threshold: usize, reset_timeout: u64) -> (r: CircuitBreaker)
        ensures
            r@ == (BreakerView { failure_threshold, reset_timeout, failures: 0, last_failure: None }),
    {
        CircuitBreaker { failure_threshold, reset_timeout, failures: 0, last_failure: None }
    }

    /// A call succeeded: the count of failures starts again.
    pub fn record_success(&mut self)
        ensures
            final(self)@ == (BreakerView { failures: 0, last_failure: None, ..old(self)@ }),
    {
        self.failures = 0;
        self.last_failure = None;
    }

    /// A call failed at time `now`. Returns whether failures have now reached
    /// the threshold.
    pub fn record_failure(&mut self, now: u64) -> (r: bool)
        ensures
            final(self)@ == (BreakerView {
                failures: if old(self)@.failures < usize::MAX {
                    (old(self)@.failures + 1) as usize
                } else {
                    old(self)@.failures
                },
                last_failure: Some(now),
                ..old(self)@
            }),
            r == (final(self)@.failures >= old(self)@.failure_threshold),
    {
        if self.failures < usize::MAX {
            self.failures = self.failures + 1;
        }
        self.last_failure = Some(now);
        self.failures >= self.failure_threshold
    }

    /// Whether calls should be refused at time `now`. Below the threshold the
    /// circuit is closed; at or above it, it stays open until more than
    /// `reset_timeout` has passed since the last failure, when the count of
    /// failures starts again and the circuit closes.
    pub fn is_open(&mut self, now: u64) -> (r: bool)
        ensures
            old(self)@.failures < old(self)@.failure_threshold ==> !r && final(self)@ == old(self)@,
            old(self)@.failures >= old(self)@.failure_threshold ==> match old(self)@.last_failure {
                Some(t) => if now >= t && now - t > old(self)@.reset_timeout {
                    !r && final(self)@ == (BreakerView { failures: 0, ..old(self)@ })
                } else {
                    r && final(self)@ == old(self)@
                },
                None => r && final(self)@ == old(self)@,
            },
    {
        if self.failures < self.failure_threshold {
            return false;
        }
        if let Some(t) = self.last_failure {
            if now >= t && now - t > self.reset_timeout {
                self.failures = 0;
                return false;
            }
        }
        true
    }
}

} // verus!
