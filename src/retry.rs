//! Retry with exponential backoff, as a state machine: the caller performs an
//! attempt, reports a failure, and is told whether to sleep and try again
//! with a fresh request or to give up.

use vstd::prelude::*;
use crate::error::{Error, ErrorKind};

verus! {

/// The maximum number of retries after the first attempt.
pub const MAX_NUM_RETRIES: u32 = 3;

/// The backoff unit: the wait after the `n`-th failure is `50 * 2^n` ms.
pub const BACKOFF_BASE_MS: u64 = 50;

pub open spec fn pow2(n: nat) -> nat
    decreases n,
{
    if n == 0 {
        1
    } else {
        2 * pow2((n - 1) as nat)
    }
}

/// The wait, in milliseconds, after the `n`-th failed attempt.
pub open spec fn backoff_ms(n: nat) -> nat {
    50 * pow2(n)
}

/// What to do after a failed attempt.
#[derive(Clone, Copy, Debug, PartialEq, Eq, Structural)]
pub enum RetryDecision {
    /// Sleep this long, then issue a freshly built request.
    Retry { wait_ms: u64 },
    /// Surface the failure.
    GiveUp,
}

/// The decision after the `failures`-th failure, transient or not.
pub open spec fn decide(failures: nat, transient: bool) -> RetryDecision {
    if failures > MAX_NUM_RETRIES || !transient {
        RetryDecision::GiveUp
    } else {
        RetryDecision::Retry { wait_ms: backoff_ms(failures) as u64 }
    }
}

/// The failures seen so far for one logical request.
#[derive(Debug)]
pub struct RetryState {
    failures: u32,
}

impl RetryState {
    pub closed spec fn failures(&self) -> nat {
        self.failures as nat
    }

    /// A request that has not been attempted yet.
    pub fn new() -> (s: RetryState)
        ensures
            s.failures() == 0,
    {
        RetryState { failures: 0 }
    }

    /// The number of failed attempts so far.
    pub fn failures_so_far(&self) -> (n: u32)
        ensures
            n == self.failures(),
    {
        self.failures
    }

    /// Records a failed attempt and decides what follows. Only transient
    /// failures are retried, at most `MAX_NUM_RETRIES` times.
    pub fn on_failure(&mut self, transient: bool) -> (d: RetryDecision)
        requires
            old(self).failures() <= MAX_NUM_RETRIES,
        ensures
            final(self).failures() == old(self).failures() + 1,
            d == decide(final(self).failures(), transient),
    {
        self.failures = self.failures + 1;
        if self.failures > MAX_NUM_RETRIES || !transient {
            RetryDecision::GiveUp
        } else {
            let mut wait: u64 = BACKOFF_BASE_MS;
            let mut j: u32 = 0;
            while j < self.failures
                invariant
                    j <= self.failures <= MAX_NUM_RETRIES,
                    wait == 50 * pow2(j as nat),
                decreases self.failures - j,
            {
                assert(pow2((j + 1) as nat) == 2 * pow2(j as nat));
                assert(pow2(j as nat) <= 4) by {
                    reveal_with_fuel(pow2, 4);
                }
                wait = wait * 2;
                j = j + 1;
            }
            RetryDecision::Retry { wait_ms: wait }
        }
    }
}

/// The kind under which a failure that ended the retries is surfaced: a
/// transient failure that outlived every retry becomes a permanent one.
pub open spec fn surfaced_kind(k: ErrorKind) -> ErrorKind {
    if k == ErrorKind::Transient {
        ErrorKind::PermanentClient
    } else {
        k
    }
}

/// Turns the last failure of a request into the error its caller sees.
pub fn surface(e: Error) -> (r: Error)
    ensures
        r.kind == surfaced_kind(e.kind),
        r.detail@ == e.detail@,
{
    if e.kind == ErrorKind::Transient {
        Error { kind: ErrorKind::PermanentClient, detail: e.detail }
    } else {
        e
    }
}

/// The outcome of running a request whose first `k` attempts fail with a
/// transient error and whose later attempts succeed.
pub struct RetryRun {
    pub succeeded: bool,
    pub attempts: nat,
    pub failures: nat,
    pub slept_ms: nat,
}

/// Drives the decisions of [`RetryState::on_failure`] from `done` failures on,
/// against a request that fails transiently while fewer than `k` attempts were
/// made.
pub open spec fn run_transient(done: nat, k: nat) -> RetryRun
    decreases 4 - done,
{
    if done >= k {
        RetryRun { succeeded: true, attempts: done + 1, failures: done, slept_ms: 0 }
    } else {
        match decide(done + 1, true) {
            RetryDecision::GiveUp => RetryRun {
                succeeded: false,
                attempts: done + 1,
                failures: done + 1,
                slept_ms: 0,
            },
            RetryDecision::Retry { wait_ms } => {
                let rest = run_transient(done + 1, k);
                RetryRun { slept_ms: rest.slept_ms + wait_ms as nat, ..rest }
            },
        }
    }
}

/// The total wait before attempts `2..=n+1`: the sum of `50 * 2^i` for `i` in
/// `1..=n`.
pub open spec fn total_backoff(n: nat) -> nat
    decreases n,
{
    if n == 0 {
        0
    } else {
        total_backoff((n - 1) as nat) + backoff_ms(n)
    }
}

pub open spec fn min(a: nat, b: nat) -> nat {
    if a <= b {
        a
    } else {
        b
    }
}

/// A request that fails transiently exactly `k` times and then succeeds ends
/// in success if and only if `k <= 3`; `min(k + 1, 4)` attempts are issued, of
/// which `min(k, 4)` fail, and the waits between them add up to the sum of
/// `50 * 2^i` ms over `i` in `1..=min(k, 3)`.
pub proof fn lemma_retry_transient_failures(k: nat)
    ensures
        run_transient(0, k).succeeded == (k <= 3),
        run_transient(0, k).attempts == min(k + 1, 4),
        run_transient(0, k).failures == min(k, 4),
        run_transient(0, k).slept_ms == total_backoff(min(k, 3)),
{
    reveal_with_fuel(pow2, 4);
    reveal_with_fuel(total_backoff, 4);
    reveal_with_fuel(run_transient, 5);
}

} // verus!
