use vstd::prelude::*;

use vstd::arithmetic::power2::{lemma_pow2_unfold, pow2};

verus! {

/// Why a sample could not be taken.
#[derive(Clone, Copy, Debug, PartialEq, Eq)]
pub enum SampleError {
    /// The traffic source disconnected.
    SourceUnavailable,
}

/// How a sampler retries a source that has failed: up to `max_retries` consecutive failures,
/// waiting `base_delay_ms` after the first and twice as long after each further one, never more
/// than `max_delay_ms`.
#[derive(Clone, Copy, Debug, PartialEq, Eq)]
pub struct RetryPolicy {
    pub max_retries: u32,
    pub base_delay_ms: u64,
    pub max_delay_ms: u64,
}

/// What to do after a failed sample.
#[derive(Clone, Copy, Debug, PartialEq, Eq)]
pub enum RetryAction {
    /// Wait this long, then try again.
    Wait { delay_ms: u64 },
    /// The failure is fatal.
    GiveUp,
}

/// The delay before retry number `k` (from zero): `base * 2^k`, capped at `max`.
pub open spec fn backoff_delay(base: int, max: int, k: nat) -> int {
    let d = base * pow2(k);
    if d <= max {
        d
    } else {
        max
    }
}

/// Decides what follows the `failures`-th consecutive failure of the source (`failures >= 1`).
pub fn next_action(policy: &RetryPolicy, failures: u32) -> (r: RetryAction)
    requires
        failures >= 1,
    ensures
        failures > policy.max_retries ==> r == RetryAction::GiveUp,
        failures <= policy.max_retries ==> r == (RetryAction::Wait {
            delay_ms: backoff_delay(
                policy.base_delay_ms as int,
                policy.max_delay_ms as int,
                (failures - 1) as nat,
            ) as u64,
        }),
{
    if failures > policy.max_retries {
        return RetryAction::GiveUp;
    }
    let base = policy.base_delay_ms;
    let max = policy.max_delay_ms;
    let mut d: u64 = if base <= max { base } else { max };
    let mut i: u32 = 0;
    assert(pow2(0) == 1) by {
        vstd::arithmetic::power2::lemma2_to64();
    }
    while i < failures - 1
        invariant
            i <= failures - 1,
            d == backoff_delay(base as int, max as int, i as nat),
        decreases failures - 1 - i,
    {
        proof {
            lemma_pow2_unfold((i + 1) as nat);
            let p = pow2(i as nat) as int;
            assert(base * pow2((i + 1) as nat) == 2 * (base * p)) by (nonlinear_arith)
                requires
                    pow2((i + 1) as nat) == 2 * p,
            ;
        }
        d = if d > max / 2 { max } else if 2 * d <= max { 2 * d } else { max };
        i = i + 1;
    }
    RetryAction::Wait { delay_ms: d }
}

} // verus!
