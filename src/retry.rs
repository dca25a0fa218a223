//! When hashing a file fails because the process has run out of file
//! handles, it is tried again after a growing pause.
use vstd::prelude::*;

verus! {

pub const MAX_RETRIES: u32 = 10;
pub const BASE_DELAY_MS: u64 = 10;
pub const MAX_DELAY_MS: u64 = 1000;

/// How one attempt at hashing a file ended.
#[derive(Debug, Clone, Copy, PartialEq, Eq, Structural)]
pub enum HashOutcome {
    Hashed,
    TooManyOpenFiles,
    OtherError,
}

/// What to do after an attempt.
#[derive(Debug, Clone, Copy, PartialEq, Eq, Structural)]
pub enum RetryAction {
    /// Keep the result of the attempt, success or error.
    Finish,
    /// Sleep this many milliseconds, then make attempt number `attempt + 1`.
    SleepThenRetry(u64),
}

pub open spec fn pow2(n: nat) -> nat
    decreases n,
{
    if n == 0 {
        1
    } else {
        2 * pow2((n - 1) as nat)
    }
}

/// The pause after attempt `attempt`: `10 * 2^attempt` ms, at most 1000.
pub open spec fn delay_spec(attempt: nat) -> nat {
    let d = BASE_DELAY_MS as nat * pow2(attempt);
    if d < MAX_DELAY_MS as nat {
        d
    } else {
        MAX_DELAY_MS as nat
    }
}

/// The pause after attempt `attempt`.
pub fn retry_delay_ms(attempt: u32) -> (r: u64)
    ensures
        r == delay_spec(attempt as nat),
{
    if attempt >= 7 {
        proof {
            reveal_with_fuel(pow2, 8);
            assert(pow2(7) == 128);
            lemma_pow2_mono(7, attempt as nat);
        }
        return MAX_DELAY_MS;
    }
    let mut d: u64 = BASE_DELAY_MS;
    let mut i: u32 = 0;
    while i < attempt
        invariant
            i <= attempt < 7,
            d == BASE_DELAY_MS * pow2(i as nat),
            d <= 640,
        decreases attempt - i,
    {
        proof {
            assert(pow2((i + 1) as nat) == 2 * pow2(i as nat));
            reveal_with_fuel(pow2, 7);
            assert(pow2(6) == 64);
            lemma_pow2_mono((i + 1) as nat, 6);
        }
        d = d * 2;
        i += 1;
    }
    if d < MAX_DELAY_MS {
        d
    } else {
        MAX_DELAY_MS
    }
}

proof fn lemma_pow2_mono(a: nat, b: nat)
    requires
        a <= b,
    ensures
        pow2(a) <= pow2(b),
    decreases b,
{
    if a < b {
        lemma_pow2_mono(a, (b - 1) as nat);
    }
}

/// The decision after attempt number `attempt` (counted from 0) ended with
/// `outcome`: only a lack of file handles is retried, and only after the
/// first ten attempts; the eleventh attempt is final.
pub fn after_attempt(attempt: u32, outcome: HashOutcome) -> (r: RetryAction)
    ensures
        outcome == HashOutcome::TooManyOpenFiles && attempt < MAX_RETRIES ==> r
            == RetryAction::SleepThenRetry(delay_spec(attempt as nat) as u64),
        !(outcome == HashOutcome::TooManyOpenFiles && attempt < MAX_RETRIES) ==> r
            == RetryAction::Finish,
{
    match outcome {
        HashOutcome::TooManyOpenFiles => {
            if attempt < MAX_RETRIES {
                RetryAction::SleepThenRetry(retry_delay_ms(attempt))
            } else {
                RetryAction::Finish
            }
        },
        _ => RetryAction::Finish,
    }
}

} // verus!
