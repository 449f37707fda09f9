//! How long a worker waits before it asks the object store again: a delay
//! that doubles with every attempt up to a cap, and a random part on top.

use rand::Rng;
use vstd::prelude::*;

verus! {

/// The delay before the second attempt, in milliseconds.
pub const BASE_DELAY_MILLIS: u64 = 100;

/// The longest doubled delay, in milliseconds.
pub const MAX_DELAY_MILLIS: u64 = 2000;

/// The random part of a delay stays below this, in milliseconds.
pub const JITTER_MILLIS: u64 = 1000;

/// The number of retries where none is given.
pub const DEFAULT_RETRIES: usize = 5;

/// Two to the power of `n`.
pub open spec fn pow2(n: nat) -> nat
    decreases n,
{
    if n == 0 {
        1
    } else {
        2 * pow2((n - 1) as nat)
    }
}

/// The doubled delay after `attempts` failed attempts: the base delay times
/// two to the power of `attempts`, and no more than the cap.
pub open spec fn backoff(attempts: nat) -> nat {
    if BASE_DELAY_MILLIS * pow2(attempts) > MAX_DELAY_MILLIS {
        MAX_DELAY_MILLIS as nat
    } else {
        (BASE_DELAY_MILLIS * pow2(attempts)) as nat
    }
}

/// Powers of two grow.
pub proof fn lemma_pow2_grows(a: nat, b: nat)
    requires
        a <= b,
    ensures
        pow2(a) <= pow2(b),
        pow2(a) >= 1,
    decreases b,
{
    if a < b {
        lemma_pow2_grows(a, (b - 1) as nat);
    } else if a > 0 {
        lemma_pow2_grows((a - 1) as nat, (a - 1) as nat);
    }
}

/// `rand::Rng::gen_range` over `0..JITTER_MILLIS` on `rand::thread_rng`:
/// some number below the bound.
#[verifier::external_body]
fn random_jitter() -> (jitter: u64)
    ensures
        jitter < JITTER_MILLIS,
{
    rand::thread_rng().gen_range(0..JITTER_MILLIS)
}

/// The doubled delay after `attempts` failed attempts, in milliseconds.
pub fn backoff_millis(attempts: usize) -> (delay: u64)
    ensures
        delay == backoff(attempts as nat),
{
    let mut delay: u64 = BASE_DELAY_MILLIS;
    let mut i: usize = 0;
    while i < attempts && delay <= MAX_DELAY_MILLIS
        invariant
            i <= attempts,
            delay == BASE_DELAY_MILLIS * pow2(i as nat),
            delay <= 2 * MAX_DELAY_MILLIS,
        decreases attempts - i,
    {
        delay = delay * 2;
        i += 1;
    }
    proof {
        lemma_pow2_grows(i as nat, attempts as nat);
        assert(BASE_DELAY_MILLIS * pow2(i as nat) <= BASE_DELAY_MILLIS * pow2(attempts as nat))
            by (nonlinear_arith)
            requires
                pow2(i as nat) <= pow2(attempts as nat),
        ;
    }
    if delay > MAX_DELAY_MILLIS {
        MAX_DELAY_MILLIS
    } else {
        delay
    }
}

/// The delay before the next attempt, given its random part.
pub fn retry_delay_millis(attempts: usize, jitter: u64) -> (delay: u64)
    requires
        jitter < JITTER_MILLIS,
    ensures
        delay == backoff(attempts as nat) + jitter,
{
    backoff_millis(attempts) + jitter
}

/// Whether a failed attempt is followed by another: as long as fewer
/// attempts have failed than retries are allowed.
pub fn should_retry(attempts: usize, num_retries: usize) -> (again: bool)
    ensures
        again == (attempts < num_retries),
{
    attempts < num_retries
}

/// What follows a failed attempt: the delay before the next one, or nothing
/// when the retries are used up. The delay is the doubled delay plus a
/// random part below `JITTER_MILLIS`.
pub fn next_attempt(attempts: usize, num_retries: usize) -> (delay: Option<u64>)
    ensures
        delay is Some <==> attempts < num_retries,
        delay matches Some(d) ==> backoff(attempts as nat) <= d < backoff(attempts as nat)
            + JITTER_MILLIS,
{
    if should_retry(attempts, num_retries) {
        Some(retry_delay_millis(attempts, random_jitter()))
    } else {
        None
    }
}

} // verus!
