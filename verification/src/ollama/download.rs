//! Model downloads: when to report progress and how failed attempts are retried.
use vstd::prelude::*;
use crate::config::AppSettings;
use crate::numfmt::{decimal, u64_to_decimal};
use crate::text::{append_chars, chars_of, str_eq, string_of};
use vstd::arithmetic::power2::{lemma2_to64, lemma2_to64_rest, lemma_pow2_strictly_increases, lemma_pow2_unfold, pow2};

verus! {

/// The least time between two progress reports, in milliseconds.
pub const PROGRESS_THROTTLE_MS: u128 = 500;

/// Whether a progress report goes out: always for `success`, for the first
/// report, and when the last one is at least `PROGRESS_THROTTLE_MS` old.
pub fn should_emit(status: &str, since_last_ms: Option<u128>) -> (r: bool)
    ensures
        r == (status@ == "success"@ || match since_last_ms {
            Some(ms) => ms >= PROGRESS_THROTTLE_MS,
            None => true,
        }),
{
    if str_eq(status, "success") {
        return true;
    }
    match since_last_ms {
        Some(ms) => ms >= PROGRESS_THROTTLE_MS,
        None => true,
    }
}

/// The number of download attempts for the settings: at least one.
pub fn max_attempts(s: &AppSettings) -> (r: u32)
    ensures
        r == (if s.download_max_retries < 1 { 1 } else { s.download_max_retries }),
{
    if s.download_max_retries < 1 {
        1
    } else {
        s.download_max_retries
    }
}

/// What to do after an attempt to download a model.
#[derive(Debug, Clone, Copy, PartialEq, Eq)]
pub enum PullStep {
    /// The model is downloaded.
    Done,
    /// The user cancelled; report `cancelled`.
    Cancelled,
    /// The last attempt failed; report `error`.
    Failed,
    /// Wait this many seconds, then try again.
    Retry(u64),
}

/// After attempt number `attempt` (from 1): success ends the download; a
/// failure ends it when the user cancelled or when it was the last attempt;
/// otherwise the next attempt comes after `2^(attempt-1)` seconds (1, 2, 4, …).
pub open spec fn pull_step(succeeded: bool, cancelled: bool, attempt: u32, max_attempts: u32) -> PullStep {
    if succeeded {
        PullStep::Done
    } else if cancelled {
        PullStep::Cancelled
    } else if attempt >= max_attempts {
        PullStep::Failed
    } else {
        PullStep::Retry(pow2((attempt - 1) as nat) as u64)
    }
}

/// The wait before the next attempt, in seconds: `2^(attempt-1)`.
fn backoff_secs(attempt: u32) -> (r: u64)
    requires
        1 <= attempt <= 64,
    ensures
        r == pow2((attempt - 1) as nat),
{
    let mut b: u64 = 1;
    let mut i: u32 = 1;
    proof {
        lemma2_to64();
    }
    while i < attempt
        invariant
            1 <= i <= attempt <= 64,
            b == pow2((i - 1) as nat),
        decreases attempt - i,
    {
        proof {
            lemma2_to64_rest();
            if i - 1 < 62 {
                lemma_pow2_strictly_increases((i - 1) as nat, 62);
            }
            lemma_pow2_unfold(i as nat);
        }
        b = b * 2;
        i = i + 1;
    }
    b
}

/// What follows an attempt (`pull_step`).
pub fn next_pull_step(succeeded: bool, cancelled: bool, attempt: u32, max_attempts: u32) -> (r: PullStep)
    requires
        1 <= attempt,
        !succeeded && !cancelled && attempt < max_attempts ==> attempt <= 64,
    ensures
        r == pull_step(succeeded, cancelled, attempt, max_attempts),
{
    if succeeded {
        PullStep::Done
    } else if cancelled {
        PullStep::Cancelled
    } else if attempt >= max_attempts {
        PullStep::Failed
    } else {
        PullStep::Retry(backoff_secs(attempt))
    }
}

/// Law: each retry waits twice as long as the one before it (while the
/// wait fits in 64 bits).
pub proof fn lemma_backoff_doubles(attempt: u32, max_attempts: u32)
    requires
        1 <= attempt,
        attempt + 1 < max_attempts,
        attempt + 1 <= 64,
    ensures
        pull_step(false, false, attempt, max_attempts) matches PullStep::Retry(a) && pull_step(
            false,
            false,
            (attempt + 1) as u32,
            max_attempts,
        ) matches PullStep::Retry(b) && b == 2 * a,
{
    lemma2_to64();
    lemma2_to64_rest();
    lemma_pow2_unfold(attempt as nat);
    if attempt < 63 {
        lemma_pow2_strictly_increases(attempt as nat, 63);
    }
    assert(pow2(attempt as nat) <= pow2(63));
    assert(pow2((attempt - 1) as nat) as u64 == pow2((attempt - 1) as nat));
    assert(pow2(attempt as nat) as u64 == pow2(attempt as nat));
}

/// The message of a failed attempt that will be retried.
pub open spec fn retry_message_spec(attempt: u32, backoff: u64, error: Seq<char>) -> Seq<char> {
    "第 "@ + decimal(attempt as nat) + " 次失败,"@ + decimal(backoff as nat) + "秒后重试: "@ + error
}

/// The message of a failed attempt that will be retried (`retry_message_spec`).
pub fn retry_message(attempt: u32, backoff: u64, error: &str) -> (r: String)
    ensures
        r@ == retry_message_spec(attempt, backoff, error@),
{
    let mut v = chars_of("第 ");
    append_chars(&mut v, &u64_to_decimal(attempt as u64));
    append_chars(&mut v, &chars_of(" 次失败,"));
    append_chars(&mut v, &u64_to_decimal(backoff));
    append_chars(&mut v, &chars_of("秒后重试: "));
    append_chars(&mut v, &chars_of(error));
    string_of(&v)
}

} // verus!
