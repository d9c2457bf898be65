use vstd::prelude::*;

verus! {

use crate::canvas::Board;
use crate::fetch::FetchError;

/// How often one height is asked for before it is given up.
pub const MAX_FETCH_ATTEMPTS: u32 = 5;

/// What the caller of the retry policy must do after one attempt.
#[derive(Debug)]
pub enum RetryDecision {
    /// The fetch succeeded: hand this board to the scanner.
    Deliver(Board),
    /// The height is unavailable; asking again cannot help. No sleep.
    GiveUp,
    /// The failure was transient: sleep this many seconds, then, if attempts
    /// are left, ask again.
    Backoff(u64),
}

/// The retry policy: bounded attempts with exponential backoff. Transient
/// failures are absorbed; exhaustion and hard misses both end as "no data
/// obtainable right now", never as a process failure.
pub struct Retry {
    /// Attempts already made for the current height.
    pub attempts: u32,
}

/// Seconds slept after the attempt with this zero-based index.
pub open spec fn spec_backoff(attempt: nat) -> nat
    decreases attempt,
{
    if attempt == 0 {
        1
    } else {
        2 * spec_backoff((attempt - 1) as nat)
    }
}

/// Seconds slept in total once `n` transient attempts have been absorbed.
pub open spec fn spec_backoff_total(n: nat) -> nat
    decreases n,
{
    if n == 0 {
        0
    } else {
        spec_backoff_total((n - 1) as nat) + spec_backoff((n - 1) as nat)
    }
}

impl Retry {
    /// Fresh state for one height: no attempt made yet.
    pub fn new() -> (r: Retry)
        ensures
            r.attempts == 0,
    {
        Retry { attempts: 0 }
    }

    /// Attempts are exhausted: the caller must stop and treat the height as
    /// unavailable.
    pub fn exhausted(&self) -> (r: bool)
        ensures
            r == (self.attempts >= MAX_FETCH_ATTEMPTS),
    {
        self.attempts >= MAX_FETCH_ATTEMPTS
    }

    /// Digests the outcome of one fetch attempt. A success is delivered; a
    /// hard miss gives up at once; a transient failure costs a backoff sleep
    /// of 2^attempt seconds.
    pub fn on_attempt(&mut self, outcome: Result<Board, FetchError>) -> (d: RetryDecision)
        requires
            old(self).attempts < MAX_FETCH_ATTEMPTS,
        ensures
            final(self).attempts == old(self).attempts + 1,
            match outcome {
                Result::Ok(b) => d == RetryDecision::Deliver(b),
                Result::Err(e) => match e {
                    FetchError::NotFound => d == RetryDecision::GiveUp,
                    FetchError::Transient => d == RetryDecision::Backoff(
                        spec_backoff(old(self).attempts as nat) as u64,
                    ),
                },
            },
    {
        let attempt = self.attempts;
        self.attempts = self.attempts + 1;
        match outcome {
            Result::Ok(board) => RetryDecision::Deliver(board),
            Result::Err(FetchError::NotFound) => RetryDecision::GiveUp,
            Result::Err(FetchError::Transient) => {
                let secs: u64 = match attempt {
                    0 => 1,
                    1 => 2,
                    2 => 4,
                    3 => 8,
                    _ => 16,
                };
                assert(secs == spec_backoff(attempt as nat)) by {
                    assert(spec_backoff(0) == 1);
                    assert(spec_backoff(1) == 2);
                    assert(spec_backoff(2) == 4);
                    assert(spec_backoff(3) == 8);
                    assert(spec_backoff(4) == 16);
                }
                RetryDecision::Backoff(secs)
            },
        }
    }
}

/// Index of the attempt on which the retry loop settles: the first of the
/// allowed attempts whose outcome is not transient, or `MAX_FETCH_ATTEMPTS`
/// where every allowed attempt fails transiently.
pub open spec fn spec_settle_index(outcomes: Seq<Result<Board, FetchError>>, from: int) -> int
    decreases MAX_FETCH_ATTEMPTS - from,
{
    if from >= MAX_FETCH_ATTEMPTS {
        MAX_FETCH_ATTEMPTS as int
    } else if !(outcomes[from] is Err && outcomes[from]->Err_0 is Transient) {
        from
    } else {
        spec_settle_index(outcomes, from + 1)
    }
}

/// How one whole retried fetch went: whether a board was delivered, how many
/// attempts were made, and the total seconds of backoff the policy asked for.
#[derive(Copy, Clone, PartialEq, Eq, Structural, Debug)]
pub struct RetryRun {
    pub delivered: bool,
    pub attempts: u32,
    pub slept: u64,
}

/// Runs the whole retry policy over a pre-recorded sequence of attempt
/// outcomes, as a synthetic fetch source would produce them.
pub fn run_retries(outcomes: &Vec<Result<Board, FetchError>>) -> (r: RetryRun)
    requires
        outcomes@.len() >= MAX_FETCH_ATTEMPTS,
    ensures
        ({
            let settle = spec_settle_index(outcomes@, 0);
            &&& r.attempts == if settle < MAX_FETCH_ATTEMPTS {
                settle + 1
            } else {
                MAX_FETCH_ATTEMPTS as int
            }
            &&& r.slept == spec_backoff_total(settle as nat)
            &&& r.delivered == (settle < MAX_FETCH_ATTEMPTS && outcomes@[settle] is Ok)
        }),
{
    let mut retry = Retry::new();
    let mut total_sleep: u64 = 0;
    loop
        invariant
            outcomes@.len() >= MAX_FETCH_ATTEMPTS,
            retry.attempts <= MAX_FETCH_ATTEMPTS,
            forall|t: int|
                0 <= t < retry.attempts
                    ==> (#[trigger] outcomes@[t]) is Err && outcomes@[t]->Err_0 is Transient,
            spec_settle_index(outcomes@, 0) == spec_settle_index(outcomes@, retry.attempts as int),
            total_sleep == spec_backoff_total(retry.attempts as nat),
            spec_backoff_total(retry.attempts as nat) <= 31,
        decreases MAX_FETCH_ATTEMPTS - retry.attempts,
    {
        if retry.exhausted() {
            assert(spec_settle_index(outcomes@, retry.attempts as int) == MAX_FETCH_ATTEMPTS);
            return RetryRun { delivered: false, attempts: retry.attempts, slept: total_sleep };
        }
        let ghost prev_attempts = retry.attempts as int;
        let idx = retry.attempts as usize;
        let outcome: Result<Board, FetchError> = match &outcomes[idx] {
            Result::Ok(b) => Result::Ok(b.duplicate()),
            Result::Err(FetchError::NotFound) => Result::Err(FetchError::NotFound),
            Result::Err(FetchError::Transient) => Result::Err(FetchError::Transient),
        };
        let decision = retry.on_attempt(outcome);
        match decision {
            RetryDecision::Deliver(_) => {
                assert(spec_settle_index(outcomes@, prev_attempts) == prev_attempts);
                return RetryRun { delivered: true, attempts: retry.attempts, slept: total_sleep };
            },
            RetryDecision::GiveUp => {
                assert(spec_settle_index(outcomes@, prev_attempts) == prev_attempts);
                return RetryRun { delivered: false, attempts: retry.attempts, slept: total_sleep };
            },
            RetryDecision::Backoff(secs) => {
                proof {
                    lemma_backoff_total_bound(retry.attempts as nat);
                }
                total_sleep = total_sleep + secs;
            },
        }
    }
}

/// The cumulative backoff never exceeds 31 seconds: 1 + 2 + 4 + 8 + 16.
pub proof fn lemma_backoff_total_bound(n: nat)
    requires
        n <= MAX_FETCH_ATTEMPTS,
    ensures
        spec_backoff_total(n) <= 31,
        n == MAX_FETCH_ATTEMPTS ==> spec_backoff_total(n) == 31,
{
    assert(spec_backoff_total(0) == 0);
    assert(spec_backoff_total(1) == 1);
    assert(spec_backoff_total(2) == 3);
    assert(spec_backoff_total(3) == 7);
    assert(spec_backoff_total(4) == 15);
    assert(spec_backoff_total(5) == 31);
}

/// A source that always fails transiently costs exactly the allowed number of
/// attempts and 31 seconds of backoff, and delivers nothing.
pub proof fn lemma_all_transient_exhausts(outcomes: Seq<Result<Board, FetchError>>)
    requires
        outcomes.len() >= MAX_FETCH_ATTEMPTS,
        forall|t: int|
            0 <= t < MAX_FETCH_ATTEMPTS
                ==> (#[trigger] outcomes[t]) is Err && outcomes[t]->Err_0 is Transient,
    ensures
        spec_settle_index(outcomes, 0) == MAX_FETCH_ATTEMPTS,
        spec_backoff_total(MAX_FETCH_ATTEMPTS as nat) == 31,
{
    lemma_backoff_total_bound(MAX_FETCH_ATTEMPTS as nat);
    assert(spec_settle_index(outcomes, 5) == MAX_FETCH_ATTEMPTS);
    assert(spec_settle_index(outcomes, 4) == MAX_FETCH_ATTEMPTS);
    assert(spec_settle_index(outcomes, 3) == MAX_FETCH_ATTEMPTS);
    assert(spec_settle_index(outcomes, 2) == MAX_FETCH_ATTEMPTS);
    assert(spec_settle_index(outcomes, 1) == MAX_FETCH_ATTEMPTS);
    assert(spec_settle_index(outcomes, 0) == MAX_FETCH_ATTEMPTS);
}

} // verus!
