use canvas_scan::retry::{run_retries, Retry, RetryDecision, MAX_FETCH_ATTEMPTS};
use canvas_scan::{Board, FetchError};

#[test]
fn all_transient_costs_five_attempts_and_31_seconds() {
    let outcomes: Vec<Result<Board, FetchError>> =
        (0..5).map(|_| Err(FetchError::Transient)).collect();
    let run = run_retries(&outcomes);
    assert!(!run.delivered);
    assert_eq!(run.attempts, 5);
    assert_eq!(run.slept, 31);
}

#[test]
fn not_found_gives_up_at_once_without_sleeping() {
    let mut outcomes: Vec<Result<Board, FetchError>> = vec![Err(FetchError::NotFound)];
    for _ in 0..4 {
        outcomes.push(Err(FetchError::Transient));
    }
    let run = run_retries(&outcomes);
    assert!(!run.delivered);
    assert_eq!(run.attempts, 1);
    assert_eq!(run.slept, 0);
}

#[test]
fn success_after_two_transients() {
    let outcomes: Vec<Result<Board, FetchError>> = vec![
        Err(FetchError::Transient),
        Err(FetchError::Transient),
        Ok(Board::blank(7)),
        Err(FetchError::Transient),
        Err(FetchError::Transient),
    ];
    let run = run_retries(&outcomes);
    assert!(run.delivered);
    assert_eq!(run.attempts, 3);
    assert_eq!(run.slept, 1 + 2);
}

#[test]
fn backoff_doubles_per_attempt() {
    let mut retry = Retry::new();
    let mut seen = Vec::new();
    while !retry.exhausted() {
        match retry.on_attempt(Err(FetchError::Transient)) {
            RetryDecision::Backoff(secs) => seen.push(secs),
            _ => panic!("a transient outcome always asks for a backoff"),
        }
    }
    assert_eq!(seen, vec![1, 2, 4, 8, 16]);
    assert_eq!(retry.attempts, MAX_FETCH_ATTEMPTS);
}

#[test]
fn delivery_hands_back_the_fetched_board() {
    let mut retry = Retry::new();
    match retry.on_attempt(Ok(Board::blank(42))) {
        RetryDecision::Deliver(b) => assert_eq!(b.block_height, 42),
        _ => panic!("a success must be delivered"),
    }
}
