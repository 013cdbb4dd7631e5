use object_store::error::{Error, ErrorKind};
use object_store::retry::{surface, RetryDecision, RetryState, MAX_NUM_RETRIES};

/// Runs a request that fails transiently `k` times, then succeeds; returns
/// (succeeded, attempts, total wait in ms).
fn run(k: u32) -> (bool, u32, u64) {
    let mut state = RetryState::new();
    let mut attempts = 0;
    let mut slept = 0;
    loop {
        attempts += 1;
        if attempts > k {
            return (true, attempts, slept);
        }
        match state.on_failure(true) {
            RetryDecision::Retry { wait_ms } => slept += wait_ms,
            RetryDecision::GiveUp => return (false, attempts, slept),
        }
    }
}

#[test]
fn transient_failures_are_retried_three_times() {
    assert_eq!(run(0), (true, 1, 0));
    assert_eq!(run(1), (true, 2, 100));
    assert_eq!(run(2), (true, 3, 300));
    assert_eq!(run(3), (true, 4, 700));
    assert_eq!(run(4), (false, 4, 700));
    assert_eq!(run(9), (false, 4, 700));
    assert_eq!(MAX_NUM_RETRIES, 3);
}

#[test]
fn backoff_doubles_from_one_hundred_ms() {
    let mut state = RetryState::new();
    assert_eq!(state.on_failure(true), RetryDecision::Retry { wait_ms: 100 });
    assert_eq!(state.on_failure(true), RetryDecision::Retry { wait_ms: 200 });
    assert_eq!(state.on_failure(true), RetryDecision::Retry { wait_ms: 400 });
    assert_eq!(state.on_failure(true), RetryDecision::GiveUp);
    assert_eq!(state.failures_so_far(), 4);
}

#[test]
fn client_errors_are_never_retried() {
    let mut state = RetryState::new();
    assert_eq!(state.on_failure(false), RetryDecision::GiveUp);
    assert_eq!(state.failures_so_far(), 1);
}

#[test]
fn exhausted_transient_failure_surfaces_as_permanent() {
    let e = surface(Error::new(ErrorKind::Transient, "503".to_string()));
    assert_eq!(e.kind, ErrorKind::PermanentClient);
    assert_eq!(e.detail, "503");
    let e = surface(Error::new(ErrorKind::NotFound, "gone".to_string()));
    assert_eq!(e.kind, ErrorKind::NotFound);
}
