use anomaly_monitor::sampler::{next_action, RetryAction, RetryPolicy};

#[test]
fn backoff_doubles_then_gives_up() {
    let p = RetryPolicy { max_retries: 3, base_delay_ms: 100, max_delay_ms: 1000 };
    assert_eq!(next_action(&p, 1), RetryAction::Wait { delay_ms: 100 });
    assert_eq!(next_action(&p, 2), RetryAction::Wait { delay_ms: 200 });
    assert_eq!(next_action(&p, 3), RetryAction::Wait { delay_ms: 400 });
    assert_eq!(next_action(&p, 4), RetryAction::GiveUp);
}

#[test]
fn backoff_is_capped() {
    let p = RetryPolicy { max_retries: 100, base_delay_ms: 100, max_delay_ms: 250 };
    assert_eq!(next_action(&p, 3), RetryAction::Wait { delay_ms: 250 });
    assert_eq!(next_action(&p, 90), RetryAction::Wait { delay_ms: 250 });
    let big = RetryPolicy { max_retries: 100, base_delay_ms: u64::MAX, max_delay_ms: u64::MAX };
    assert_eq!(next_action(&big, 80), RetryAction::Wait { delay_ms: u64::MAX });
}
