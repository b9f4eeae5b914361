use sh_bot::Retrier;
use sh_bot::RetryAction;
use sh_bot::TransportError;

#[test]
fn zero_budget_fails_with_default_message() {
    let r = Retrier::new(0);
    assert!(!r.may_attempt());
    assert_eq!("Maximum number of retries exceeded.", r.failure_message());
}

#[test]
fn rate_limiting_waits_without_spending_attempts() {
    let mut r = Retrier::new(1);
    for _ in 0..10 {
        assert!(r.may_attempt());
        match r.on_error(TransportError::RateLimited { delay_millis: 250 }) {
            RetryAction::RetryAfterMillis { millis } => assert_eq!(250, millis),
            RetryAction::GiveUp { .. } => panic!("rate limiting is never fatal"),
        }
    }
    assert!(r.may_attempt());
}

#[test]
fn other_errors_spend_attempts_and_keep_the_last_message() {
    let mut r = Retrier::new(3);
    match r.on_error(TransportError::Other {
        description: "first".to_string(),
    }) {
        RetryAction::RetryAfterMillis { millis } => assert_eq!(1000, millis),
        RetryAction::GiveUp { .. } => panic!("two attempts were left"),
    }
    match r.on_error(TransportError::Other {
        description: "second".to_string(),
    }) {
        RetryAction::RetryAfterMillis { millis } => assert_eq!(1000, millis),
        RetryAction::GiveUp { .. } => panic!("one attempt was left"),
    }
    assert!(r.may_attempt());
    match r.on_error(TransportError::Other {
        description: "third".to_string(),
    }) {
        RetryAction::GiveUp { message } => assert_eq!("third", message),
        RetryAction::RetryAfterMillis { .. } => panic!("the budget was exhausted"),
    }
    assert!(!r.may_attempt());
    assert_eq!("third", r.failure_message());
}

#[test]
fn rate_limits_between_failures_do_not_reset_the_message() {
    let mut r = Retrier::new(2);
    r.on_error(TransportError::Other {
        description: "boom".to_string(),
    });
    r.on_error(TransportError::RateLimited { delay_millis: 10 });
    assert_eq!("boom", r.failure_message());
    match r.on_error(TransportError::Other {
        description: "final".to_string(),
    }) {
        RetryAction::GiveUp { message } => assert_eq!("final", message),
        RetryAction::RetryAfterMillis { .. } => panic!("the budget was exhausted"),
    }
}
