use ruckup::http::{
    after_attempt, backoff_delay, bearer, should_retry_status, user_agent, Next, Outcome,
};

#[test]
fn requests_are_retried_twice() {
    assert_eq!(after_attempt(0, Outcome::Answered(200)), Next::Read);
    assert_eq!(after_attempt(0, Outcome::Answered(503)), Next::RetryAfter(250));
    assert_eq!(after_attempt(1, Outcome::Unreached), Next::RetryAfter(500));
    assert_eq!(after_attempt(2, Outcome::Answered(429)), Next::Fail);
    assert_eq!(after_attempt(0, Outcome::Answered(404)), Next::Fail);
    assert_eq!(after_attempt(0, Outcome::Failed), Next::Fail);
    assert_eq!(backoff_delay(1), 500);
    assert!(should_retry_status(429));
    assert!(should_retry_status(599));
    assert!(!should_retry_status(600));
}

#[test]
fn requests_name_their_sender() {
    assert_eq!(user_agent(), "ruckup/0.1.0");
    assert_eq!(bearer("t"), "Bearer t");
}
