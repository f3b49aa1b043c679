//! How requests identify themselves, and when they are tried again.
use vstd::prelude::*;
use vstd::string::*;

verus! {

/// How often a failed request is tried again.
pub const MAX_RETRIES: usize = 2;

/// How long to wait before the first retry, in milliseconds.
pub const BASE_BACKOFF_MS: u64 = 250;

/// The name that requests are sent under.
pub fn user_agent() -> (r: String)
    ensures
        r@ == "ruckup/0.1.0"@,
{
    "ruckup/0.1.0".to_owned()
}

/// The value of the authorization header for a token.
pub fn bearer(token: &str) -> (r: String)
    ensures
        r@ == "Bearer "@ + token@,
{
    let mut out: String = "Bearer ".to_owned();
    out.append(token);
    out
}

/// How long to wait after the given attempt, in milliseconds: each time longer by
/// the same amount.
pub fn backoff_delay(attempt: usize) -> (r: u64)
    requires
        BASE_BACKOFF_MS * (attempt + 1) <= u64::MAX,
    ensures
        r == BASE_BACKOFF_MS * (attempt + 1),
{
    BASE_BACKOFF_MS * (attempt as u64 + 1)
}

/// The server may answer otherwise later: it had too many requests, or failed.
pub open spec fn is_passing(status: u16) -> bool {
    status == 429 || 500 <= status < 600
}

pub fn should_retry_status(status: u16) -> (r: bool)
    ensures
        r == is_passing(status),
{
    status == 429 || (500 <= status && status < 600)
}

/// How an attempt at a request ended.
#[derive(Debug, Clone, Copy, PartialEq, Eq, Structural)]
pub enum Outcome {
    /// The server answered with this status.
    Answered(u16),
    /// The connection failed or timed out.
    Unreached,
    /// The request failed otherwise.
    Failed,
}

/// What to do after an attempt.
#[derive(Debug, Clone, Copy, PartialEq, Eq, Structural)]
pub enum Next {
    /// Read the answer.
    Read,
    /// Wait for so many milliseconds, then try again.
    RetryAfter(u64),
    /// Report the failure.
    Fail,
}

/// A later attempt may succeed.
pub open spec fn may_pass(outcome: Outcome) -> bool {
    match outcome {
        Outcome::Answered(status) => is_passing(status),
        Outcome::Unreached => true,
        Outcome::Failed => false,
    }
}

/// What to do after the attempt of the given number, counted from zero.
pub open spec fn decision(attempt: usize, outcome: Outcome) -> Next {
    if outcome matches Outcome::Answered(status) && 200 <= status < 300 {
        Next::Read
    } else if may_pass(outcome) && attempt < MAX_RETRIES {
        Next::RetryAfter((BASE_BACKOFF_MS * (attempt + 1)) as u64)
    } else {
        Next::Fail
    }
}

pub fn after_attempt(attempt: usize, outcome: Outcome) -> (r: Next)
    ensures
        r == decision(attempt, outcome),
{
    let passing: bool = match outcome {
        Outcome::Answered(status) => {
            if 200 <= status && status < 300 {
                return Next::Read;
            }
            should_retry_status(status)
        },
        Outcome::Unreached => true,
        Outcome::Failed => false,
    };
    if passing && attempt < MAX_RETRIES {
        Next::RetryAfter(backoff_delay(attempt))
    } else {
        Next::Fail
    }
}

/// How many requests are sent where attempt after attempt ends as given.
pub open spec fn requests_sent(outcomes: Seq<Outcome>, attempt: usize) -> nat
    decreases outcomes.len(),
{
    if outcomes.len() == 0 {
        0
    } else {
        match decision(attempt, outcomes[0]) {
            Next::RetryAfter(_) => 1 + requests_sent(outcomes.skip(1), (attempt + 1) as usize),
            _ => 1,
        }
    }
}

/// However the attempts end, no more than three requests are sent.
pub proof fn law_retries_are_bounded(outcomes: Seq<Outcome>)
    ensures
        requests_sent(outcomes, 0) <= MAX_RETRIES + 1,
{
    lemma_requests(outcomes, 0);
}

proof fn lemma_requests(outcomes: Seq<Outcome>, attempt: usize)
    requires
        attempt <= MAX_RETRIES,
    ensures
        requests_sent(outcomes, attempt) <= MAX_RETRIES + 1 - attempt,
    decreases outcomes.len(),
{
    if outcomes.len() > 0 && decision(attempt, outcomes[0]) is RetryAfter {
        lemma_requests(outcomes.skip(1), (attempt + 1) as usize);
    }
}

/// An answer in the two hundreds is read. An answer that there were too many
/// requests or that the server failed, and no answer at all, are tried again after a
/// quarter of a second for each attempt made, until two tries were made. All else
/// fails.
pub proof fn law_what_is_tried_again(attempt: usize, status: u16)
    ensures
        200 <= status <= 299 ==> decision(attempt, Outcome::Answered(status)) == Next::Read,
        (status == 429 || 500 <= status <= 599) && attempt < 2 ==> decision(
            attempt,
            Outcome::Answered(status),
        ) == Next::RetryAfter((250 * attempt + 250) as u64),
        attempt < 2 ==> decision(attempt, Outcome::Unreached) == Next::RetryAfter(
            (250 * attempt + 250) as u64,
        ),
        attempt >= 2 ==> decision(attempt, Outcome::Unreached) == Next::Fail,
        attempt >= 2 && !(200 <= status <= 299) ==> decision(attempt, Outcome::Answered(status))
            == Next::Fail,
        !(200 <= status <= 299) && status != 429 && !(500 <= status <= 599) ==> decision(
            attempt,
            Outcome::Answered(status),
        ) == Next::Fail,
        decision(attempt, Outcome::Failed) == Next::Fail,
{
}

} // verus!
