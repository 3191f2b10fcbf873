//! The resilient call client's decision layer.
//!
//! One logical request may take many attempts: the remote service answers
//! with a status signal, and the client classifies it — success hands the
//! body back, a rate-limit signal means sleeping a fixed backoff and trying
//! again, any other status means trying again at once, and only a
//! transport-level failure is handed to the caller as an error. The sending
//! itself lives in the surrounding application; this module decides, for
//! each attempt, what to do next, and resolves whole transcripts of
//! attempts, so the retry policy can be checked without a network.
use crate::registry::capped_add;
use vstd::prelude::*;
use vstd::string::StringExecFns;

verus! {

/// How a response's status signal is classified.
#[derive(Debug, PartialEq, Eq)]
pub enum StatusClass {
    /// The request succeeded and the body is the answer.
    Success,
    /// The service is rate-limiting the caller: back off, then retry.
    RateLimited,
    /// Any other signal: log it and retry.
    Unexpected,
}

/// The classification of one status code: 200 succeeds, 429 and 403 are the
/// service's rate-limit signals, everything else is unexpected.
pub open spec fn spec_classify(code: u16) -> StatusClass {
    if code == 200 {
        StatusClass::Success
    } else if code == 429 || code == 403 {
        StatusClass::RateLimited
    } else {
        StatusClass::Unexpected
    }
}

/// Classify one status code.
pub fn classify_status(code: u16) -> (c: StatusClass)
    ensures
        c == spec_classify(code),
{
    if code == 200 {
        StatusClass::Success
    } else if code == 429 || code == 403 {
        StatusClass::RateLimited
    } else {
        StatusClass::Unexpected
    }
}

/// How long to sleep before retrying, in seconds, per class of signal.
/// The policy is a value so that tests can inject fast timing.
pub struct BackoffPolicy {
    pub rate_limit_secs: u64,
    pub unexpected_secs: u64,
}

impl BackoffPolicy {
    /// The production policy: a flat minute after a rate-limit signal, an
    /// immediate retry after an unexpected one.
    pub fn standard() -> (p: BackoffPolicy)
        ensures
            p.rate_limit_secs == 60,
            p.unexpected_secs == 0,
    {
        BackoffPolicy { rate_limit_secs: 60, unexpected_secs: 0 }
    }
}

/// One attempt at the request, as the transport reports it.
#[derive(Debug)]
pub enum Attempt {
    /// A response arrived, with its status code and body text.
    Delivered { status: u16, body: String },
    /// The request failed below the protocol: no response at all.
    TransportFailed { error: String },
}

/// What to do after one attempt.
#[derive(Debug)]
pub enum CallStep {
    /// The request is done: this is its body.
    Finished { body: String },
    /// A transport failure: give up and hand the error to the caller.
    Failed { error: String },
    /// Sleep this long, then send the same request again.
    RetryAfter { delay_secs: u64 },
}

/// The decision after one attempt: success finishes, a transport failure
/// fails, and every other outcome retries after the policy's backoff.
pub open spec fn spec_call_step(p: BackoffPolicy, a: Attempt) -> CallStep {
    match a {
        Attempt::Delivered { status, body } => match spec_classify(status) {
            StatusClass::Success => CallStep::Finished { body },
            StatusClass::RateLimited => CallStep::RetryAfter { delay_secs: p.rate_limit_secs },
            StatusClass::Unexpected => CallStep::RetryAfter { delay_secs: p.unexpected_secs },
        },
        Attempt::TransportFailed { error } => CallStep::Failed { error },
    }
}

/// Decide what one attempt's outcome means for the retry loop.
pub fn call_step(policy: &BackoffPolicy, attempt: Attempt) -> (s: CallStep)
    ensures
        s == spec_call_step(*policy, attempt),
{
    match attempt {
        Attempt::Delivered { status, body } => match classify_status(status) {
            StatusClass::Success => CallStep::Finished { body },
            StatusClass::RateLimited => CallStep::RetryAfter {
                delay_secs: policy.rate_limit_secs,
            },
            StatusClass::Unexpected => CallStep::RetryAfter {
                delay_secs: policy.unexpected_secs,
            },
        },
        Attempt::TransportFailed { error } => CallStep::Failed { error },
    }
}

/// How a whole transcript of attempts resolves, with the number of
/// rate-limit backoffs slept and of attempts retried along the way.
#[derive(Debug)]
pub enum CallResolution {
    /// Some attempt succeeded: its body, after the counted retries.
    Resolved { body: String, rate_limited: u64, retried: u64 },
    /// Some attempt failed at the transport level before any succeeded.
    Failed { error: String, rate_limited: u64, retried: u64 },
    /// The transcript ran out with the request still unresolved.
    Unresolved { rate_limited: u64, retried: u64 },
}

/// The same resolution with earlier retries added to its counters.
pub open spec fn with_more_retries(r: CallResolution, rl: nat, rt: nat) -> CallResolution {
    match r {
        CallResolution::Resolved { body, rate_limited, retried } => CallResolution::Resolved {
            body,
            rate_limited: capped_add(rate_limited, rl),
            retried: capped_add(retried, rt),
        },
        CallResolution::Failed { error, rate_limited, retried } => CallResolution::Failed {
            error,
            rate_limited: capped_add(rate_limited, rl),
            retried: capped_add(retried, rt),
        },
        CallResolution::Unresolved { rate_limited, retried } => CallResolution::Unresolved {
            rate_limited: capped_add(rate_limited, rl),
            retried: capped_add(retried, rt),
        },
    }
}

/// The resolution of a transcript: the first success or transport failure
/// wins, and every attempt before it counts as one retry — one slept
/// backoff when it was a rate-limit signal.
pub open spec fn spec_resolve(attempts: Seq<Attempt>) -> CallResolution
    decreases attempts.len(),
{
    if attempts.len() == 0 {
        CallResolution::Unresolved { rate_limited: 0, retried: 0 }
    } else {
        match attempts.first() {
            Attempt::TransportFailed { error } => CallResolution::Failed {
                error,
                rate_limited: 0,
                retried: 0,
            },
            Attempt::Delivered { status, body } => {
                if spec_classify(status) is Success {
                    CallResolution::Resolved { body, rate_limited: 0, retried: 0 }
                } else {
                    with_more_retries(
                        spec_resolve(attempts.drop_first()),
                        if spec_classify(status) is RateLimited {
                            1nat
                        } else {
                            0nat
                        },
                        1nat,
                    )
                }
            },
        }
    }
}

/// Adding retries twice is adding them once, with the counts summed.
proof fn lemma_retries_compose(r: CallResolution, rl1: nat, rt1: nat, rl2: nat, rt2: nat)
    ensures
        with_more_retries(with_more_retries(r, rl1, rt1), rl2, rt2) == with_more_retries(
            r,
            rl1 + rl2,
            rt1 + rt2,
        ),
{
}

/// Resolve a transcript of attempts exactly as the retry loop would: walk
/// it until the first success or transport failure, counting the retries
/// and the rate-limit backoffs walked over.
#[verifier::loop_isolation(false)]
pub fn resolve_transcript(attempts: Vec<Attempt>) -> (r: CallResolution)
    ensures
        r == spec_resolve(attempts@),
{
    let ghost orig = attempts@;
    let mut attempts = attempts;
    let total = attempts.len();
    let mut rate_limited: u64 = 0;
    let mut retried: u64 = 0;
    proof {
        assert(orig.len() == total as int);
        assert(with_more_retries(spec_resolve(attempts@), 0, 0) == spec_resolve(orig));
    }
    while attempts.len() > 0
        invariant
            with_more_retries(
                spec_resolve(attempts@),
                rate_limited as nat,
                retried as nat,
            ) == spec_resolve(orig),
            rate_limited <= retried,
            retried as int + attempts@.len() <= orig.len(),
            orig.len() <= usize::MAX as int,
        decreases attempts@.len(),
    {
        let ghost before = attempts@;
        let attempt = attempts.remove(0);
        proof {
            assert(attempts@ =~= before.drop_first());
            assert(attempt == before.first());
        }
        match attempt {
            Attempt::TransportFailed { error } => {
                return CallResolution::Failed { error, rate_limited, retried };
            },
            Attempt::Delivered { status, body } => {
                let class = classify_status(status);
                match class {
                    StatusClass::Success => {
                        return CallResolution::Resolved { body, rate_limited, retried };
                    },
                    StatusClass::RateLimited => {
                        proof {
                            lemma_retries_compose(
                                spec_resolve(attempts@),
                                1nat,
                                1nat,
                                rate_limited as nat,
                                retried as nat,
                            );
                        }
                        rate_limited = rate_limited + 1;
                        retried = retried + 1;
                    },
                    StatusClass::Unexpected => {
                        proof {
                            lemma_retries_compose(
                                spec_resolve(attempts@),
                                0nat,
                                1nat,
                                rate_limited as nat,
                                retried as nat,
                            );
                        }
                        retried = retried + 1;
                    },
                }
            },
        }
    }
    CallResolution::Unresolved { rate_limited, retried }
}

/// The query parameters of one neighbour-list request: the fixed
/// relationship filter, the bearer token, and the identifier to fetch.
pub fn friend_list_params(token: &String, id: &String) -> (v: Vec<(String, String)>)
    ensures
        v@.len() == 3,
        v@[0].0@ == "relationship"@ && v@[0].1@ == "friend"@,
        v@[1].0@ == "key"@ && v@[1].1@ == token@,
        v@[2].0@ == "steamid"@ && v@[2].1@ == id@,
{
    let mut v: Vec<(String, String)> = Vec::new();
    v.push((String::from_str("relationship"), String::from_str("friend")));
    v.push((String::from_str("key"), token.clone()));
    v.push((String::from_str("steamid"), id.clone()));
    v
}

} // verus!
