use friend_crawler::client::{
    call_step, classify_status, friend_list_params, resolve_transcript, Attempt, BackoffPolicy,
    CallResolution, CallStep, StatusClass,
};
use friend_crawler::state::State;

fn s(text: &str) -> String {
    String::from(text)
}

fn delivered(status: u16, body: &str) -> Attempt {
    Attempt::Delivered { status, body: s(body) }
}

#[test]
fn status_codes_classify_as_documented() {
    assert_eq!(classify_status(200), StatusClass::Success);
    assert_eq!(classify_status(429), StatusClass::RateLimited);
    assert_eq!(classify_status(403), StatusClass::RateLimited);
    assert_eq!(classify_status(500), StatusClass::Unexpected);
    assert_eq!(classify_status(404), StatusClass::Unexpected);
}

#[test]
fn rate_limit_twice_then_success_retries_until_the_third_body() {
    // A fake transcript: rate-limited twice, then success. The client must
    // retry exactly until the success, sleeping a backoff both times, and
    // the resolved body is the third attempt's.
    let transcript = vec![
        delivered(429, "slow down"),
        delivered(403, "slow down again"),
        delivered(200, "the real answer"),
    ];
    match resolve_transcript(transcript) {
        CallResolution::Resolved { body, rate_limited, retried } => {
            assert_eq!(body, s("the real answer"));
            assert_eq!(rate_limited, 2);
            assert!(rate_limited >= 2);
            assert_eq!(retried, 2);
        },
        other => panic!("expected a resolved call, got {:?}", other),
    }
}

#[test]
fn transport_failure_propagates_instead_of_retrying() {
    let transcript = vec![
        delivered(500, "hiccup"),
        Attempt::TransportFailed { error: s("connection refused") },
        delivered(200, "never reached"),
    ];
    match resolve_transcript(transcript) {
        CallResolution::Failed { error, rate_limited, retried } => {
            assert_eq!(error, s("connection refused"));
            assert_eq!(rate_limited, 0);
            assert_eq!(retried, 1);
        },
        other => panic!("expected a transport failure, got {:?}", other),
    }
}

#[test]
fn exhausted_transcript_stays_unresolved() {
    let transcript = vec![delivered(429, "a"), delivered(503, "b")];
    match resolve_transcript(transcript) {
        CallResolution::Unresolved { rate_limited, retried } => {
            assert_eq!(rate_limited, 1);
            assert_eq!(retried, 2);
        },
        other => panic!("expected an unresolved call, got {:?}", other),
    }
}

#[test]
fn immediate_success_needs_no_retry() {
    let transcript = vec![delivered(200, "first time")];
    match resolve_transcript(transcript) {
        CallResolution::Resolved { body, rate_limited, retried } => {
            assert_eq!(body, s("first time"));
            assert_eq!(rate_limited, 0);
            assert_eq!(retried, 0);
        },
        other => panic!("expected a resolved call, got {:?}", other),
    }
}

#[test]
fn call_step_follows_the_backoff_policy() {
    let policy = BackoffPolicy::standard();
    match call_step(&policy, delivered(200, "ok")) {
        CallStep::Finished { body } => assert_eq!(body, s("ok")),
        other => panic!("expected finished, got {:?}", other),
    }
    match call_step(&policy, delivered(429, "wait")) {
        CallStep::RetryAfter { delay_secs } => assert_eq!(delay_secs, 60),
        other => panic!("expected a backoff, got {:?}", other),
    }
    match call_step(&policy, delivered(500, "odd")) {
        CallStep::RetryAfter { delay_secs } => assert_eq!(delay_secs, 0),
        other => panic!("expected an immediate retry, got {:?}", other),
    }
    match call_step(&policy, Attempt::TransportFailed { error: s("dns") }) {
        CallStep::Failed { error } => assert_eq!(error, s("dns")),
        other => panic!("expected a failure, got {:?}", other),
    }
}

#[test]
fn fast_policy_can_be_injected_for_tests() {
    let policy = BackoffPolicy { rate_limit_secs: 0, unexpected_secs: 0 };
    match call_step(&policy, delivered(403, "wait")) {
        CallStep::RetryAfter { delay_secs } => assert_eq!(delay_secs, 0),
        other => panic!("expected a backoff, got {:?}", other),
    }
}

#[test]
fn friend_list_params_carry_token_and_target() {
    let state = State::new(s("example-token"));
    let params = friend_list_params(state.token(), &s("76561198021266721"));
    assert_eq!(params.len(), 3);
    assert_eq!(params[0], (s("relationship"), s("friend")));
    assert_eq!(params[1], (s("key"), s("example-token")));
    assert_eq!(params[2], (s("steamid"), s("76561198021266721")));
}

#[test]
fn state_holds_its_token() {
    let state = State::new(s("token-value"));
    assert_eq!(state.token(), &s("token-value"));
    let empty = State::default();
    assert_eq!(empty.token(), &String::new());
}
