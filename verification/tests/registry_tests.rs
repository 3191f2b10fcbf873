use friend_crawler::crawl::{apply_fetch_outcome, FetchOutcome};
use friend_crawler::registry::{ClaimOutcome, Registry};

fn s(text: &str) -> String {
    String::from(text)
}

#[test]
fn fresh_claim_counts_one_and_enqueues() {
    let mut reg = Registry::new();
    let outcome = reg.try_claim_or_enqueue(&s("alice"));
    assert_eq!(outcome, ClaimOutcome::NewlyEnqueued);
    assert_eq!(reg.count_of(&s("alice")), Some(1));
    assert_eq!(reg.pending_count(), 1);
    assert_eq!(reg.sentinel_value(), 0);
}

#[test]
fn repeat_claim_bumps_count_without_enqueue() {
    let mut reg = Registry::new();
    reg.try_claim_or_enqueue(&s("alice"));
    let outcome = reg.try_claim_or_enqueue(&s("alice"));
    assert_eq!(outcome, ClaimOutcome::AlreadyVisited);
    assert_eq!(reg.count_of(&s("alice")), Some(2));
    assert_eq!(reg.pending_count(), 1);
}

#[test]
fn pop_hands_out_claimed_identifier_once() {
    let mut reg = Registry::new();
    reg.try_claim_or_enqueue(&s("alice"));
    assert_eq!(reg.pop_next(), Some(s("alice")));
    assert_eq!(reg.pop_next(), None);
    assert_eq!(reg.count_of(&s("alice")), Some(1));
}

#[test]
fn unknown_identifier_has_no_count() {
    let reg = Registry::new();
    assert_eq!(reg.count_of(&s("nobody")), None);
    assert_eq!(reg.distinct_count(), 0);
}

#[test]
fn idempotent_resubmission_one_enqueue_two_counts() {
    // Feeding the same neighbour list twice: one enqueue, two increments.
    let mut reg = Registry::new();
    let list = FetchOutcome::Friends(vec![s("bob"), s("carol")]);
    let first = apply_fetch_outcome(&mut reg, &list);
    let second = apply_fetch_outcome(&mut reg, &list);
    assert_eq!(first, vec![s("bob"), s("carol")]);
    assert!(second.is_empty());
    assert_eq!(reg.count_of(&s("bob")), Some(2));
    assert_eq!(reg.count_of(&s("carol")), Some(2));
    assert_eq!(reg.pending_count(), 2);
}

#[test]
fn racing_claims_count_every_discovery() {
    // However many times an identifier is claimed, its count is the number
    // of claims and it enters the frontier exactly once.
    let mut reg = Registry::new();
    for _ in 0..5 {
        reg.try_claim_or_enqueue(&s("dave"));
    }
    assert_eq!(reg.count_of(&s("dave")), Some(5));
    assert_eq!(reg.pending_count(), 1);
}

#[test]
fn sentinel_rises_once_per_unparseable_response() {
    let mut reg = Registry::new();
    assert_eq!(reg.sentinel_value(), 0);
    reg.record_unparseable();
    assert_eq!(reg.sentinel_value(), 1);
    reg.record_unparseable();
    assert_eq!(reg.sentinel_value(), 2);
    // No other operation moves the sentinel.
    reg.try_claim_or_enqueue(&s("erin"));
    reg.pop_next();
    reg.mark_dequeued(&s("erin"));
    assert_eq!(reg.sentinel_value(), 2);
}

#[test]
fn mark_dequeued_is_idempotent_with_claim() {
    let mut reg = Registry::new();
    reg.try_claim_or_enqueue(&s("frank"));
    reg.try_claim_or_enqueue(&s("frank"));
    reg.mark_dequeued(&s("frank"));
    assert_eq!(reg.count_of(&s("frank")), Some(2));
    // An identifier never claimed is recorded with count 1, not enqueued.
    reg.mark_dequeued(&s("grace"));
    assert_eq!(reg.count_of(&s("grace")), Some(1));
    assert_eq!(reg.pending_count(), 1);
}

#[test]
fn snapshot_lists_every_identifier_once() {
    let mut reg = Registry::new();
    reg.try_claim_or_enqueue(&s("alice"));
    reg.try_claim_or_enqueue(&s("bob"));
    reg.try_claim_or_enqueue(&s("alice"));
    let snap = reg.snapshot();
    assert_eq!(snap.len(), 2);
    assert_eq!(reg.distinct_count(), 2);
    assert!(snap.contains(&(s("alice"), 2)));
    assert!(snap.contains(&(s("bob"), 1)));
}

#[test]
fn transport_error_outcome_changes_nothing() {
    let mut reg = Registry::new();
    reg.try_claim_or_enqueue(&s("alice"));
    let newly = apply_fetch_outcome(&mut reg, &FetchOutcome::TransportError);
    assert!(newly.is_empty());
    assert_eq!(reg.count_of(&s("alice")), Some(1));
    assert_eq!(reg.pending_count(), 1);
    assert_eq!(reg.sentinel_value(), 0);
}

#[test]
fn unparseable_outcome_only_bumps_sentinel() {
    let mut reg = Registry::new();
    reg.try_claim_or_enqueue(&s("alice"));
    let newly = apply_fetch_outcome(&mut reg, &FetchOutcome::Unparseable);
    assert!(newly.is_empty());
    assert_eq!(reg.count_of(&s("alice")), Some(1));
    assert_eq!(reg.sentinel_value(), 1);
}
