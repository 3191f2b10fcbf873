use friend_crawler::crawl::{crawl_graph, CrawlResult, FetchOutcome, FlightTracker};

fn s(text: &str) -> String {
    String::from(text)
}

fn friends(ids: &[&str]) -> FetchOutcome {
    FetchOutcome::Friends(ids.iter().map(|i| s(i)).collect())
}

#[test]
fn four_node_scenario() {
    // Seed "A", graph A -> {B, C}, B -> {A, D}, C -> {}, D -> {}.
    let table = vec![
        (s("A"), friends(&["B", "C"])),
        (s("B"), friends(&["A", "D"])),
        (s("C"), friends(&[])),
        (s("D"), friends(&[])),
    ];
    let CrawlResult { registry, audit, .. } = crawl_graph(&s("A"), &table);
    // Four distinct nodes discovered, frontier empty, nothing unparseable.
    assert_eq!(registry.distinct_count(), 4);
    assert_eq!(registry.pending_count(), 0);
    assert_eq!(registry.sentinel_value(), 0);
    // The seed is claimed once at the start and rediscovered once from B;
    // every other node is discovered exactly once.
    assert_eq!(registry.count_of(&s("A")), Some(2));
    assert_eq!(registry.count_of(&s("B")), Some(1));
    assert_eq!(registry.count_of(&s("C")), Some(1));
    assert_eq!(registry.count_of(&s("D")), Some(1));
    // Each discovered node enters the audit trail once; B in particular is
    // fetched only once however often it is listed.
    assert_eq!(audit.len(), 3);
    assert!(audit.contains(&s("B")));
    assert!(audit.contains(&s("C")));
    assert!(audit.contains(&s("D")));
    assert_eq!(audit.iter().filter(|id| **id == s("B")).count(), 1);
}

#[test]
fn cyclic_graph_terminates() {
    let table = vec![(s("A"), friends(&["B"])), (s("B"), friends(&["A"]))];
    let out = crawl_graph(&s("A"), &table);
    assert_eq!(out.registry.distinct_count(), 2);
    assert_eq!(out.registry.count_of(&s("A")), Some(2));
    assert_eq!(out.registry.count_of(&s("B")), Some(1));
    assert_eq!(out.registry.pending_count(), 0);
}

#[test]
fn seed_self_loop_counts_rediscovery() {
    let table = vec![(s("A"), friends(&["A"]))];
    let out = crawl_graph(&s("A"), &table);
    assert_eq!(out.registry.distinct_count(), 1);
    assert_eq!(out.registry.count_of(&s("A")), Some(2));
    assert!(out.audit.is_empty());
}

#[test]
fn seed_without_row_is_dropped_but_recorded() {
    let table: Vec<(String, FetchOutcome)> = Vec::new();
    let out = crawl_graph(&s("A"), &table);
    assert_eq!(out.registry.distinct_count(), 1);
    assert_eq!(out.registry.count_of(&s("A")), Some(1));
    assert_eq!(out.registry.pending_count(), 0);
    assert!(out.audit.is_empty());
}

#[test]
fn transport_failure_drops_node_from_traversal() {
    // B's fetch dies on the wire: B is recorded and audited, but nothing
    // beyond B is explored through it, and nothing stays queued.
    let table = vec![
        (s("A"), friends(&["B", "C"])),
        (s("B"), FetchOutcome::TransportError),
        (s("C"), friends(&["E"])),
        (s("E"), friends(&[])),
    ];
    let out = crawl_graph(&s("A"), &table);
    assert_eq!(out.registry.pending_count(), 0);
    assert_eq!(out.registry.count_of(&s("B")), Some(1));
    assert!(out.audit.contains(&s("B")));
    assert_eq!(out.registry.count_of(&s("E")), Some(1));
    assert_eq!(out.registry.distinct_count(), 4);
    assert_eq!(out.registry.sentinel_value(), 0);
}

#[test]
fn unparseable_responses_feed_the_sentinel() {
    let table = vec![
        (s("A"), friends(&["B", "C"])),
        (s("B"), FetchOutcome::Unparseable),
        (s("C"), FetchOutcome::Unparseable),
    ];
    let out = crawl_graph(&s("A"), &table);
    assert_eq!(out.registry.sentinel_value(), 2);
    assert_eq!(out.registry.count_of(&s("B")), Some(1));
    assert_eq!(out.registry.count_of(&s("C")), Some(1));
    assert_eq!(out.registry.pending_count(), 0);
}

#[test]
fn duplicate_listings_count_every_hit() {
    // D is listed by three different nodes: one fetch, three hits.
    let table = vec![
        (s("A"), friends(&["B", "C", "D"])),
        (s("B"), friends(&["D"])),
        (s("C"), friends(&["D"])),
        (s("D"), friends(&[])),
    ];
    let out = crawl_graph(&s("A"), &table);
    assert_eq!(out.registry.count_of(&s("D")), Some(3));
    assert_eq!(out.audit.iter().filter(|id| **id == s("D")).count(), 1);
}

#[test]
fn flight_tracker_detects_pool_termination() {
    let mut tracker = FlightTracker::new();
    assert!(tracker.pool_done(0));
    tracker.begin_work();
    // A worker is in flight: an empty frontier is not the end.
    assert!(!tracker.pool_done(0));
    assert!(!tracker.pool_done(3));
    tracker.finish_work();
    assert!(tracker.pool_done(0));
    assert!(!tracker.pool_done(1));
}
