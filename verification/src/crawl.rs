//! The worker step and the traversal engine.
//!
//! A worker pulls an identifier from the frontier, fetches its neighbour
//! list, and folds the outcome of that fetch into the registry: a parsed
//! list claims every neighbour, an unparseable body raises the sentinel, and
//! a transport failure drops the identifier from the traversal. The whole
//! crawl is that step repeated until the frontier runs dry.
//!
//! `crawl_graph` runs the traversal against a fetcher given as a finite
//! table from identifier to outcome, and is proved to terminate and to
//! return exactly the identifiers discovered from the seed.
use crate::registry::{
    bump, capped_add, claim_seq_counts, claim_seq_frontier, fresh_ids, id_views,
    lemma_claim_seq_effect, lemma_occ_positive, occ, ClaimOutcome, Registry,
};
use vstd::prelude::*;
use vstd::seq_lib::*;
use vstd::set_lib::*;

verus! {

/// What one fetch of an identifier's neighbour list came to.
#[derive(Debug)]
pub enum FetchOutcome {
    /// The response parsed: these are the identifier's neighbours.
    Friends(Vec<String>),
    /// The response arrived but was not a neighbour list (a private
    /// profile, an unexpected shape): counted against the sentinel.
    Unparseable,
    /// The request failed at the transport level: the identifier is dropped
    /// from the traversal.
    TransportError,
}

/// The hit-count table after folding one fetch outcome into it.
pub open spec fn outcome_counts(m: Map<Seq<char>, u64>, o: FetchOutcome) -> Map<Seq<char>, u64> {
    match o {
        FetchOutcome::Friends(l) => claim_seq_counts(m, id_views(l@)),
        _ => m,
    }
}

/// The frontier after folding one fetch outcome into the registry.
pub open spec fn outcome_frontier(
    m: Map<Seq<char>, u64>,
    f: Seq<Seq<char>>,
    o: FetchOutcome,
) -> Seq<Seq<char>> {
    match o {
        FetchOutcome::Friends(l) => claim_seq_frontier(m, f, id_views(l@)),
        _ => f,
    }
}

/// The sentinel after one fetch outcome: it rises exactly on an unparseable
/// response, and never falls.
pub open spec fn outcome_sentinel(s: u64, o: FetchOutcome) -> u64 {
    match o {
        FetchOutcome::Unparseable => bump(s),
        _ => s,
    }
}

/// The sentinel counter never falls, and it rises — by exactly one, until
/// it saturates — precisely on an unparseable response.
pub proof fn lemma_sentinel_monotonic(s: u64, o: FetchOutcome)
    ensures
        outcome_sentinel(s, o) >= s,
        o is Unparseable && s < u64::MAX ==> outcome_sentinel(s, o) == s + 1,
        !(o is Unparseable) ==> outcome_sentinel(s, o) == s,
{
}

/// The identifiers a fetch outcome newly discovers: the neighbours that were
/// fresh when claimed, in claim order.
pub open spec fn outcome_fresh(m: Map<Seq<char>, u64>, o: FetchOutcome) -> Seq<Seq<char>> {
    match o {
        FetchOutcome::Friends(l) => fresh_ids(m, id_views(l@)),
        _ => Seq::empty(),
    }
}

/// Membership in a sequence, split at its last element.
pub proof fn lemma_contains_split(s: Seq<Seq<char>>, x: Seq<char>)
    requires
        s.len() > 0,
    ensures
        s.contains(x) <==> (s.drop_last().contains(x) || s.last() == x),
{
    if s.last() == x {
        assert(s[s.len() - 1] == x);
    }
    if s.drop_last().contains(x) {
        let i = choose|i: int| 0 <= i < s.drop_last().len() && s.drop_last()[i] == x;
        assert(s[i] == x);
    }
    if s.contains(x) && s.last() != x {
        let i = choose|i: int| 0 <= i < s.len() && s[i] == x;
        assert(s.drop_last()[i] == x);
    }
}

/// A claim sequence ends up knowing exactly what was known before plus what
/// it claimed.
pub proof fn lemma_claim_seq_dom(m: Map<Seq<char>, u64>, ids: Seq<Seq<char>>)
    ensures
        forall|k: Seq<char>|
            #[trigger] claim_seq_counts(m, ids).contains_key(k) <==> (m.contains_key(k)
                || ids.contains(k)),
{
    assert forall|k: Seq<char>|
        #[trigger] claim_seq_counts(m, ids).contains_key(k) <==> (m.contains_key(k)
            || ids.contains(k)) by {
        lemma_claim_seq_effect(m, Seq::empty(), ids, k);
    }
}

/// A claim sequence appends exactly its fresh identifiers to the frontier;
/// they are pairwise distinct and are the claimed identifiers not yet known.
pub proof fn lemma_fresh_ids(m: Map<Seq<char>, u64>, f: Seq<Seq<char>>, ids: Seq<Seq<char>>)
    ensures
        claim_seq_frontier(m, f, ids) =~= f + fresh_ids(m, ids),
        fresh_ids(m, ids).no_duplicates(),
        forall|k: Seq<char>|
            #[trigger] fresh_ids(m, ids).contains(k) <==> (ids.contains(k) && !m.contains_key(k)),
    decreases ids.len(),
{
    if ids.len() == 0 {
        assert(claim_seq_frontier(m, f, ids) =~= f + fresh_ids(m, ids));
    } else {
        let p = ids.drop_last();
        let last = ids.last();
        lemma_fresh_ids(m, f, p);
        lemma_claim_seq_dom(m, p);
        let fp = fresh_ids(m, p);
        lemma_claim_seq_effect(m, f, p, last);
        assert forall|k: Seq<char>|
            #[trigger] fresh_ids(m, ids).contains(k) <==> (ids.contains(k) && !m.contains_key(
                k,
            )) by {
            lemma_contains_split(ids, k);
            if claim_seq_counts(m, p).contains_key(last) {
                assert(fresh_ids(m, ids) == fp);
            } else {
                lemma_contains_split(fp.push(last), k);
                assert(fp.push(last).drop_last() =~= fp);
                assert(fp.push(last).last() == last);
            }
        }
        if claim_seq_counts(m, p).contains_key(last) {
            assert(claim_seq_frontier(m, f, ids) =~= f + fresh_ids(m, ids));
        } else {
            assert(!fp.contains(last));
            assert(fresh_ids(m, ids) =~= fp.push(last));
            assert forall|i: int, j: int|
                0 <= i < j < fp.push(last).len() implies fp.push(last)[i] != fp.push(last)[j] by {
                if j < fp.len() {
                } else {
                    assert(fp.push(last)[j] == last);
                    assert(fp[i] == fp.push(last)[i]);
                    assert(fp.contains(fp[i]));
                }
            }
            assert(fp.push(last).no_duplicates());
            assert(claim_seq_frontier(m, f, ids) =~= (f + fp).push(last));
            assert((f + fp).push(last) =~= f + fp.push(last));
        }
    }
}

/// The outcome a fetch table holds for an identifier: its first matching
/// row, or nothing when the identifier has no row.
pub open spec fn table_lookup(t: Seq<(String, FetchOutcome)>, id: Seq<char>) -> Option<FetchOutcome>
    decreases t.len(),
{
    if t.len() == 0 {
        None
    } else if t.first().0@ == id {
        Some(t.first().1)
    } else {
        table_lookup(t.drop_first(), id)
    }
}

/// The neighbours one table row contributes: none unless its fetch parsed.
pub open spec fn row_neighbors(row: (String, FetchOutcome)) -> Seq<Seq<char>> {
    match row.1 {
        FetchOutcome::Friends(l) => id_views(l@),
        _ => Seq::empty(),
    }
}

/// Every neighbour any row of the table lists, in table order.
pub open spec fn all_neighbors(t: Seq<(String, FetchOutcome)>) -> Seq<Seq<char>>
    decreases t.len(),
{
    if t.len() == 0 {
        Seq::empty()
    } else {
        all_neighbors(t.drop_last()) + row_neighbors(t.last())
    }
}

/// Every identifier a crawl of the table from this seed could ever meet:
/// the seed and every listed neighbour.
pub open spec fn universe(seed: Seq<char>, t: Seq<(String, FetchOutcome)>) -> Set<Seq<char>> {
    all_neighbors(t).to_set().insert(seed)
}

/// How many times the rows processed so far, in processing order, list `k`
/// as a neighbour.
pub open spec fn hits_from(
    t: Seq<(String, FetchOutcome)>,
    order: Seq<Seq<char>>,
    k: Seq<char>,
) -> nat
    decreases order.len(),
{
    if order.len() == 0 {
        0
    } else {
        hits_from(t, order.drop_last(), k) + match table_lookup(t, order.last()) {
            Some(FetchOutcome::Friends(l)) => occ(id_views(l@), k),
            _ => 0nat,
        }
    }
}

/// How often a crawl with this processing order claims `k`: once as the
/// seed, plus once per listing by a processed row.
pub open spec fn claims_of(
    t: Seq<(String, FetchOutcome)>,
    order: Seq<Seq<char>>,
    seed: Seq<char>,
    k: Seq<char>,
) -> nat {
    (if k == seed {
        1nat
    } else {
        0nat
    }) + hits_from(t, order, k)
}

/// The table's row for this identifier arrived but did not parse.
pub open spec fn row_unparseable(t: Seq<(String, FetchOutcome)>, k: Seq<char>) -> bool {
    match table_lookup(t, k) {
        Some(FetchOutcome::Unparseable) => true,
        _ => false,
    }
}

/// The identifiers among `keys` whose fetches arrived but did not parse.
pub open spec fn unparseable_keys(
    t: Seq<(String, FetchOutcome)>,
    keys: Set<Seq<char>>,
) -> Set<Seq<char>> {
    keys.filter(|k: Seq<char>| row_unparseable(t, k))
}

/// The table's outcome for `k` parsed, and every neighbour it lists is a key
/// of `m`.
pub open spec fn neighbors_recorded(
    t: Seq<(String, FetchOutcome)>,
    k: Seq<char>,
    m: Map<Seq<char>, u64>,
) -> bool {
    match table_lookup(t, k) {
        Some(FetchOutcome::Friends(l)) => forall|j: int|
            0 <= j < l@.len() ==> m.contains_key(#[trigger] l@[j]@),
        _ => true,
    }
}

/// The table's outcome for `d` parsed and lists `k` among its neighbours.
pub open spec fn lists_neighbor(t: Seq<(String, FetchOutcome)>, d: Seq<char>, k: Seq<char>) -> bool {
    match table_lookup(t, d) {
        Some(FetchOutcome::Friends(l)) => exists|j: int| 0 <= j < l@.len() && (#[trigger] l@[j]@)
            == k,
        _ => false,
    }
}

/// A successful lookup names some row of the table.
pub proof fn lemma_lookup_row(t: Seq<(String, FetchOutcome)>, id: Seq<char>, o: FetchOutcome)
    requires
        table_lookup(t, id) == Some(o),
    ensures
        exists|i: int| 0 <= i < t.len() && (#[trigger] t[i]).0@ == id && t[i].1 == o,
    decreases t.len(),
{
    if t.first().0@ == id {
        assert(t[0].0@ == id && t[0].1 == o);
    } else {
        lemma_lookup_row(t.drop_first(), id, o);
        let i = choose|i: int|
            0 <= i < t.drop_first().len() && (#[trigger] t.drop_first()[i]).0@ == id
                && t.drop_first()[i].1 == o;
        assert(t[i + 1].0@ == id && t[i + 1].1 == o);
    }
}

/// Whatever one row lists, the whole table lists.
pub proof fn lemma_row_neighbors_in_all(t: Seq<(String, FetchOutcome)>, i: int)
    requires
        0 <= i < t.len(),
    ensures
        forall|n: Seq<char>| row_neighbors(t[i]).contains(n) ==> all_neighbors(t).contains(n),
    decreases t.len(),
{
    let a = all_neighbors(t.drop_last());
    let b = row_neighbors(t.last());
    if i == t.len() - 1 {
        assert forall|n: Seq<char>| row_neighbors(t[i]).contains(n) implies all_neighbors(
            t,
        ).contains(n) by {
            let j = choose|j: int| 0 <= j < b.len() && b[j] == n;
            assert((a + b)[a.len() + j] == n);
        }
    } else {
        lemma_row_neighbors_in_all(t.drop_last(), i);
        assert(t.drop_last()[i] == t[i]);
        assert forall|n: Seq<char>| row_neighbors(t[i]).contains(n) implies all_neighbors(
            t,
        ).contains(n) by {
            assert(a.contains(n));
            let j = choose|j: int| 0 <= j < a.len() && a[j] == n;
            assert((a + b)[j] == n);
        }
    }
}

/// Membership in a concatenation is membership in either part.
pub proof fn lemma_concat_contains(a: Seq<Seq<char>>, b: Seq<Seq<char>>, x: Seq<char>)
    ensures
        (a + b).contains(x) <==> (a.contains(x) || b.contains(x)),
{
    if a.contains(x) {
        let i = choose|i: int| 0 <= i < a.len() && a[i] == x;
        assert((a + b)[i] == x);
    }
    if b.contains(x) {
        let i = choose|i: int| 0 <= i < b.len() && b[i] == x;
        assert((a + b)[a.len() + i] == x);
    }
    if (a + b).contains(x) {
        let i = choose|i: int| 0 <= i < (a + b).len() && (a + b)[i] == x;
        if i < a.len() {
            assert(a[i] == x);
        } else {
            assert(b[i - a.len()] == x);
        }
    }
}

/// Dropping the last element of a duplicate-free sequence removes exactly it.
pub proof fn lemma_drop_last_contains(s: Seq<Seq<char>>, x: Seq<char>)
    requires
        s.len() > 0,
        s.no_duplicates(),
    ensures
        s.drop_last().contains(x) <==> (s.contains(x) && x != s.last()),
{
    lemma_contains_split(s, x);
    if s.drop_last().contains(x) {
        let i = choose|i: int| 0 <= i < s.drop_last().len() && s.drop_last()[i] == x;
        assert(s[i] == x);
        assert(s[s.len() - 1] == s.last());
    }
}

/// Appending a new element keeps a sequence duplicate-free.
pub proof fn lemma_push_no_duplicates(s: Seq<Seq<char>>, x: Seq<char>)
    requires
        s.no_duplicates(),
        !s.contains(x),
    ensures
        s.push(x).no_duplicates(),
{
    assert forall|i: int, j: int| 0 <= i < j < s.push(x).len() implies s.push(x)[i] != s.push(
        x,
    )[j] by {
        if j < s.len() {
        } else {
            assert(s.push(x)[j] == x);
            assert(s.push(x)[i] == s[i]);
            assert(s.contains(s[i]));
        }
    }
}

/// Taking views distributes over concatenation.
pub proof fn lemma_id_views_concat(a: Seq<String>, b: Seq<String>)
    ensures
        id_views(a + b) =~= id_views(a) + id_views(b),
{
}

/// Concatenating duplicate-free sequences with no common element stays
/// duplicate-free.
pub proof fn lemma_concat_no_duplicates(a: Seq<Seq<char>>, b: Seq<Seq<char>>)
    requires
        a.no_duplicates(),
        b.no_duplicates(),
        forall|x: Seq<char>| !(a.contains(x) && b.contains(x)),
    ensures
        (a + b).no_duplicates(),
{
    assert forall|i: int, j: int| 0 <= i < j < (a + b).len() implies (a + b)[i] != (a + b)[j] by {
        if i < a.len() && j >= a.len() {
            assert(a.contains(a[i]));
            assert(b.contains(b[j - a.len()]));
            assert((a + b)[i] == a[i]);
            assert((a + b)[j] == b[j - a.len()]);
        }
    }
}

/// Fold one fetch outcome into the registry, and hand back the newly
/// discovered identifiers, in discovery order, for the audit log.
pub fn apply_fetch_outcome(reg: &mut Registry, outcome: &FetchOutcome) -> (newly: Vec<String>)
    requires
        old(reg).wf(),
    ensures
        final(reg).wf(),
        final(reg).counts() =~= outcome_counts(old(reg).counts(), *outcome),
        final(reg).pending() =~= outcome_frontier(old(reg).counts(), old(reg).pending(), *outcome),
        final(reg).sentinel_count() == outcome_sentinel(old(reg).sentinel_count(), *outcome),
        id_views(newly@) =~= outcome_fresh(old(reg).counts(), *outcome),
{
    match outcome {
        FetchOutcome::Friends(l) => {
            let ghost m0 = reg.counts();
            let ghost f0 = reg.pending();
            let ghost ids = id_views(l@);
            let mut newly: Vec<String> = Vec::new();
            let mut j: usize = 0;
            proof {
                assert(ids.take(0) =~= Seq::<Seq<char>>::empty());
                assert(id_views(newly@) =~= fresh_ids(m0, ids.take(0)));
            }
            while j < l.len()
                invariant
                    j <= l@.len(),
                    ids == id_views(l@),
                    ids.len() == l@.len(),
                    reg.wf(),
                    reg.counts() =~= claim_seq_counts(m0, ids.take(j as int)),
                    reg.pending() =~= claim_seq_frontier(m0, f0, ids.take(j as int)),
                    reg.sentinel_count() == old(reg).sentinel_count(),
                    id_views(newly@) =~= fresh_ids(m0, ids.take(j as int)),
                decreases l@.len() - j,
            {
                let ghost prefix = ids.take(j as int);
                let o = reg.try_claim_or_enqueue(&l[j]);
                match o {
                    ClaimOutcome::NewlyEnqueued => {
                        newly.push(l[j].clone());
                    },
                    ClaimOutcome::AlreadyVisited => (),
                }
                proof {
                    assert(ids.take(j + 1).drop_last() =~= prefix);
                    assert(ids.take(j + 1).last() == ids[j as int]);
                    assert(ids[j as int] == l@[j as int]@);
                    if o is NewlyEnqueued {
                        assert(id_views(newly@) =~= fresh_ids(m0, prefix).push(ids[j as int]));
                    }
                }
                j = j + 1;
            }
            proof {
                assert(ids.take(ids.len() as int) =~= ids);
            }
            newly
        },
        FetchOutcome::Unparseable => {
            reg.record_unparseable();
            let newly: Vec<String> = Vec::new();
            proof {
                assert(id_views(newly@) =~= Seq::<Seq<char>>::empty());
            }
            newly
        },
        FetchOutcome::TransportError => {
            let newly: Vec<String> = Vec::new();
            proof {
                assert(id_views(newly@) =~= Seq::<Seq<char>>::empty());
            }
            newly
        },
    }
}

/// A chain of identifiers from `seed` to `k` in which each link is listed as
/// a neighbour by the previous identifier's parsed row.
pub open spec fn path_connects(
    t: Seq<(String, FetchOutcome)>,
    seed: Seq<char>,
    k: Seq<char>,
    path: Seq<Seq<char>>,
) -> bool {
    &&& path.len() > 0
    &&& path.first() == seed
    &&& path.last() == k
    &&& forall|i: int| 0 <= i < path.len() - 1 ==> #[trigger] lists_neighbor(t, path[i], path[i + 1])
}

/// The identifier `k` is reachable from the seed through rows whose fetches
/// parsed.
pub open spec fn reachable(t: Seq<(String, FetchOutcome)>, seed: Seq<char>, k: Seq<char>) -> bool {
    exists|path: Seq<Seq<char>>| path_connects(t, seed, k, path)
}

/// Along a chain of listed neighbours, a key set that holds the chain's head
/// and is closed under recorded neighbours holds the chain's end.
proof fn lemma_path_recorded(
    t: Seq<(String, FetchOutcome)>,
    m: Map<Seq<char>, u64>,
    path: Seq<Seq<char>>,
)
    requires
        path.len() > 0,
        m.contains_key(path.first()),
        forall|i: int| 0 <= i < path.len() - 1 ==> #[trigger] lists_neighbor(t, path[i], path[i + 1]),
        forall|d: Seq<char>| #[trigger] m.contains_key(d) ==> neighbors_recorded(t, d, m),
    ensures
        m.contains_key(path.last()),
    decreases path.len(),
{
    if path.len() > 1 {
        let p = path.drop_last();
        assert(p.first() == path.first());
        assert forall|i: int| 0 <= i < p.len() - 1 implies #[trigger] lists_neighbor(
            t,
            p[i],
            p[i + 1],
        ) by {
            assert(lists_neighbor(t, path[i], path[i + 1]));
        }
        lemma_path_recorded(t, m, p);
        let d = path[path.len() - 2];
        assert(p.last() == d);
        assert(lists_neighbor(t, path[path.len() - 2], path[path.len() - 2 + 1]));
        assert(path[path.len() - 2 + 1] == path.last());
        assert(lists_neighbor(t, d, path.last()));
        assert(neighbors_recorded(t, d, m));
        match table_lookup(t, d) {
            Some(FetchOutcome::Friends(l)) => {
                let j = choose|j: int| 0 <= j < l@.len() && (#[trigger] l@[j]@) == path.last();
                assert(m.contains_key(l@[j]@));
            },
            _ => {
                assert(false);
            },
        }
    }
}

/// Every identifier reachable from the seed through rows whose fetches
/// parsed is recorded in any hit-count table that holds the seed and is
/// closed under recorded neighbours — in particular, in the table a finished
/// crawl returns. Identifiers behind a failed fetch are the ones this does
/// not promise, and the crawl indeed drops them.
pub proof fn lemma_reachable_recorded(
    t: Seq<(String, FetchOutcome)>,
    seed: Seq<char>,
    m: Map<Seq<char>, u64>,
    k: Seq<char>,
)
    requires
        m.contains_key(seed),
        forall|d: Seq<char>| #[trigger] m.contains_key(d) ==> neighbors_recorded(t, d, m),
        reachable(t, seed, k),
    ensures
        m.contains_key(k),
{
    let path = choose|path: Seq<Seq<char>>| path_connects(t, seed, k, path);
    lemma_path_recorded(t, m, path);
}

/// The first row of the table holding this identifier's outcome, if any.
fn lookup_outcome<'a>(table: &'a Vec<(String, FetchOutcome)>, id: &String) -> (r: Option<
    &'a FetchOutcome,
>)
    ensures
        match r {
            Some(o) => table_lookup(table@, id@) == Some(*o),
            None => table_lookup(table@, id@) is None,
        },
{
    proof {
        assert(table@.skip(0) =~= table@);
    }
    let mut i: usize = 0;
    while i < table.len()
        invariant
            i <= table@.len(),
            table_lookup(table@, id@) == table_lookup(table@.skip(i as int), id@),
        decreases table@.len() - i,
    {
        proof {
            assert(table@.skip(i as int).first() == table@[i as int]);
            assert(table@.skip(i as int).drop_first() =~= table@.skip(i + 1));
        }
        if table[i].0 == *id {
            return Some(&table[i].1);
        }
        i = i + 1;
    }
    proof {
        assert(table@.skip(table@.len() as int) =~= Seq::<(String, FetchOutcome)>::empty());
    }
    None
}

/// How many workers the concurrent driver runs.
pub const WORKER_POOL_SIZE: usize = 8;

/// The distributed-termination ledger of the worker pool: how many workers
/// are between pulling an identifier and pushing its neighbours back. A
/// worker that sees the frontier empty may only exit when no peer is still
/// in flight — otherwise a peer may be about to add more work.
pub struct FlightTracker {
    active: u64,
}

impl FlightTracker {
    /// How many workers are currently processing an identifier.
    pub closed spec fn active_count(self) -> u64 {
        self.active
    }

    /// No worker in flight yet.
    pub fn new() -> (t: FlightTracker)
        ensures
            t.active_count() == 0,
    {
        FlightTracker { active: 0 }
    }

    /// A worker pulled an identifier and starts processing it.
    pub fn begin_work(&mut self)
        requires
            old(self).active_count() < u64::MAX,
        ensures
            final(self).active_count() == old(self).active_count() + 1,
    {
        self.active = self.active + 1;
    }

    /// A worker finished an identifier: its neighbours, if any, are pushed.
    pub fn finish_work(&mut self)
        requires
            old(self).active_count() > 0,
        ensures
            final(self).active_count() == old(self).active_count() - 1,
    {
        self.active = self.active - 1;
    }

    /// How many workers are in flight right now.
    pub fn active_workers(&self) -> (n: u64)
        ensures
            n == self.active_count(),
    {
        self.active
    }

    /// Whether the pool is done: the frontier is empty and no worker is
    /// still in flight, so no more work can ever appear.
    pub fn pool_done(&self, frontier_len: usize) -> (done: bool)
        ensures
            done <==> (frontier_len == 0 && self.active_count() == 0),
    {
        frontier_len == 0 && self.active == 0
    }
}

/// What a finished crawl hands back: the registry holding the hit counts and
/// the sentinel, and the audit trail of every newly discovered identifier,
/// in discovery order.
pub struct CrawlResult {
    pub registry: Registry,
    pub audit: Vec<String>,
    /// The order in which identifiers were pulled from the frontier and
    /// processed; the hit counts are stated over it.
    pub order: Ghost<Seq<Seq<char>>>,
}

/// Crawl the graph that the table describes, starting from the seed: claim
/// the seed, then pop identifiers and fold each one's fetch outcome into the
/// registry until the frontier runs dry. An identifier without a row is
/// treated as a transport failure and dropped.
///
/// The crawl terminates on every input (the `decreases` measure), and ends
/// with: the frontier empty; the seed recorded; only the seed and listed
/// neighbours recorded; every neighbour listed by a recorded identifier's
/// parsed row recorded too; every recorded identifier other than the seed
/// listed by some recorded identifier's parsed row; the audit trail naming
/// every recorded identifier but the seed exactly once; each hit count
/// equal to the number of claims of its identifier — one as the seed, one
/// per listing by a processed row; and the sentinel equal to the number of
/// processed identifiers whose response did not parse.
pub fn crawl_graph(seed: &String, table: &Vec<(String, FetchOutcome)>) -> (out: CrawlResult)
    ensures
        out.registry.wf(),
        out.registry.pending().len() == 0,
        out.registry.counts().contains_key(seed@),
        forall|k: Seq<char>|
            #[trigger] out.registry.counts().contains_key(k) ==> universe(seed@, table@).contains(
                k,
            ),
        forall|k: Seq<char>|
            #[trigger] out.registry.counts().contains_key(k) ==> neighbors_recorded(
                table@,
                k,
                out.registry.counts(),
            ),
        forall|k: Seq<char>|
            #[trigger] out.registry.counts().contains_key(k) ==> (k == seed@ || exists|d: Seq<char>|
                out.registry.counts().contains_key(d) && #[trigger] lists_neighbor(table@, d, k)),
        id_views(out.audit@).no_duplicates(),
        forall|k: Seq<char>|
            #[trigger] id_views(out.audit@).contains(k) <==> (out.registry.counts().contains_key(k)
                && k != seed@),
        all_neighbors(table@).len() + 1 < u64::MAX ==> out.registry.sentinel_count() as nat
            == unparseable_keys(table@, out.registry.counts().dom()).len(),
        out.order@.no_duplicates(),
        forall|k: Seq<char>|
            #[trigger] out.order@.contains(k) <==> out.registry.counts().contains_key(k),
        forall|k: Seq<char>|
            #[trigger] out.registry.counts().contains_key(k) ==> claims_of(
                table@,
                out.order@,
                seed@,
                k,
            ) >= 1 && out.registry.counts()[k] == capped_add(
                1u64,
                (claims_of(table@, out.order@, seed@, k) - 1) as nat,
            ),
        forall|k: Seq<char>|
            !(#[trigger] out.registry.counts().contains_key(k)) ==> hits_from(table@, out.order@, k)
                == 0,
{
    let mut reg = Registry::new();
    let mut audit: Vec<String> = Vec::new();
    let ghost uni = universe(seed@, table@);
    proof {
        seq_to_set_is_finite(all_neighbors(table@));
    }
    reg.try_claim_or_enqueue(seed);
    let ghost mut done = Seq::<Seq<char>>::empty();
    proof {
        assert(reg.pending() =~= Seq::<Seq<char>>::empty().push(seed@));
        assert(reg.pending()[0] == seed@);
        assert(reg.pending().contains(seed@));
        assert forall|k: Seq<char>| #[trigger]
            reg.counts().contains_key(k) implies done.contains(k) || reg.pending().contains(k) by {
            assert(k == seed@);
        }
        assert forall|k: Seq<char>| reg.pending().contains(k) implies k == seed@ by {
            let i = choose|i: int| 0 <= i < reg.pending().len() && reg.pending()[i] == k;
        }
        assert(uni.contains(seed@));
        assert(done.to_set() =~= Set::<Seq<char>>::empty());
        assert(unparseable_keys(table@, done.to_set()) =~= Set::<Seq<char>>::empty());
        assert(reg.counts()[seed@] == 1);
    }
    loop
        invariant
            reg.wf(),
            done.no_duplicates(),
            forall|k: Seq<char>|
                #[trigger] reg.counts().contains_key(k) <==> (done.contains(k)
                    || reg.pending().contains(k)),
            forall|k: Seq<char>| #[trigger] done.contains(k) ==> !reg.pending().contains(k),
            forall|k: Seq<char>| #[trigger] reg.counts().contains_key(k) ==> uni.contains(k),
            reg.counts().contains_key(seed@),
            forall|k: Seq<char>|
                #[trigger] done.contains(k) ==> neighbors_recorded(table@, k, reg.counts()),
            forall|k: Seq<char>|
                #[trigger] reg.counts().contains_key(k) ==> (k == seed@ || exists|d: Seq<char>|
                    done.contains(d) && #[trigger] lists_neighbor(table@, d, k)),
            id_views(audit@).no_duplicates(),
            forall|k: Seq<char>|
                #[trigger] id_views(audit@).contains(k) <==> (reg.counts().contains_key(k) && k
                    != seed@),
            uni == universe(seed@, table@),
            uni.finite(),
            done.len() <= uni.len(),
            all_neighbors(table@).len() + 1 < u64::MAX ==> reg.sentinel_count() as nat
                == unparseable_keys(table@, done.to_set()).len(),
            forall|k: Seq<char>|
                #[trigger] reg.counts().contains_key(k) ==> claims_of(table@, done, seed@, k) >= 1
                    && reg.counts()[k] == capped_add(
                    1u64,
                    (claims_of(table@, done, seed@, k) - 1) as nat,
                ),
            forall|k: Seq<char>|
                !(#[trigger] reg.counts().contains_key(k)) ==> hits_from(table@, done, k) == 0,
        ensures
            reg.wf(),
            reg.pending().len() == 0,
            reg.counts().contains_key(seed@),
            forall|k: Seq<char>| #[trigger] reg.counts().contains_key(k) <==> done.contains(k),
            forall|k: Seq<char>| #[trigger] reg.counts().contains_key(k) ==> uni.contains(k),
            forall|k: Seq<char>|
                #[trigger] done.contains(k) ==> neighbors_recorded(table@, k, reg.counts()),
            forall|k: Seq<char>|
                #[trigger] reg.counts().contains_key(k) ==> (k == seed@ || exists|d: Seq<char>|
                    done.contains(d) && #[trigger] lists_neighbor(table@, d, k)),
            id_views(audit@).no_duplicates(),
            forall|k: Seq<char>|
                #[trigger] id_views(audit@).contains(k) <==> (reg.counts().contains_key(k) && k
                    != seed@),
            all_neighbors(table@).len() + 1 < u64::MAX ==> reg.sentinel_count() as nat
                == unparseable_keys(table@, done.to_set()).len(),
            done.no_duplicates(),
            forall|k: Seq<char>|
                #[trigger] reg.counts().contains_key(k) ==> claims_of(table@, done, seed@, k) >= 1
                    && reg.counts()[k] == capped_add(
                    1u64,
                    (claims_of(table@, done, seed@, k) - 1) as nat,
                ),
            forall|k: Seq<char>|
                !(#[trigger] reg.counts().contains_key(k)) ==> hits_from(table@, done, k) == 0,
        decreases uni.len() - done.len(),
    {
        let ghost sent0 = reg.sentinel_count();
        let ghost counts0 = reg.counts();
        let ghost pending0 = reg.pending();
        let ghost audit0 = audit@;
        proof {
            reg.lemma_wf_pending();
        }
        let popped = reg.pop_next();
        let id = match popped {
            Some(id) => id,
            None => { break },
        };
        reg.mark_dequeued(&id);
        proof {
            assert(counts0.contains_key(id@));
            assert(reg.counts() =~= counts0);
            assert(reg.pending() =~= pending0.drop_last());
            assert(pending0.contains(id@)) by {
                assert(pending0[pending0.len() - 1] == id@);
            }
        }
        let ghost m0 = reg.counts();
        let ghost f0 = reg.pending();
        let outcome = lookup_outcome(table, &id);
        let mut newly: Vec<String> = match outcome {
            Some(o) => apply_fetch_outcome(&mut reg, o),
            None => Vec::new(),
        };
        let ghost fresh = id_views(newly@);
        audit.append(&mut newly);
        proof {
            assert(m0 == counts0);
            assert(audit@ =~= audit0 + audit@.subrange(audit0.len() as int, audit@.len() as int));
            let appended = audit@.subrange(audit0.len() as int, audit@.len() as int);
            assert(appended =~= audit@.subrange(audit0.len() as int, audit@.len() as int));
            lemma_id_views_concat(audit0, appended);
            assert(id_views(appended) =~= fresh);
            assert(id_views(audit@) =~= id_views(audit0) + fresh);
            let dprev = done;
            done = done.push(id@);
            assert(done.drop_last() =~= dprev);
            assert(done.last() == id@);
            lemma_contains_split(done, id@);
            assert(done.contains(id@));
            assert(!dprev.contains(id@));
            lemma_push_no_duplicates(dprev, id@);
            assert forall|k: Seq<char>| #[trigger]
                done.contains(k) implies dprev.contains(k) || k == id@ by {
                lemma_contains_split(done, k);
            }
            assert forall|k: Seq<char>| dprev.contains(k) implies done.contains(k) by {
                lemma_contains_split(done, k);
            }
            assert forall|k: Seq<char>| #[trigger] pending0.contains(k) && k != id@ implies
                f0.contains(k) by {
                lemma_drop_last_contains(pending0, k);
            }
            assert forall|k: Seq<char>| #[trigger] f0.contains(k) implies pending0.contains(k) && k
                != id@ by {
                lemma_drop_last_contains(pending0, k);
            }
            match table_lookup(table@, id@) {
                Some(FetchOutcome::Friends(lvec)) => {
                    let lv = id_views(lvec@);
                    assert(reg.counts() =~= claim_seq_counts(m0, lv));
                    lemma_fresh_ids(m0, f0, lv);
                    assert(reg.pending() =~= f0 + fresh);
                    lemma_lookup_row(table@, id@, FetchOutcome::Friends(lvec));
                    let i = choose|i: int|
                        0 <= i < table@.len() && (#[trigger] table@[i]).0@ == id@ && table@[i].1
                            == FetchOutcome::Friends(lvec);
                    lemma_row_neighbors_in_all(table@, i);
                    assert(row_neighbors(table@[i]) == lv);
                    // the recorded keys are the old ones plus the claimed neighbours
                    assert forall|k: Seq<char>|
                        #[trigger] reg.counts().contains_key(k) <==> (m0.contains_key(k)
                            || lv.contains(k)) by {
                        lemma_claim_seq_effect(m0, f0, lv, k);
                    }
                    // every claimed neighbour is in the universe
                    assert forall|k: Seq<char>| #[trigger]
                        reg.counts().contains_key(k) implies uni.contains(k) by {
                        if !m0.contains_key(k) {
                            assert(lv.contains(k));
                            assert(all_neighbors(table@).contains(k));
                            assert(all_neighbors(table@).to_set().contains(k));
                        }
                    }
                    // partition of the recorded keys over processed and pending
                    assert forall|k: Seq<char>| #[trigger]
                        reg.counts().contains_key(k) implies (done.contains(k)
                        || reg.pending().contains(k)) by {
                        lemma_concat_contains(f0, fresh, k);
                        if m0.contains_key(k) {
                            assert(dprev.contains(k) || pending0.contains(k));
                        } else {
                            assert(lv.contains(k));
                            assert(fresh.contains(k));
                        }
                    }
                    assert forall|k: Seq<char>| (done.contains(k) || reg.pending().contains(
                        k,
                    )) implies #[trigger] reg.counts().contains_key(k) by {
                        lemma_concat_contains(f0, fresh, k);
                        if done.contains(k) {
                            assert(dprev.contains(k) || k == id@);
                        } else {
                            assert(f0.contains(k) || fresh.contains(k));
                        }
                    }
                    // a processed identifier never returns to the frontier
                    assert forall|k: Seq<char>| #[trigger] done.contains(k) implies !reg.pending(
                    ).contains(k) by {
                        lemma_concat_contains(f0, fresh, k);
                        assert(m0.contains_key(k));
                        assert(!fresh.contains(k));
                        if dprev.contains(k) {
                            assert(!pending0.contains(k));
                        }
                    }
                    // the neighbours of everything processed stay recorded
                    assert forall|k: Seq<char>| #[trigger]
                        done.contains(k) implies neighbors_recorded(table@, k, reg.counts()) by {
                        if k == id@ {
                            assert forall|j: int| 0 <= j < lvec@.len() implies reg.counts(
                            ).contains_key(#[trigger] lvec@[j]@) by {
                                assert(lv[j] == lvec@[j]@);
                                assert(lv.contains(lv[j]));
                            }
                        } else {
                            assert(dprev.contains(k));
                            assert(neighbors_recorded(table@, k, m0));
                            match table_lookup(table@, k) {
                                Some(FetchOutcome::Friends(l2)) => {
                                    assert forall|j: int| 0 <= j < l2@.len() implies reg.counts(
                                    ).contains_key(#[trigger] l2@[j]@) by {
                                        assert(m0.contains_key(l2@[j]@));
                                    }
                                },
                                _ => {},
                            }
                        }
                    }
                    // provenance of every recorded identifier
                    assert forall|k: Seq<char>| #[trigger] reg.counts().contains_key(k) && k
                        != seed@ implies exists|d: Seq<char>|
                        done.contains(d) && #[trigger] lists_neighbor(table@, d, k) by {
                        if m0.contains_key(k) {
                            let d = choose|d: Seq<char>|
                                dprev.contains(d) && #[trigger] lists_neighbor(table@, d, k);
                            assert(done.contains(d) && lists_neighbor(table@, d, k));
                        } else {
                            assert(lv.contains(k));
                            let j = choose|j: int| 0 <= j < lv.len() && lv[j] == k;
                            assert(lvec@[j]@ == k);
                            assert(lists_neighbor(table@, id@, k));
                            assert(done.contains(id@) && lists_neighbor(table@, id@, k));
                        }
                    }
                    // the audit trail still lists each discovery exactly once
                    assert forall|x: Seq<char>| !(id_views(audit0).contains(x) && fresh.contains(
                        x,
                    )) by {
                        if fresh.contains(x) {
                            assert(!m0.contains_key(x));
                        }
                    }
                    lemma_concat_no_duplicates(id_views(audit0), fresh);
                    assert forall|k: Seq<char>|
                        #[trigger] id_views(audit@).contains(k) <==> (reg.counts().contains_key(k)
                            && k != seed@) by {
                        lemma_concat_contains(id_views(audit0), fresh, k);
                        if fresh.contains(k) {
                            assert(!m0.contains_key(k));
                            assert(m0.contains_key(seed@));
                        }
                    }
                    // exact hit counts: one more per listing by this row
                    assert forall|k: Seq<char>| #[trigger]
                        reg.counts().contains_key(k) implies claims_of(table@, done, seed@, k) >= 1
                        && reg.counts()[k] == capped_add(
                        1u64,
                        (claims_of(table@, done, seed@, k) - 1) as nat,
                    ) by {
                        lemma_claim_seq_effect(m0, f0, lv, k);
                        lemma_occ_positive(lv, k);
                        assert(hits_from(table@, done, k) == hits_from(table@, dprev, k) + occ(
                            lv,
                            k,
                        ));
                        if !m0.contains_key(k) {
                            assert(lv.contains(k));
                            assert(hits_from(table@, dprev, k) == 0);
                            assert(k != seed@);
                        }
                    }
                    assert forall|k: Seq<char>| !(#[trigger] reg.counts().contains_key(
                        k,
                    )) implies hits_from(table@, done, k) == 0 by {
                        lemma_claim_seq_effect(m0, f0, lv, k);
                        lemma_occ_positive(lv, k);
                        assert(hits_from(table@, done, k) == hits_from(table@, dprev, k) + occ(
                            lv,
                            k,
                        ));
                        assert(hits_from(table@, dprev, k) == 0);
                    }
                },
                _ => {
                    assert(reg.counts() =~= m0);
                    assert(reg.pending() =~= f0);
                    assert(fresh =~= Seq::<Seq<char>>::empty());
                    assert(id_views(audit@) =~= id_views(audit0));
                    assert forall|k: Seq<char>|
                        #[trigger] hits_from(table@, done, k) == hits_from(table@, dprev, k) by {
                        assert(done.drop_last() =~= dprev);
                        assert(done.last() == id@);
                    }
                    assert forall|k: Seq<char>| #[trigger]
                        reg.counts().contains_key(k) implies (done.contains(k)
                        || reg.pending().contains(k)) by {
                        if !dprev.contains(k) {
                            assert(pending0.contains(k));
                        }
                    }
                    assert forall|k: Seq<char>| #[trigger]
                        done.contains(k) implies neighbors_recorded(table@, k, reg.counts()) by {
                        if k == id@ {
                            match table_lookup(table@, id@) {
                                Some(o2) => {
                                    assert(!(o2 is Friends));
                                },
                                None => {},
                            }
                        } else {
                            assert(dprev.contains(k));
                        }
                    }
                    assert forall|k: Seq<char>| #[trigger] reg.counts().contains_key(k) && k
                        != seed@ implies exists|d: Seq<char>|
                        done.contains(d) && #[trigger] lists_neighbor(table@, d, k) by {
                        let d = choose|d: Seq<char>|
                            dprev.contains(d) && #[trigger] lists_neighbor(table@, d, k);
                        assert(done.contains(d) && lists_neighbor(table@, d, k));
                    }
                },
            }
            // the processed set stays inside the finite universe
            assert forall|k: Seq<char>| done.to_set().contains(k) implies uni.contains(k) by {
                assert(done.contains(k));
                assert(reg.counts().contains_key(k));
            }
            done.unique_seq_to_set();
            lemma_len_subset(done.to_set(), uni);
            // sentinel bookkeeping: it counts exactly the processed rows
            // that arrived but did not parse, while that count fits
            if all_neighbors(table@).len() + 1 < u64::MAX {
                let pred = |k: Seq<char>| row_unparseable(table@, k);
                seq_to_set_is_finite(dprev);
                dprev.unique_seq_to_set();
                dprev.to_set().lemma_len_filter(pred);
                lemma_len_subset(dprev.to_set(), uni);
                all_neighbors(table@).lemma_cardinality_of_set();
                assert(uni.len() <= all_neighbors(table@).to_set().len() + 1);
                assert(sent0 < u64::MAX);
                assert(done.to_set() =~= dprev.to_set().insert(id@));
                if row_unparseable(table@, id@) {
                    assert(unparseable_keys(table@, done.to_set()) =~= unparseable_keys(
                        table@,
                        dprev.to_set(),
                    ).insert(id@));
                    assert(!unparseable_keys(table@, dprev.to_set()).contains(id@));
                } else {
                    assert(unparseable_keys(table@, done.to_set()) =~= unparseable_keys(
                        table@,
                        dprev.to_set(),
                    ));
                }
            }
        }
    }
    proof {
        assert(reg.counts().dom() =~= done.to_set());
        assert forall|k: Seq<char>| #[trigger] reg.counts().contains_key(k) && k
            != seed@ implies exists|d: Seq<char>|
            reg.counts().contains_key(d) && #[trigger] lists_neighbor(table@, d, k) by {
            let d = choose|d: Seq<char>| done.contains(d) && #[trigger] lists_neighbor(table@, d, k);
            assert(reg.counts().contains_key(d) && lists_neighbor(table@, d, k));
        }
    }
    CrawlResult { registry: reg, audit, order: Ghost(done) }
}

} // verus!