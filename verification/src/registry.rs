//! The frontier-and-visited registry: one structure that is at the same time
//! the work queue of the crawl and its deduplication / hit-count table.
//!
//! A node identifier is *claimed* by `try_claim_or_enqueue`: if it is unknown
//! it is recorded with count 1 and appended to the frontier, otherwise its
//! count rises and it is not enqueued again. This single atomic operation is
//! what makes an identifier enter the frontier at most once over a whole run.
//! A separate sentinel counter buckets responses that could not be parsed as
//! a neighbour list, without treating them as node identifiers.
//!
//! Counters saturate at `u64::MAX` instead of wrapping; no real crawl comes
//! anywhere near that bound, and saturation keeps every operation total.
use vstd::prelude::*;

verus! {

/// What a claim did: the identifier was already known (its count rose and it
/// was not enqueued), or it was fresh (count set to 1, identifier enqueued).
#[derive(Debug, PartialEq, Eq)]
pub enum ClaimOutcome {
    AlreadyVisited,
    NewlyEnqueued,
}

/// Saturating increment: hit counters stop at `u64::MAX` instead of wrapping.
pub open spec fn bump(c: u64) -> u64 {
    if c < u64::MAX {
        (c + 1) as u64
    } else {
        c
    }
}

/// The views of a sequence of owned identifiers.
pub open spec fn id_views(l: Seq<String>) -> Seq<Seq<char>> {
    l.map_values(|s: String| s@)
}

/// What one claim does to the hit-count table.
pub open spec fn claim_counts(m: Map<Seq<char>, u64>, id: Seq<char>) -> Map<Seq<char>, u64> {
    if m.contains_key(id) {
        m.insert(id, bump(m[id]))
    } else {
        m.insert(id, 1u64)
    }
}

/// What one claim does to the frontier: only a fresh identifier is enqueued.
pub open spec fn claim_frontier(
    m: Map<Seq<char>, u64>,
    f: Seq<Seq<char>>,
    id: Seq<char>,
) -> Seq<Seq<char>> {
    if m.contains_key(id) {
        f
    } else {
        f.push(id)
    }
}

/// The hit-count table after a whole sequence of claims, applied in order.
pub open spec fn claim_seq_counts(m: Map<Seq<char>, u64>, ids: Seq<Seq<char>>) -> Map<
    Seq<char>,
    u64,
>
    decreases ids.len(),
{
    if ids.len() == 0 {
        m
    } else {
        claim_counts(claim_seq_counts(m, ids.drop_last()), ids.last())
    }
}

/// The frontier after a whole sequence of claims, applied in order.
pub open spec fn claim_seq_frontier(
    m: Map<Seq<char>, u64>,
    f: Seq<Seq<char>>,
    ids: Seq<Seq<char>>,
) -> Seq<Seq<char>>
    decreases ids.len(),
{
    if ids.len() == 0 {
        f
    } else {
        claim_frontier(
            claim_seq_counts(m, ids.drop_last()),
            claim_seq_frontier(m, f, ids.drop_last()),
            ids.last(),
        )
    }
}

/// The identifiers of a claim sequence that were fresh when their claim ran:
/// exactly the ones the sequence enqueued, in enqueue order.
pub open spec fn fresh_ids(m: Map<Seq<char>, u64>, ids: Seq<Seq<char>>) -> Seq<Seq<char>>
    decreases ids.len(),
{
    if ids.len() == 0 {
        Seq::empty()
    } else {
        let prefix = fresh_ids(m, ids.drop_last());
        if claim_seq_counts(m, ids.drop_last()).contains_key(ids.last()) {
            prefix
        } else {
            prefix.push(ids.last())
        }
    }
}

/// The hit-count table of an association list, later entries winning.
pub open spec fn counts_map(s: Seq<(String, u64)>) -> Map<Seq<char>, u64>
    decreases s.len(),
{
    if s.len() == 0 {
        Map::empty()
    } else {
        counts_map(s.drop_last()).insert(s.last().0@, s.last().1)
    }
}

/// No two entries of the association list hold the same identifier.
pub open spec fn keys_distinct(s: Seq<(String, u64)>) -> bool {
    forall|i: int, j: int| 0 <= i < j < s.len() ==> s[i].0@ != s[j].0@
}

/// The registry: hit counts, the frontier of identifiers awaiting a fetch,
/// and the sentinel counter of unparseable responses.
pub struct Registry {
    entries: Vec<(String, u64)>,
    frontier: Vec<String>,
    sentinel: u64,
}

impl Registry {
    /// The hit-count table: node identifier to number of discoveries.
    pub closed spec fn counts(self) -> Map<Seq<char>, u64> {
        counts_map(self.entries@)
    }

    /// The frontier: identifiers claimed but not yet handed to a worker.
    pub closed spec fn pending(self) -> Seq<Seq<char>> {
        id_views(self.frontier@)
    }

    /// How many unparseable responses have been recorded.
    pub closed spec fn sentinel_count(self) -> u64 {
        self.sentinel
    }

    /// Well-formedness: counts keyed at most once, the frontier free of
    /// duplicates, and every pending identifier already counted.
    pub closed spec fn wf(self) -> bool {
        &&& keys_distinct(self.entries@)
        &&& self.pending().no_duplicates()
        &&& forall|i: int|
            0 <= i < self.pending().len() ==> self.counts().contains_key(#[trigger] self.pending()[i])
    }

    /// An empty registry: nothing counted, nothing pending, sentinel zero.
    pub fn new() -> (r: Registry)
        ensures
            r.wf(),
            r.counts() =~= Map::<Seq<char>, u64>::empty(),
            r.pending() =~= Seq::<Seq<char>>::empty(),
            r.sentinel_count() == 0,
    {
        Registry { entries: Vec::new(), frontier: Vec::new(), sentinel: 0 }
    }

    /// The index of the entry holding `id`, if any.
    fn find_index(&self, id: &String) -> (r: Option<usize>)
        ensures
            match r {
                Some(i) => i < self.entries@.len() && self.entries@[i as int].0@ == id@,
                None => forall|j: int| 0 <= j < self.entries@.len() ==> self.entries@[j].0@ != id@,
            },
    {
        let mut i: usize = 0;
        while i < self.entries.len()
            invariant
                i <= self.entries@.len(),
                forall|j: int| 0 <= j < i ==> self.entries@[j].0@ != id@,
            decreases self.entries@.len() - i,
        {
            if self.entries[i].0 == *id {
                return Some(i);
            }
            i = i + 1;
        }
        None
    }

    /// Atomically claim an identifier: a fresh one is counted with 1 and
    /// enqueued on the frontier; a known one only has its count bumped.
    pub fn try_claim_or_enqueue(&mut self, id: &String) -> (o: ClaimOutcome)
        requires
            old(self).wf(),
        ensures
            final(self).wf(),
            final(self).counts() =~= claim_counts(old(self).counts(), id@),
            final(self).pending() =~= claim_frontier(old(self).counts(), old(self).pending(), id@),
            final(self).sentinel_count() == old(self).sentinel_count(),
            o is AlreadyVisited <==> old(self).counts().contains_key(id@),
    {
        proof {
            lemma_counts_map_dom(self.entries@, id@);
        }
        match self.find_index(id) {
            Some(i) => {
                proof {
                    lemma_counts_map_at(self.entries@, i as int);
                }
                let pair = self.entries.remove(i);
                let c: u64 = if pair.1 < u64::MAX {
                    pair.1 + 1
                } else {
                    pair.1
                };
                self.entries.insert(i, (pair.0, c));
                proof {
                    assert(self.entries@ =~= old(self).entries@.update(
                        i as int,
                        (old(self).entries@[i as int].0, c),
                    ));
                    lemma_counts_map_update(old(self).entries@, i as int, c);
                }
                ClaimOutcome::AlreadyVisited
            },
            None => {
                self.entries.push((id.clone(), 1));
                self.frontier.push(id.clone());
                proof {
                    assert(self.entries@.drop_last() =~= old(self).entries@);
                    assert(self.pending() =~= old(self).pending().push(id@));
                    assert forall|i: int|
                        0 <= i < self.pending().len() implies self.counts().contains_key(
                        #[trigger] self.pending()[i],
                    ) by {
                        if i < old(self).pending().len() {
                            assert(old(self).counts().contains_key(old(self).pending()[i]));
                        }
                    }
                }
                ClaimOutcome::NewlyEnqueued
            },
        }
    }

    /// Hand out the next pending identifier, newest first, or report that the
    /// frontier is empty. Counts and sentinel are untouched.
    pub fn pop_next(&mut self) -> (r: Option<String>)
        requires
            old(self).wf(),
        ensures
            final(self).wf(),
            final(self).counts() =~= old(self).counts(),
            final(self).sentinel_count() == old(self).sentinel_count(),
            match r {
                None => old(self).pending().len() == 0 && final(self).pending() =~= old(self).pending(),
                Some(id) => {
                    &&& old(self).pending().len() > 0
                    &&& id@ == old(self).pending().last()
                    &&& final(self).pending() =~= old(self).pending().drop_last()
                    &&& old(self).counts().contains_key(id@)
                },
            },
    {
        let r = self.frontier.pop();
        proof {
            if old(self).frontier@.len() > 0 {
                assert(self.pending() =~= old(self).pending().drop_last());
                assert(old(self).pending().last() == old(self).pending()[old(self).pending().len()
                    - 1]);
            }
        }
        r
    }

    /// Mark a dequeued identifier as visited: a no-op when it is already
    /// counted, which every identifier handed out by the frontier is.
    pub fn mark_dequeued(&mut self, id: &String)
        requires
            old(self).wf(),
        ensures
            final(self).wf(),
            final(self).counts() =~= if old(self).counts().contains_key(id@) {
                old(self).counts()
            } else {
                old(self).counts().insert(id@, 1u64)
            },
            final(self).pending() =~= old(self).pending(),
            final(self).sentinel_count() == old(self).sentinel_count(),
    {
        proof {
            lemma_counts_map_dom(self.entries@, id@);
        }
        match self.find_index(id) {
            Some(_) => (),
            None => {
                self.entries.push((id.clone(), 1));
                proof {
                    assert(self.entries@.drop_last() =~= old(self).entries@);
                }
            },
        }
    }

    /// How many identifiers are pending on the frontier.
    pub fn pending_count(&self) -> (n: usize)
        ensures
            n == self.pending().len(),
    {
        self.frontier.len()
    }

    /// The sentinel counter's current value.
    pub fn sentinel_value(&self) -> (n: u64)
        ensures
            n == self.sentinel_count(),
    {
        self.sentinel
    }

    /// The hit count recorded for an identifier, if it has been discovered.
    pub fn count_of(&self, id: &String) -> (r: Option<u64>)
        requires
            self.wf(),
        ensures
            match r {
                Some(c) => self.counts().contains_key(id@) && self.counts()[id@] == c,
                None => !self.counts().contains_key(id@),
            },
    {
        proof {
            lemma_counts_map_dom(self.entries@, id@);
        }
        match self.find_index(id) {
            Some(i) => {
                proof {
                    lemma_counts_map_at(self.entries@, i as int);
                }
                Some(self.entries[i].1)
            },
            None => None,
        }
    }

    /// How many distinct identifiers have been discovered.
    pub fn distinct_count(&self) -> (n: usize)
        requires
            self.wf(),
        ensures
            n == self.counts().dom().len(),
    {
        proof {
            lemma_counts_map_card(self.entries@);
        }
        self.entries.len()
    }

    /// The final mapping from identifier to hit count, one entry per
    /// discovered identifier, handed to the caller when the crawl drains.
    pub fn snapshot(&self) -> (v: Vec<(String, u64)>)
        requires
            self.wf(),
        ensures
            v@.len() == self.counts().dom().len(),
            forall|j: int|
                0 <= j < v@.len() ==> self.counts().contains_key(#[trigger] v@[j].0@)
                    && self.counts()[v@[j].0@] == v@[j].1,
            keys_distinct(v@),
            forall|k: Seq<char>|
                #[trigger] self.counts().contains_key(k) ==> exists|j: int|
                    0 <= j < v@.len() && (#[trigger] v@[j].0@) == k,
    {
        let mut v: Vec<(String, u64)> = Vec::new();
        let mut i: usize = 0;
        while i < self.entries.len()
            invariant
                i <= self.entries@.len(),
                v@.len() == i as int,
                forall|j: int|
                    0 <= j < i ==> (#[trigger] v@[j]).0@ == self.entries@[j].0@ && v@[j].1
                        == self.entries@[j].1,
            decreases self.entries@.len() - i,
        {
            let pair = &self.entries[i];
            v.push((pair.0.clone(), pair.1));
            i = i + 1;
        }
        proof {
            lemma_counts_map_card(self.entries@);
            assert forall|j: int| 0 <= j < v@.len() implies self.counts().contains_key(
                #[trigger] v@[j].0@,
            ) && self.counts()[v@[j].0@] == v@[j].1 by {
                lemma_counts_map_at(self.entries@, j);
            }
            assert forall|k: Seq<char>| #[trigger]
                self.counts().contains_key(k) implies exists|j: int|
                0 <= j < v@.len() && (#[trigger] v@[j].0@) == k by {
                lemma_counts_map_dom(self.entries@, k);
                let j = choose|j: int| 0 <= j < self.entries@.len() && self.entries@[j].0@ == k;
                assert(v@[j].0@ == k);
            }
        }
        v
    }

    /// What well-formedness guarantees about the frontier, for callers that
    /// track the registry from outside.
    pub proof fn lemma_wf_pending(self)
        requires
            self.wf(),
        ensures
            self.pending().no_duplicates(),
            forall|i: int|
                0 <= i < self.pending().len() ==> self.counts().contains_key(
                    #[trigger] self.pending()[i],
                ),
    {
    }

    /// Record one response that could not be parsed as a neighbour list.
    pub fn record_unparseable(&mut self)
        requires
            old(self).wf(),
        ensures
            final(self).wf(),
            final(self).counts() =~= old(self).counts(),
            final(self).pending() =~= old(self).pending(),
            final(self).sentinel_count() == bump(old(self).sentinel_count()),
    {
        self.sentinel = if self.sentinel < u64::MAX {
            self.sentinel + 1
        } else {
            self.sentinel
        };
    }
}

/// How many times an identifier occurs in a sequence of identifiers.
pub open spec fn occ(s: Seq<Seq<char>>, x: Seq<char>) -> nat
    decreases s.len(),
{
    if s.len() == 0 {
        0
    } else {
        occ(s.drop_last(), x) + (if s.last() == x {
            1nat
        } else {
            0nat
        })
    }
}

/// Addition of a count and a number of increments, saturating at `u64::MAX`.
pub open spec fn capped_add(c: u64, k: nat) -> u64 {
    if c + k <= u64::MAX {
        (c + k) as u64
    } else {
        u64::MAX
    }
}

/// An identifier occurs in a sequence exactly when its occurrence count is
/// positive.
pub proof fn lemma_occ_positive(s: Seq<Seq<char>>, x: Seq<char>)
    ensures
        occ(s, x) > 0 <==> s.contains(x),
    decreases s.len(),
{
    if s.len() > 0 {
        lemma_occ_positive(s.drop_last(), x);
        if s.last() == x {
            assert(s[s.len() - 1] == x);
        } else {
            if s.contains(x) {
                let i = choose|i: int| 0 <= i < s.len() && s[i] == x;
                assert(s.drop_last()[i] == x);
            }
            if s.drop_last().contains(x) {
                let i = choose|i: int| 0 <= i < s.drop_last().len() && s.drop_last()[i] == x;
                assert(s[i] == x);
            }
        }
    }
}

/// Appending one identifier adds one to its occurrence count and leaves every
/// other count alone.
pub proof fn lemma_occ_push(s: Seq<Seq<char>>, y: Seq<char>, x: Seq<char>)
    ensures
        occ(s.push(y), x) == occ(s, x) + (if y == x {
            1nat
        } else {
            0nat
        }),
{
    assert(s.push(y).drop_last() =~= s);
}

/// Occurrence counts add up over concatenation.
pub proof fn lemma_occ_concat(a: Seq<Seq<char>>, b: Seq<Seq<char>>, x: Seq<char>)
    ensures
        occ(a + b, x) == occ(a, x) + occ(b, x),
    decreases b.len(),
{
    if b.len() == 0 {
        assert(a + b =~= a);
    } else {
        lemma_occ_concat(a, b.drop_last(), x);
        assert((a + b).drop_last() =~= a + b.drop_last());
        assert((a + b).last() == b.last());
    }
}

/// What any sequence of claims does to one identifier, however the claims of
/// other identifiers interleave with it: the identifier ends up known exactly
/// when it was known or was claimed; a known identifier's count rises once
/// per claim of it (saturating); a fresh identifier's count ends at the
/// number of claims of it; and the frontier receives a fresh, claimed
/// identifier exactly once — a known one never again.
pub proof fn lemma_claim_seq_effect(
    m: Map<Seq<char>, u64>,
    f: Seq<Seq<char>>,
    ids: Seq<Seq<char>>,
    id: Seq<char>,
)
    ensures
        claim_seq_counts(m, ids).contains_key(id) <==> (m.contains_key(id) || ids.contains(id)),
        m.contains_key(id) ==> claim_seq_counts(m, ids)[id] == capped_add(m[id], occ(ids, id)),
        !m.contains_key(id) && occ(ids, id) > 0 ==> claim_seq_counts(m, ids)[id] == capped_add(
            1u64,
            (occ(ids, id) - 1) as nat,
        ),
        occ(claim_seq_frontier(m, f, ids), id) == occ(f, id) + (
        if !m.contains_key(id) && ids.contains(id) {
            1nat
        } else {
            0nat
        }),
    decreases ids.len(),
{
    lemma_occ_positive(ids, id);
    if ids.len() > 0 {
        let p = ids.drop_last();
        let last = ids.last();
        lemma_claim_seq_effect(m, f, p, id);
        lemma_occ_positive(p, id);
        assert(ids[ids.len() - 1] == last);
        if p.contains(id) {
            let i = choose|i: int| 0 <= i < p.len() && p[i] == id;
            assert(ids[i] == id);
        }
        if ids.contains(id) && last != id {
            let i = choose|i: int| 0 <= i < ids.len() && ids[i] == id;
            assert(p[i] == id);
        }
        let cp = claim_seq_counts(m, p);
        let fp = claim_seq_frontier(m, f, p);
        lemma_claim_seq_effect(m, f, p, last);
        lemma_occ_push(fp, last, id);
    }
}

/// Feeding the same neighbour list to the registry twice enqueues a fresh
/// identifier exactly once and counts it exactly twice.
pub proof fn lemma_idempotent_resubmission(
    m: Map<Seq<char>, u64>,
    f: Seq<Seq<char>>,
    l: Seq<Seq<char>>,
    id: Seq<char>,
)
    requires
        !m.contains_key(id),
        occ(l, id) == 1,
    ensures
        claim_seq_counts(m, l + l).contains_key(id),
        claim_seq_counts(m, l + l)[id] == 2,
        occ(claim_seq_frontier(m, f, l + l), id) == occ(f, id) + 1,
{
    lemma_occ_concat(l, l, id);
    lemma_occ_positive(l + l, id);
    lemma_claim_seq_effect(m, f, l + l, id);
}

/// The domain of the association-list table is exactly the set of its keys.
pub proof fn lemma_counts_map_dom(s: Seq<(String, u64)>, id: Seq<char>)
    ensures
        counts_map(s).contains_key(id) <==> exists|i: int| 0 <= i < s.len() && s[i].0@ == id,
    decreases s.len(),
{
    if s.len() > 0 {
        lemma_counts_map_dom(s.drop_last(), id);
        if s.last().0@ == id {
            assert(s[s.len() - 1].0@ == id);
        } else {
            if counts_map(s).contains_key(id) {
                let i = choose|i: int| 0 <= i < s.drop_last().len() && s.drop_last()[i].0@ == id;
                assert(s[i].0@ == id);
            }
            if exists|i: int| 0 <= i < s.len() && s[i].0@ == id {
                let i = choose|i: int| 0 <= i < s.len() && s[i].0@ == id;
                assert(s.drop_last()[i].0@ == id);
            }
        }
    }
}

/// With distinct keys, the table has exactly one key per entry.
pub proof fn lemma_counts_map_card(s: Seq<(String, u64)>)
    requires
        keys_distinct(s),
    ensures
        counts_map(s).dom().finite(),
        counts_map(s).dom().len() == s.len(),
    decreases s.len(),
{
    if s.len() == 0 {
        assert(counts_map(s).dom() =~= Set::<Seq<char>>::empty());
    } else {
        let p = s.drop_last();
        assert(keys_distinct(p)) by {
            assert forall|i: int, j: int| 0 <= i < j < p.len() implies p[i].0@ != p[j].0@ by {
                assert(s[i].0@ != s[j].0@);
            }
        }
        lemma_counts_map_card(p);
        lemma_counts_map_dom(p, s.last().0@);
        assert(!counts_map(p).contains_key(s.last().0@)) by {
            assert forall|i: int| 0 <= i < p.len() implies p[i].0@ != s.last().0@ by {
                assert(s[i].0@ != s[s.len() - 1].0@);
            }
        }
        assert(counts_map(s).dom() =~= counts_map(p).dom().insert(s.last().0@));
    }
}

/// With distinct keys, the table maps each entry's key to that entry's count.
pub proof fn lemma_counts_map_at(s: Seq<(String, u64)>, i: int)
    requires
        keys_distinct(s),
        0 <= i < s.len(),
    ensures
        counts_map(s).contains_key(s[i].0@),
        counts_map(s)[s[i].0@] == s[i].1,
    decreases s.len(),
{
    if i < s.len() - 1 {
        lemma_counts_map_at(s.drop_last(), i);
        assert(s.drop_last()[i] == s[i]);
    }
}

/// With distinct keys, replacing the count at one index updates exactly that
/// key of the table.
pub proof fn lemma_counts_map_update(s: Seq<(String, u64)>, i: int, c: u64)
    requires
        keys_distinct(s),
        0 <= i < s.len(),
    ensures
        counts_map(s.update(i, (s[i].0, c))) =~= counts_map(s).insert(s[i].0@, c),
        keys_distinct(s.update(i, (s[i].0, c))),
    decreases s.len(),
{
    let t = s.update(i, (s[i].0, c));
    if i == s.len() - 1 {
        assert(t.drop_last() =~= s.drop_last());
    } else {
        lemma_counts_map_update(s.drop_last(), i, c);
        assert(t.drop_last() =~= s.drop_last().update(i, (s[i].0, c)));
        assert(t.last() == s.last());
        lemma_counts_map_dom(s.drop_last(), s[i].0@);
    }
}

} // verus!

