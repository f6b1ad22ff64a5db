//! The fingerprint cache: a memory-resident list of up to
//! `max_hot_cache_size` (query fingerprint → plan) records, scored by
//! fingerprint similarity on lookup. A durable table behind it is the I/O
//! layer's concern; it hands records in through [`FingerprintCache::warm_up`].
use vstd::prelude::*;

use crate::fingerprint::{QueryFingerprint, no_dup_words, similarity_milli};
use crate::llm::LLMQueryParams;

verus! {

/// One cached record: the fingerprint, the plan it produced, and its usage
/// accounting.
#[derive(Debug, Clone)]
pub struct CacheEntry {
    pub fingerprint: QueryFingerprint,
    pub params: LLMQueryParams,
    pub hit_count: u32,
    pub last_used: u64,
}

/// No two records share a query.
pub open spec fn queries_unique(hot: Seq<CacheEntry>) -> bool {
    forall|i: int, j: int|
        0 <= i < j < hot.len() ==> (#[trigger] hot[i]).fingerprint.query@ != (
        #[trigger] hot[j]).fingerprint.query@
}

/// Index of the record with this query, if any.
pub open spec fn query_find(hot: Seq<CacheEntry>, q: Seq<u8>) -> Option<int>
    decreases hot.len(),
{
    if hot.len() == 0 {
        None
    } else if hot[0].fingerprint.query@ == q {
        Some(0)
    } else {
        match query_find(hot.skip(1), q) {
            Some(i) => Some(i + 1),
            None => None,
        }
    }
}

proof fn lemma_query_find(hot: Seq<CacheEntry>, q: Seq<u8>)
    ensures
        match query_find(hot, q) {
            Some(i) => 0 <= i < hot.len() && hot[i].fingerprint.query@ == q && forall|j: int|
                0 <= j < i ==> (#[trigger] hot[j]).fingerprint.query@ != q,
            None => forall|j: int|
                0 <= j < hot.len() ==> (#[trigger] hot[j]).fingerprint.query@ != q,
        },
    decreases hot.len(),
{
    if hot.len() != 0 && hot[0].fingerprint.query@ != q {
        lemma_query_find(hot.skip(1), q);
        assert forall|j: int| 1 <= j < hot.len() implies hot.skip(1)[j - 1] == hot[j] by {}
    }
}

/// Number of records holding this query.
pub open spec fn query_count(hot: Seq<CacheEntry>, q: Seq<u8>) -> nat
    decreases hot.len(),
{
    if hot.len() == 0 {
        0
    } else {
        query_count(hot.drop_last(), q) + if hot.last().fingerprint.query@ == q {
            1nat
        } else {
            0nat
        }
    }
}

/// No record of the query, no count.
proof fn lemma_query_count_none(hot: Seq<CacheEntry>, q: Seq<u8>)
    requires
        forall|j: int| 0 <= j < hot.len() ==> (#[trigger] hot[j]).fingerprint.query@ != q,
    ensures
        query_count(hot, q) == 0,
    decreases hot.len(),
{
    if hot.len() > 0 {
        assert forall|j: int| 0 <= j < hot.drop_last().len() implies (
        #[trigger] hot.drop_last()[j]).fingerprint.query@ != q by {
            assert(hot.drop_last()[j] == hot[j]);
        }
        lemma_query_count_none(hot.drop_last(), q);
        assert(hot[hot.len() - 1].fingerprint.query@ != q);
    }
}

/// With queries unique, a cache holding a record of `q` holds exactly one:
/// admission replaces an existing record of the same query in place (see
/// [`FingerprintCache::insert`]), so re-admitting a query leaves one record,
/// carrying the later admission's last-used time.
pub proof fn lemma_one_record_per_query(hot: Seq<CacheEntry>, q: Seq<u8>, i: int)
    requires
        queries_unique(hot),
        0 <= i < hot.len(),
        hot[i].fingerprint.query@ == q,
    ensures
        query_count(hot, q) == 1,
    decreases hot.len(),
{
    if i == hot.len() - 1 {
        assert forall|j: int| 0 <= j < hot.drop_last().len() implies (
        #[trigger] hot.drop_last()[j]).fingerprint.query@ != q by {
            assert(hot.drop_last()[j] == hot[j]);
        }
        lemma_query_count_none(hot.drop_last(), q);
        assert(hot.last().fingerprint.query@ == q);
    } else {
        assert(queries_unique(hot.drop_last())) by {
            assert forall|x: int, y: int|
                0 <= x < y < hot.drop_last().len() implies (
            #[trigger] hot.drop_last()[x]).fingerprint.query@ != (
            #[trigger] hot.drop_last()[y]).fingerprint.query@ by {
                assert(hot.drop_last()[x] == hot[x]);
                assert(hot.drop_last()[y] == hot[y]);
            }
        }
        assert(hot.drop_last()[i] == hot[i]);
        lemma_one_record_per_query(hot.drop_last(), q, i);
        assert(hot.last().fingerprint.query@ != q);
    }
}

/// The similarity of the lookup fingerprint `fp` against record `j`, given
/// the per-record embedding cosines.
pub open spec fn sim_at(
    hot: Seq<CacheEntry>,
    fp: QueryFingerprint,
    cosines: Seq<u64>,
    j: int,
) -> int {
    similarity_milli(
        fp.keywords.deep_view(),
        hot[j].fingerprint.keywords.deep_view(),
        fp.temporal,
        hot[j].fingerprint.temporal,
        cosines[j] as int,
    )
}

/// The eviction key: least hit count first, oldest use breaking ties.
pub open spec fn evict_less(a: CacheEntry, b: CacheEntry) -> bool {
    a.hit_count < b.hit_count || (a.hit_count == b.hit_count && a.last_used < b.last_used)
}

/// `m` is the position eviction picks from `s`: no record is strictly less
/// worth keeping, and it is the earliest such position.
pub open spec fn is_evict_min(s: Seq<CacheEntry>, m: int) -> bool {
    &&& 0 <= m < s.len()
    &&& forall|j: int| 0 <= j < s.len() ==> !evict_less(#[trigger] s[j], s[m])
    &&& forall|j: int| 0 <= j < m ==> evict_less(s[m], #[trigger] s[j])
}

/// Saturating bump of a hit counter.
pub open spec fn bump_hits(h: u32) -> u32 {
    if h == u32::MAX {
        h
    } else {
        (h + 1) as u32
    }
}

/// The memory tier of the fingerprint cache.
pub struct FingerprintCache {
    pub hot_cache: Vec<CacheEntry>,
    pub max_hot_cache_size: usize,
}

impl FingerprintCache {
    /// Queries unique, keyword lists duplicate-free, size within bounds.
    pub open spec fn wf(self) -> bool {
        &&& queries_unique(self.hot_cache@)
        &&& self.hot_cache@.len() <= self.max_hot_cache_size
        &&& self.max_hot_cache_size >= 1
        &&& forall|i: int|
            0 <= i < self.hot_cache@.len() ==> no_dup_words(
                (#[trigger] self.hot_cache@[i]).fingerprint.keywords.deep_view(),
            )
    }

    /// An empty cache with the standard hot-set bound of 100 records.
    pub fn new() -> (r: FingerprintCache)
        ensures
            r.wf(),
            r.hot_cache@.len() == 0,
            r.max_hot_cache_size == 100,
    {
        FingerprintCache { hot_cache: Vec::new(), max_hot_cache_size: 100 }
    }

    /// Adopt records loaded from the durable table (most recently used
    /// first) as the hot set.
    pub fn warm_up(&mut self, records: Vec<CacheEntry>)
        requires
            old(self).wf(),
            queries_unique(records@),
            records@.len() <= old(self).max_hot_cache_size,
            forall|i: int|
                0 <= i < records@.len() ==> no_dup_words(
                    (#[trigger] records@[i]).fingerprint.keywords.deep_view(),
                ),
        ensures
            final(self).wf(),
            final(self).hot_cache == records,
            final(self).max_hot_cache_size == old(self).max_hot_cache_size,
    {
        self.hot_cache = records;
    }

    /// Adopt the records only if the hot set is still empty.
    pub fn warm_up_cache(&mut self, records: Vec<CacheEntry>)
        requires
            old(self).wf(),
            queries_unique(records@),
            records@.len() <= old(self).max_hot_cache_size,
            forall|i: int|
                0 <= i < records@.len() ==> no_dup_words(
                    (#[trigger] records@[i]).fingerprint.keywords.deep_view(),
                ),
        ensures
            final(self).wf(),
            final(self).max_hot_cache_size == old(self).max_hot_cache_size,
            if old(self).hot_cache@.len() == 0 {
                final(self).hot_cache == records
            } else {
                final(self).hot_cache == old(self).hot_cache
            },
    {
        if self.hot_cache.len() == 0 {
            self.warm_up(records);
        }
    }

    /// Look up the best-scoring record: among records whose similarity to
    /// `fp` reaches `threshold_milli`, the one with the highest score (the
    /// latest such on ties). A hit bumps the record's hit count and refreshes
    /// its last-used time; a miss changes nothing. `cosines[j]` must hold the
    /// embedding cosine of `fp` against record `j`, scaled to 0..=1000.
    pub fn find_match(
        &mut self,
        fp: &QueryFingerprint,
        cosines: &Vec<u64>,
        threshold_milli: u64,
        now: u64,
    ) -> (r: Option<LLMQueryParams>)
        requires
            old(self).wf(),
            no_dup_words(fp.keywords.deep_view()),
            cosines@.len() == old(self).hot_cache@.len(),
            forall|j: int| 0 <= j < cosines@.len() ==> (#[trigger] cosines@[j]) <= 1000,
        ensures
            final(self).wf(),
            final(self).max_hot_cache_size == old(self).max_hot_cache_size,
            match r {
                Some(p) => exists|i: int|
                    {
                        &&& 0 <= i < old(self).hot_cache@.len()
                        &&& #[trigger] sim_at(old(self).hot_cache@, *fp, cosines@, i)
                            >= threshold_milli
                        &&& forall|j: int|
                            0 <= j < old(self).hot_cache@.len() ==> #[trigger] sim_at(
                                old(self).hot_cache@,
                                *fp,
                                cosines@,
                                j,
                            ) <= sim_at(old(self).hot_cache@, *fp, cosines@, i)
                        &&& p@ == old(self).hot_cache@[i].params@
                        &&& final(self).hot_cache@.len() == old(self).hot_cache@.len()
                        &&& forall|j: int|
                            0 <= j < old(self).hot_cache@.len() && j != i
                                ==> final(self).hot_cache@[j] == old(self).hot_cache@[j]
                        &&& final(self).hot_cache@[i].fingerprint.query@ == old(self).hot_cache@[i].fingerprint.query@
                        &&& final(self).hot_cache@[i].fingerprint.keywords.deep_view() == old(self).hot_cache@[i].fingerprint.keywords.deep_view()
                        &&& final(self).hot_cache@[i].fingerprint.temporal == old(self).hot_cache@[i].fingerprint.temporal
                        &&& final(self).hot_cache@[i].fingerprint.embedding@ == old(self).hot_cache@[i].fingerprint.embedding@
                        &&& final(self).hot_cache@[i].params@ == old(self).hot_cache@[i].params@
                        &&& final(self).hot_cache@[i].hit_count == bump_hits(
                            old(self).hot_cache@[i].hit_count,
                        )
                        &&& final(self).hot_cache@[i].last_used == now
                    },
                None => {
                    &&& forall|j: int|
                        0 <= j < old(self).hot_cache@.len() ==> #[trigger] sim_at(
                            old(self).hot_cache@,
                            *fp,
                            cosines@,
                            j,
                        ) < threshold_milli
                    &&& final(self).hot_cache == old(self).hot_cache
                },
            },
    {
        let ghost hot0 = self.hot_cache@;
        let mut best: Option<usize> = None;
        let mut best_sim: u64 = 0;
        let mut j: usize = 0;
        while j < self.hot_cache.len()
            invariant
                old(self).wf(),
                self.hot_cache == old(self).hot_cache,
                self.max_hot_cache_size == old(self).max_hot_cache_size,
                hot0 == self.hot_cache@,
                no_dup_words(fp.keywords.deep_view()),
                cosines@.len() == hot0.len(),
                forall|k: int| 0 <= k < cosines@.len() ==> (#[trigger] cosines@[k]) <= 1000,
                j <= hot0.len(),
                match best {
                    Some(i) => {
                        &&& 0 <= i < j
                        &&& best_sim as int == sim_at(hot0, *fp, cosines@, i as int)
                        &&& best_sim >= threshold_milli
                        &&& forall|k: int|
                            0 <= k < j ==> #[trigger] sim_at(hot0, *fp, cosines@, k)
                                <= best_sim as int
                    },
                    None => forall|k: int|
                        0 <= k < j ==> #[trigger] sim_at(hot0, *fp, cosines@, k)
                            < threshold_milli,
                },
            decreases hot0.len() - j,
        {
            let entry = &self.hot_cache[j];
            let s = fp.similarity(&entry.fingerprint, cosines[j]);
            proof {
                assert(s as int == sim_at(hot0, *fp, cosines@, j as int));
            }
            if s >= threshold_milli {
                match best {
                    Some(_) => {
                        if s >= best_sim {
                            best = Some(j);
                            best_sim = s;
                        }
                    },
                    None => {
                        best = Some(j);
                        best_sim = s;
                    },
                }
            }
            j = j + 1;
        }
        match best {
            None => None,
            Some(i) => {
                let e = &self.hot_cache[i];
                let p = e.params.duplicate();
                let new_hits = if e.hit_count == u32::MAX {
                    e.hit_count
                } else {
                    e.hit_count + 1
                };
                let fp2 = clone_fingerprint(&e.fingerprint);
                let params2 = e.params.duplicate();
                let ghost old_entry = self.hot_cache@[i as int];
                let e2 = CacheEntry {
                    fingerprint: fp2,
                    params: params2,
                    hit_count: new_hits,
                    last_used: now,
                };
                self.hot_cache[i] = e2;
                proof {
                    assert forall|x: int, y: int|
                        0 <= x < y < self.hot_cache@.len() implies (
                    #[trigger] self.hot_cache@[x]).fingerprint.query@ != (
                    #[trigger] self.hot_cache@[y]).fingerprint.query@ by {
                        assert(self.hot_cache@[x].fingerprint.query@
                            == hot0[x].fingerprint.query@);
                        assert(self.hot_cache@[y].fingerprint.query@
                            == hot0[y].fingerprint.query@);
                    }
                    assert forall|x: int|
                        0 <= x < self.hot_cache@.len() implies no_dup_words(
                        (#[trigger] self.hot_cache@[x]).fingerprint.keywords.deep_view(),
                    ) by {
                        if x == i as int {
                            assert(self.hot_cache@[x].fingerprint.keywords.deep_view()
                                == old_entry.fingerprint.keywords.deep_view());
                        } else {
                            assert(self.hot_cache@[x] == hot0[x]);
                        }
                    }
                }
                Some(p)
            },
        }
    }
}

impl FingerprintCache {
    /// Admit a (fingerprint, plan) record. A record with the same query is
    /// replaced in place — the cache never holds two records of one query —
    /// with its hit count reset to 1 and last-used set to `now`. A new query
    /// is appended; when that would exceed the bound, the record least worth
    /// keeping (fewest hits, oldest use, earliest position) is evicted.
    pub fn insert(&mut self, fingerprint: QueryFingerprint, params: LLMQueryParams, now: u64)
        requires
            old(self).wf(),
            no_dup_words(fingerprint.keywords.deep_view()),
        ensures
            final(self).wf(),
            final(self).max_hot_cache_size == old(self).max_hot_cache_size,
            match query_find(old(self).hot_cache@, fingerprint.query@) {
                Some(i) => {
                    &&& final(self).hot_cache@.len() == old(self).hot_cache@.len()
                    &&& forall|j: int|
                        0 <= j < old(self).hot_cache@.len() && j != i ==> final(self).hot_cache@[j] == old(self).hot_cache@[j]
                    &&& final(self).hot_cache@[i].fingerprint == fingerprint
                    &&& final(self).hot_cache@[i].params == params
                    &&& final(self).hot_cache@[i].hit_count == 1
                    &&& final(self).hot_cache@[i].last_used == now
                },
                None => {
                    if old(self).hot_cache@.len() < old(self).max_hot_cache_size {
                        final(self).hot_cache@ == old(self).hot_cache@.push(
                            (CacheEntry { fingerprint, params, hit_count: 1, last_used: now }),
                        )
                    } else {
                        exists|m: int|
                            #[trigger] is_evict_min(
                                old(self).hot_cache@.push(
                                    (CacheEntry {
                                        fingerprint,
                                        params,
                                        hit_count: 1,
                                        last_used: now,
                                    }),
                                ),
                                m,
                            ) && final(self).hot_cache@ == old(self).hot_cache@.push(
                                (CacheEntry { fingerprint, params, hit_count: 1, last_used: now }),
                            ).remove(m)
                    }
                },
            },
    {
        let ghost hot0 = self.hot_cache@;
        proof {
            lemma_query_find(hot0, fingerprint.query@);
        }
        let existing = self.find_query_index(&fingerprint.query);
        let entry = CacheEntry { fingerprint, params, hit_count: 1, last_used: now };
        match existing {
            Some(i) => {
                self.hot_cache[i] = entry;
                proof {
                    assert forall|x: int, y: int|
                        0 <= x < y < self.hot_cache@.len() implies (
                    #[trigger] self.hot_cache@[x]).fingerprint.query@ != (
                    #[trigger] self.hot_cache@[y]).fingerprint.query@ by {
                        if x != i as int && y != i as int {
                            assert(self.hot_cache@[x] == hot0[x] && self.hot_cache@[y] == hot0[y]);
                        } else if x == i as int {
                            assert(self.hot_cache@[y] == hot0[y]);
                            assert(hot0[y].fingerprint.query@ != hot0[i as int].fingerprint.query@);
                        } else {
                            assert(self.hot_cache@[x] == hot0[x]);
                            assert(hot0[x].fingerprint.query@ != hot0[i as int].fingerprint.query@);
                        }
                    }
                    assert forall|x: int|
                        0 <= x < self.hot_cache@.len() implies no_dup_words(
                        (#[trigger] self.hot_cache@[x]).fingerprint.keywords.deep_view(),
                    ) by {
                        if x != i as int {
                            assert(self.hot_cache@[x] == hot0[x]);
                        }
                    }
                }
            },
            None => {
                let at_capacity = self.hot_cache.len() >= self.max_hot_cache_size;
                self.hot_cache.push(entry);
                let ghost pushed = self.hot_cache@;
                proof {
                    assert forall|x: int, y: int|
                        0 <= x < y < pushed.len() implies (
                    #[trigger] pushed[x]).fingerprint.query@ != (
                    #[trigger] pushed[y]).fingerprint.query@ by {
                        if y == pushed.len() - 1 {
                            assert(pushed[x] == hot0[x]);
                        } else {
                            assert(pushed[x] == hot0[x] && pushed[y] == hot0[y]);
                        }
                    }
                    assert forall|x: int|
                        0 <= x < pushed.len() implies no_dup_words(
                        (#[trigger] pushed[x]).fingerprint.keywords.deep_view(),
                    ) by {
                        if x < pushed.len() - 1 {
                            assert(pushed[x] == hot0[x]);
                        }
                    }
                }
                if at_capacity {
                    self.evict_least_used();
                }
            },
        }
    }

    /// Drop the record least worth keeping: fewest hits, oldest last use,
    /// earliest position breaking remaining ties.
    fn evict_least_used(&mut self)
        requires
            old(self).hot_cache@.len() >= 1,
            queries_unique(old(self).hot_cache@),
            forall|i: int|
                0 <= i < old(self).hot_cache@.len() ==> no_dup_words(
                    (#[trigger] old(self).hot_cache@[i]).fingerprint.keywords.deep_view(),
                ),
        ensures
            final(self).max_hot_cache_size == old(self).max_hot_cache_size,
            queries_unique(final(self).hot_cache@),
            forall|i: int|
                0 <= i < final(self).hot_cache@.len() ==> no_dup_words(
                    (#[trigger] final(self).hot_cache@[i]).fingerprint.keywords.deep_view(),
                ),
            exists|m: int|
                #[trigger] is_evict_min(old(self).hot_cache@, m) && final(self).hot_cache@ == old(self).hot_cache@.remove(m),
    {
        let ghost hot0 = self.hot_cache@;
        let mut m: usize = 0;
        let mut j: usize = 1;
        while j < self.hot_cache.len()
            invariant
                self.hot_cache == old(self).hot_cache,
                self.max_hot_cache_size == old(self).max_hot_cache_size,
                hot0 == self.hot_cache@,
                hot0.len() >= 1,
                m < j <= hot0.len(),
                forall|k: int| 0 <= k < j ==> !evict_less(#[trigger] hot0[k], hot0[m as int]),
                forall|k: int| 0 <= k < m ==> evict_less(hot0[m as int], #[trigger] hot0[k]),
            decreases hot0.len() - j,
        {
            let a = &self.hot_cache[j];
            let b = &self.hot_cache[m];
            let less = a.hit_count < b.hit_count || (a.hit_count == b.hit_count && a.last_used
                < b.last_used);
            proof {
                assert(less == evict_less(hot0[j as int], hot0[m as int]));
            }
            if less {
                m = j;
            }
            j = j + 1;
        }
        proof {
            assert(is_evict_min(hot0, m as int));
        }
        self.hot_cache.remove(m);
        proof {
            assert(is_evict_min(old(self).hot_cache@, m as int));
            assert(self.hot_cache@ == hot0.remove(m as int));
            assert forall|x: int, y: int|
                0 <= x < y < self.hot_cache@.len() implies (
            #[trigger] self.hot_cache@[x]).fingerprint.query@ != (
            #[trigger] self.hot_cache@[y]).fingerprint.query@ by {
                let xx = if x < m { x } else { x + 1 };
                let yy = if y < m { y } else { y + 1 };
                assert(self.hot_cache@[x] == hot0[xx]);
                assert(self.hot_cache@[y] == hot0[yy]);
            }
            assert forall|x: int|
                0 <= x < self.hot_cache@.len() implies no_dup_words(
                (#[trigger] self.hot_cache@[x]).fingerprint.keywords.deep_view(),
            ) by {
                let xx = if x < m { x } else { x + 1 };
                assert(self.hot_cache@[x] == hot0[xx]);
            }
        }
    }

    /// Bump the hit count and refresh the last-used time of the record with
    /// this query, if present.
    pub fn update_hit_count(&mut self, query: &Vec<u8>, now: u64)
        requires
            old(self).wf(),
        ensures
            final(self).wf(),
            final(self).max_hot_cache_size == old(self).max_hot_cache_size,
            match query_find(old(self).hot_cache@, query@) {
                Some(i) => {
                    &&& final(self).hot_cache@.len() == old(self).hot_cache@.len()
                    &&& forall|j: int|
                        0 <= j < old(self).hot_cache@.len() && j != i ==> final(self).hot_cache@[j] == old(self).hot_cache@[j]
                    &&& final(self).hot_cache@[i].fingerprint.query@ == old(self).hot_cache@[i].fingerprint.query@
                    &&& final(self).hot_cache@[i].fingerprint.keywords.deep_view() == old(self).hot_cache@[i].fingerprint.keywords.deep_view()
                    &&& final(self).hot_cache@[i].fingerprint.temporal == old(self).hot_cache@[i].fingerprint.temporal
                    &&& final(self).hot_cache@[i].params@ == old(self).hot_cache@[i].params@
                    &&& final(self).hot_cache@[i].hit_count == bump_hits(
                        old(self).hot_cache@[i].hit_count,
                    )
                    &&& final(self).hot_cache@[i].last_used == now
                },
                None => final(self).hot_cache == old(self).hot_cache,
            },
    {
        let ghost hot0 = self.hot_cache@;
        proof {
            lemma_query_find(hot0, query@);
        }
        let found = self.find_query_index(query);
        match found {
            None => {},
            Some(i) => {
                let e = &self.hot_cache[i];
                let new_hits = if e.hit_count == u32::MAX {
                    e.hit_count
                } else {
                    e.hit_count + 1
                };
                let fp2 = clone_fingerprint(&e.fingerprint);
                let params2 = e.params.duplicate();
                let e2 = CacheEntry {
                    fingerprint: fp2,
                    params: params2,
                    hit_count: new_hits,
                    last_used: now,
                };
                let ghost old_entry = hot0[i as int];
                self.hot_cache[i] = e2;
                proof {
                    assert forall|x: int, y: int|
                        0 <= x < y < self.hot_cache@.len() implies (
                    #[trigger] self.hot_cache@[x]).fingerprint.query@ != (
                    #[trigger] self.hot_cache@[y]).fingerprint.query@ by {
                        assert(self.hot_cache@[x].fingerprint.query@
                            == hot0[x].fingerprint.query@);
                        assert(self.hot_cache@[y].fingerprint.query@
                            == hot0[y].fingerprint.query@);
                    }
                    assert forall|x: int|
                        0 <= x < self.hot_cache@.len() implies no_dup_words(
                        (#[trigger] self.hot_cache@[x]).fingerprint.keywords.deep_view(),
                    ) by {
                        if x == i as int {
                            assert(self.hot_cache@[x].fingerprint.keywords.deep_view()
                                == old_entry.fingerprint.keywords.deep_view());
                        } else {
                            assert(self.hot_cache@[x] == hot0[x]);
                        }
                    }
                }
            },
        }
    }

    /// The position of the record with this query, if any.
    fn find_query_index(&self, query: &Vec<u8>) -> (r: Option<usize>)
        ensures
            match r {
                Some(i) => query_find(self.hot_cache@, query@) == Some(i as int),
                None => query_find(self.hot_cache@, query@) is None,
            },
    {
        let ghost hot = self.hot_cache@;
        let mut i: usize = 0;
        while i < self.hot_cache.len()
            invariant
                hot == self.hot_cache@,
                i <= hot.len(),
                forall|j: int| 0 <= j < i ==> (#[trigger] hot[j]).fingerprint.query@ != query@,
            decreases hot.len() - i,
        {
            if crate::text::eq_bytes(self.hot_cache[i].fingerprint.query.as_slice(), query.as_slice()) {
                proof {
                    lemma_query_find(hot, query@);
                    match query_find(hot, query@) {
                        Some(i0) => {
                            if i0 < i {
                                assert(hot[i0].fingerprint.query@ != query@);
                                assert(false);
                            }
                            if i0 > i as int {
                                assert(hot[i as int].fingerprint.query@ != query@);
                                assert(false);
                            }
                        },
                        None => {
                            assert(hot[i as int].fingerprint.query@ != query@);
                            assert(false);
                        },
                    }
                }
                return Some(i);
            }
            i = i + 1;
        }
        proof {
            lemma_query_find(hot, query@);
            match query_find(hot, query@) {
                Some(i0) => {
                    assert(hot[i0].fingerprint.query@ != query@);
                    assert(false);
                },
                None => {},
            }
        }
        None
    }
}

/// A field-for-field copy of a fingerprint (views preserved).
fn clone_fingerprint(fp: &QueryFingerprint) -> (r: QueryFingerprint)
    ensures
        r.query@ == fp.query@,
        r.keywords.deep_view() == fp.keywords.deep_view(),
        r.temporal == fp.temporal,
        r.embedding@ == fp.embedding@,
{
    let mut kws: Vec<Vec<u8>> = Vec::new();
    let mut i: usize = 0;
    while i < fp.keywords.len()
        invariant
            i <= fp.keywords@.len(),
            kws.deep_view() == fp.keywords.deep_view().take(i as int),
        decreases fp.keywords@.len() - i,
    {
        let w = crate::types::clone_bytes(&fp.keywords[i]);
        let ghost pre = kws.deep_view();
        proof {
            assert(w.deep_view() =~= w@);
            assert(fp.keywords.deep_view()[i as int] =~= fp.keywords@[i as int]@);
        }
        kws.push(w);
        proof {
            assert(kws.deep_view() =~= pre.push(w@));
            assert(fp.keywords.deep_view().take(i + 1 as int) =~= pre.push(w@));
        }
        i = i + 1;
    }
    proof {
        assert(fp.keywords.deep_view().take(fp.keywords@.len() as int)
            =~= fp.keywords.deep_view());
    }
    let q = crate::types::clone_bytes(&fp.query);
    let emb = fp.embedding.clone();
    proof {
        assert(emb@ =~= fp.embedding@);
    }
    QueryFingerprint { query: q, keywords: kws, temporal: fp.temporal, embedding: emb }
}

} // verus!
