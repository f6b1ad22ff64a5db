//! The search executor: lexical matching over the store with relevance
//! scoring, working-directory and temporal boosting, deduplication and
//! ranking. Scores are integers scaled by 1000 (100.0 points is 100_000).
use vstd::prelude::*;

use vstd::multiset::Multiset;
use vstd::string::{StrSliceExecFns, StringSliceAdditionalSpecFns};

use crate::seqx::lemma_filter_step;
use crate::store::Store;
use crate::text::{
    contains_seq, is_prefix_of, lower_bytes, lower_bytes_spec, split_ws, str_bytes,
};
use crate::types::{Entry, EntryType, EntryV, SearchResult, opt_bytes};

verus! {

/// How many candidate rows the first ranking stage keeps.
pub const CANDIDATE_LIMIT: usize = 50;

/// How many results a search returns at most.
pub const RESULT_LIMIT: usize = 20;

/// How many of the most recent embedded entries the dense path considers.
pub const DENSE_SCAN_LIMIT: usize = 1000;

/// The mathematical value of a search result.
#[verifier::ext_equal]
pub ghost struct SearchResultV {
    pub id: u64,
    pub entry_type: EntryType,
    pub content: Seq<u8>,
    pub timestamp: u64,
    pub times_run: u64,
    pub working_dir: Option<Seq<u8>>,
    pub host: Option<Seq<u8>>,
    pub app_name: Option<Seq<u8>>,
    pub window_title: Option<Seq<u8>>,
    pub similarity: u64,
}

impl View for SearchResult {
    type V = SearchResultV;

    open spec fn view(&self) -> SearchResultV {
        SearchResultV {
            id: self.id,
            entry_type: self.entry_type,
            content: self.content@,
            timestamp: self.timestamp,
            times_run: self.times_run,
            working_dir: opt_bytes(self.working_dir),
            host: opt_bytes(self.host),
            app_name: opt_bytes(self.app_name),
            window_title: opt_bytes(self.window_title),
            similarity: self.similarity,
        }
    }
}

/// The views of a sequence of results.
pub open spec fn result_views(s: Seq<SearchResult>) -> Seq<SearchResultV> {
    s.map_values(|r: SearchResult| r@)
}

/// Whether a byte counts as a word character for boundary checks: ASCII
/// letters and digits, and any non-ASCII (multi-byte UTF-8) byte.
pub open spec fn is_word_byte(b: u8) -> bool {
    (48 <= b <= 57) || (65 <= b <= 90) || (97 <= b <= 122) || b >= 128
}

/// Position of the first occurrence of `q` in `s` (meaningful only when one
/// exists).
pub open spec fn first_occurrence(s: Seq<u8>, q: Seq<u8>) -> int {
    choose|i: int|
        crate::text::matches_at(s, q, i) && forall|j: int|
            0 <= j < i ==> !crate::text::matches_at(s, q, j)
}

/// The relevance of a content string against a lower-cased query, scaled by
/// 1000: an exact match scores 100_000; a prefix 90_000; a whole-word
/// occurrence 80_000 less a position penalty of up to 20_000; a substring
/// occurrence 60_000 less up to 30_000; otherwise 40_000 times the fraction
/// of the query's bytes present. An equal working directory adds 15_000, a
/// one-way prefix relation 8_000.
pub open spec fn relevance_milli(
    content: Seq<u8>,
    query: Seq<u8>,
    result_pwd: Seq<u8>,
    context_pwd: Seq<u8>,
) -> int {
    let c = lower_bytes_spec(content);
    let base = if c == query {
        100000int
    } else if is_prefix_of(query, c) {
        90000int
    } else if contains_seq(c, query) {
        let p = first_occurrence(c, query);
        let den = if c.len() == 0 {
            1int
        } else {
            c.len() as int
        };
        let word_start = p == 0 || !is_word_byte(c[p - 1]);
        let word_end = p + query.len() >= c.len() || !is_word_byte(c[p + query.len()]);
        if word_start && word_end {
            80000 - 20000 * p / den
        } else {
            60000 - 30000 * p / den
        }
    } else {
        let den = if query.len() == 0 {
            1int
        } else {
            query.len() as int
        };
        40000 * (query.filter(|b: u8| c.contains(b)).len() as int) / den
    };
    let boost = if result_pwd.len() > 0 && context_pwd.len() > 0 {
        if result_pwd == context_pwd {
            15000int
        } else if is_prefix_of(context_pwd, result_pwd) || is_prefix_of(result_pwd, context_pwd) {
            8000int
        } else {
            0int
        }
    } else {
        0int
    };
    base + boost
}

/// The full ranking score: relevance plus a frequency bonus of 2_000 per
/// recorded run, capped at ten runs.
pub open spec fn score_milli(
    content: Seq<u8>,
    query: Seq<u8>,
    result_pwd: Seq<u8>,
    context_pwd: Seq<u8>,
    times_run: u64,
) -> int {
    relevance_milli(content, query, result_pwd, context_pwd) + 2000 * (if times_run > 10 {
        10int
    } else {
        times_run as int
    })
}

/// Compute the relevance score (see [`relevance_milli`]).
pub fn calculate_relevance_score(
    content: &[u8],
    query: &[u8],
    result_pwd: &[u8],
    context_pwd: &[u8],
) -> (r: u64)
    ensures
        r as int == relevance_milli(content@, query@, result_pwd@, context_pwd@),
        r <= 115000,
{
    let c = lower_bytes(content);
    let cs = c.as_slice();
    let base: u64;
    if crate::text::eq_bytes(cs, query) {
        base = 100000;
    } else if crate::text::starts_with_bytes(cs, query) {
        base = 90000;
    } else {
        match crate::text::find_bytes(cs, query) {
            Some(p) => {
                proof {
                    assert(contains_seq(c@, query@));
                    assert(first_occurrence(c@, query@) == p as int) by {
                        let fo = first_occurrence(c@, query@);
                        assert(crate::text::matches_at(c@, query@, p as int));
                        if fo < p {
                            assert(!crate::text::matches_at(c@, query@, fo));
                        }
                        if fo > p {
                            assert(!crate::text::matches_at(c@, query@, p as int));
                        }
                    }
                }
                proof {
                    if query@.len() == 0 {
                        assert(c@.subrange(0, 0) =~= query@);
                        assert(crate::text::matches_at(c@, query@, 0));
                        assert(p == 0);
                        assert(c@.len() > 0) by {
                            if c@.len() == 0 {
                                assert(c@ =~= query@);
                            }
                        }
                    }
                    assert(p < c@.len());
                }
                let den: u64 = if c.len() == 0 {
                    1
                } else {
                    c.len() as u64
                };
                let word_start = p == 0 || !is_word_byte_exec(c[p - 1]);
                let qe_over = p >= c.len() - query.len();
                let word_end = qe_over || !is_word_byte_exec(c[p + query.len()]);
                let factor: u128 = if word_start && word_end {
                    20000
                } else {
                    30000
                };
                let penalty: u64 = ((factor * (p as u128)) / (den as u128)) as u64;
                proof {
                    vstd::arithmetic::div_mod::lemma_div_is_ordered(
                        (factor as int) * (p as int),
                        (factor as int) * (den as int),
                        den as int,
                    );
                    assert((factor as int) * (p as int) <= (factor as int) * (den as int))
                        by (nonlinear_arith)
                        requires p as int <= den as int, factor as int >= 0,
                    ;
                    vstd::arithmetic::div_mod::lemma_div_by_multiple(factor as int, den as int);
                    vstd::arithmetic::div_mod::lemma_div_pos_is_pos(
                        (factor as int) * (p as int),
                        den as int,
                    );
                    assert(penalty <= factor);
                }
                if word_start && word_end {
                    base = 80000 - penalty;
                } else {
                    base = 60000 - penalty;
                }
            },
            None => {
                let ghost pred = |b: u8| c@.contains(b);
                let mut cnt: usize = 0;
                let mut i: usize = 0;
                while i < query.len()
                    invariant
                        i <= query@.len(),
                        c@ == lower_bytes_spec(content@),
                        pred == (|b: u8| c@.contains(b)),
                        cnt as int == query@.take(i as int).filter(pred).len(),
                        cnt <= i,
                    decreases query@.len() - i,
                {
                    proof {
                        lemma_filter_step(query@, pred, i as int);
                    }
                    if contains_byte(c.as_slice(), query[i]) {
                        cnt = cnt + 1;
                    }
                    i = i + 1;
                }
                proof {
                    assert(query@.take(query@.len() as int) =~= query@);
                }
                let den: u64 = if query.len() == 0 {
                    1
                } else {
                    query.len() as u64
                };
                let num: u128 = 40000u128 * (cnt as u128);
                let q128: u128 = num / (den as u128);
                proof {
                    assert(cnt as int <= den as int);
                    vstd::arithmetic::div_mod::lemma_div_is_ordered(
                        40000 * (cnt as int),
                        40000 * (den as int),
                        den as int,
                    );
                    assert(40000 * (cnt as int) <= 40000 * (den as int)) by (nonlinear_arith)
                        requires cnt as int <= den as int,
                    ;
                    vstd::arithmetic::div_mod::lemma_div_by_multiple(40000, den as int);
                    vstd::arithmetic::div_mod::lemma_div_pos_is_pos(
                        40000 * (cnt as int),
                        den as int,
                    );
                }
                base = q128 as u64;
            },
        }
    }
    let boost: u64;
    if result_pwd.len() > 0 && context_pwd.len() > 0 {
        if crate::text::eq_bytes(result_pwd, context_pwd) {
            boost = 15000;
        } else if crate::text::starts_with_bytes(result_pwd, context_pwd)
            || crate::text::starts_with_bytes(context_pwd, result_pwd) {
            boost = 8000;
        } else {
            boost = 0;
        }
    } else {
        boost = 0;
    }
    base + boost
}

/// A ranking candidate: an entry with the boost the first stage orders by.
pub struct Cand {
    pub entry: Entry,
    pub boost: u64,
}

/// The mathematical value of a candidate.
#[verifier::ext_equal]
pub ghost struct CandV {
    pub entry: EntryV,
    pub boost: u64,
}

impl View for Cand {
    type V = CandV;

    open spec fn view(&self) -> CandV {
        CandV { entry: self.entry@, boost: self.boost }
    }
}

/// The views of a sequence of candidates.
pub open spec fn cand_views(s: Seq<Cand>) -> Seq<CandV> {
    s.map_values(|c: Cand| c@)
}

/// Whether candidate `a` ranks strictly ahead of `b`: larger boost first,
/// then more runs, then more recent.
pub open spec fn cand_before(a: CandV, b: CandV) -> bool {
    a.boost > b.boost || (a.boost == b.boost && (a.entry.times_run > b.entry.times_run || (
    a.entry.times_run == b.entry.times_run && a.entry.timestamp > b.entry.timestamp)))
}

/// First-stage order: no later candidate ranks strictly ahead of an earlier
/// one.
pub open spec fn sorted_cands(s: Seq<CandV>) -> bool {
    forall|i: int, j: int| 0 <= i < j < s.len() ==> !cand_before(#[trigger] s[j], #[trigger] s[i])
}

/// Score order: non-increasing similarity.
pub open spec fn sorted_by_sim(s: Seq<SearchResultV>) -> bool {
    forall|i: int, j: int|
        0 <= i < j < s.len() ==> (#[trigger] s[j]).similarity <= (#[trigger] s[i]).similarity
}

/// The result row built from an entry with a given score.
pub open spec fn result_of(e: EntryV, s: int) -> SearchResultV {
    SearchResultV {
        id: e.id,
        entry_type: e.entry_type,
        content: e.content,
        timestamp: e.timestamp,
        times_run: e.times_run,
        working_dir: e.working_dir,
        host: e.host,
        app_name: e.app_name,
        window_title: e.window_title,
        similarity: s as u64,
    }
}

/// The scored rows of a candidate list, against a lower-cased query and a
/// context directory.
pub open spec fn scores_of(cands: Seq<CandV>, query: Seq<u8>, dir: Seq<u8>) -> Seq<SearchResultV> {
    cands.map_values(
        |c: CandV|
            result_of(
                c.entry,
                score_milli(
                    c.entry.content,
                    query,
                    match c.entry.working_dir {
                        Some(w) => w,
                        None => Seq::empty(),
                    },
                    dir,
                    c.entry.times_run,
                ),
            ),
    )
}

/// Keep only the first row of each content, in order.
pub open spec fn dedup_by_content(s: Seq<SearchResultV>) -> Seq<SearchResultV>
    decreases s.len(),
{
    if s.len() == 0 {
        s
    } else {
        let prefix = dedup_by_content(s.drop_last());
        if exists|j: int| 0 <= j < s.len() - 1 && (#[trigger] s[j]).content == s.last().content {
            prefix
        } else {
            prefix.push(s.last())
        }
    }
}

/// Every row of the deduplicated list comes from the input list.
proof fn lemma_dedup_member(s: Seq<SearchResultV>, x: int)
    requires
        0 <= x < dedup_by_content(s).len(),
    ensures
        exists|x0: int| 0 <= x0 < s.len() && s[x0].content == dedup_by_content(s)[x].content,
    decreases s.len(),
{
    if s.len() > 0 {
        let prefix = dedup_by_content(s.drop_last());
        if x < prefix.len() {
            lemma_dedup_member(s.drop_last(), x);
            let x0 = choose|x0: int|
                0 <= x0 < s.drop_last().len() && s.drop_last()[x0].content == dedup_by_content(
                    s.drop_last(),
                )[x].content;
            assert(s[x0].content == dedup_by_content(s)[x].content);
        } else {
            assert(s[s.len() - 1].content == dedup_by_content(s)[x].content);
        }
    }
}

/// Deduplication leaves no two rows with the same content: whatever the
/// ranking produced, the returned list names each content at most once.
pub proof fn lemma_dedup_no_repeats(s: Seq<SearchResultV>)
    ensures
        forall|i: int, j: int|
            0 <= i < j < dedup_by_content(s).len() ==> (#[trigger] dedup_by_content(s)[i]).content
                != (#[trigger] dedup_by_content(s)[j]).content,
    decreases s.len(),
{
    if s.len() > 0 {
        lemma_dedup_no_repeats(s.drop_last());
        let d = dedup_by_content(s);
        let prefix = dedup_by_content(s.drop_last());
        assert forall|i: int, j: int|
            0 <= i < j < d.len() implies (#[trigger] d[i]).content != (
        #[trigger] d[j]).content by {
            if exists|k: int|
                0 <= k < s.len() - 1 && (#[trigger] s[k]).content == s.last().content {
                assert(d == prefix);
                assert(d[i] == prefix[i] && d[j] == prefix[j]);
            } else {
                assert(d == prefix.push(s.last()));
                if j == d.len() - 1 {
                    assert(d[i] == prefix[i]);
                    lemma_dedup_member(s.drop_last(), i);
                    let x0 = choose|x0: int|
                        0 <= x0 < s.drop_last().len() && s.drop_last()[x0].content
                            == prefix[i].content;
                    if d[i].content == d[j].content {
                        assert(s[x0].content == s.last().content);
                        assert(false);
                    }
                } else {
                    assert(d[i] == prefix[i] && d[j] == prefix[j]);
                }
            }
        }
    }
}

/// Every row of the deduplicated list is a row of the input list.
proof fn lemma_dedup_member_row(s: Seq<SearchResultV>, x: int)
    requires
        0 <= x < dedup_by_content(s).len(),
    ensures
        exists|x0: int| 0 <= x0 < s.len() && s[x0] == dedup_by_content(s)[x],
    decreases s.len(),
{
    if s.len() > 0 {
        let prefix = dedup_by_content(s.drop_last());
        if x < prefix.len() {
            lemma_dedup_member_row(s.drop_last(), x);
            let x0 = choose|x0: int|
                0 <= x0 < s.drop_last().len() && s.drop_last()[x0] == dedup_by_content(
                    s.drop_last(),
                )[x];
            assert(s[x0] == dedup_by_content(s)[x]);
        } else {
            assert(s[s.len() - 1] == dedup_by_content(s)[x]);
        }
    }
}

/// Deduplication keeps the score order: the list the executor returns is
/// still sorted by similarity.
pub proof fn lemma_dedup_sorted(s: Seq<SearchResultV>)
    requires
        sorted_by_sim(s),
    ensures
        sorted_by_sim(dedup_by_content(s)),
    decreases s.len(),
{
    if s.len() > 0 {
        assert(sorted_by_sim(s.drop_last())) by {
            assert(forall|i: int|
                0 <= i < s.drop_last().len() ==> #[trigger] s.drop_last()[i] == s[i]);
        }
        lemma_dedup_sorted(s.drop_last());
        let d = dedup_by_content(s);
        let prefix = dedup_by_content(s.drop_last());
        assert forall|i: int, j: int|
            0 <= i < j < d.len() implies (#[trigger] d[j]).similarity <= (
        #[trigger] d[i]).similarity by {
            if exists|k: int|
                0 <= k < s.len() - 1 && (#[trigger] s[k]).content == s.last().content {
                assert(d == prefix);
                assert(d[i] == prefix[i] && d[j] == prefix[j]);
            } else {
                assert(d == prefix.push(s.last()));
                if j == d.len() - 1 {
                    assert(d[i] == prefix[i]);
                    lemma_dedup_member_row(s.drop_last(), i);
                    let x0 = choose|x0: int|
                        0 <= x0 < s.drop_last().len() && s.drop_last()[x0] == prefix[i];
                    assert(s[x0] == prefix[i]);
                    assert(s.last() == s[s.len() - 1]);
                    assert(s[s.len() - 1].similarity <= s[x0].similarity);
                } else {
                    assert(d[i] == prefix[i] && d[j] == prefix[j]);
                }
            }
        }
    }
}

/// The final ranking of a sorted candidate list: candidates capped at
/// [`CANDIDATE_LIMIT`], scored, re-sorted by score, deduplicated by content
/// and capped at [`RESULT_LIMIT`].
pub open spec fn ranked_results(
    cands: Seq<CandV>,
    query: Seq<u8>,
    dir: Seq<u8>,
    results: Seq<SearchResultV>,
) -> bool {
    exists|sorted: Seq<SearchResultV>|
        {
            &&& #[trigger] sorted.to_multiset() == scores_of(cands, query, dir).to_multiset()
            &&& sorted_by_sim(sorted)
            &&& results == (if dedup_by_content(sorted).len() <= RESULT_LIMIT {
                dedup_by_content(sorted)
            } else {
                dedup_by_content(sorted).take(RESULT_LIMIT as int)
            })
        }
}

/// Whether candidate `a` ranks strictly ahead of `b`.
fn cand_before_exec(a: &Cand, b: &Cand) -> (r: bool)
    ensures
        r == cand_before(a@, b@),
{
    a.boost > b.boost || (a.boost == b.boost && (a.entry.times_run > b.entry.times_run || (
    a.entry.times_run == b.entry.times_run && a.entry.timestamp > b.entry.timestamp)))
}

/// Sort candidates by first-stage rank, best first.
fn sort_cands(v: Vec<Cand>) -> (r: Vec<Cand>)
    ensures
        cand_views(r@).to_multiset() == cand_views(v@).to_multiset(),
        sorted_cands(cand_views(r@)),
{
    let ghost orig = cand_views(v@);
    let mut src = v;
    let mut out: Vec<Cand> = Vec::new();
    proof {
        cand_views(out@).to_multiset_ensures();
        assert(cand_views(out@).to_multiset().add(cand_views(src@).to_multiset()) =~= cand_views(
            src@,
        ).to_multiset());
    }
    while src.len() > 0
        invariant
            cand_views(out@).to_multiset().add(cand_views(src@).to_multiset())
                == orig.to_multiset(),
            sorted_cands(cand_views(out@)),
            forall|x: int, y: int|
                0 <= x < src@.len() && 0 <= y < out@.len() ==> !cand_before(
                    #[trigger] cand_views(src@)[x],
                    #[trigger] cand_views(out@)[y],
                ),
        decreases src@.len(),
    {
        let mut m: usize = 0;
        let mut j: usize = 1;
        while j < src.len()
            invariant
                src@.len() > 0,
                m < j <= src@.len(),
                forall|k: int|
                    0 <= k < j ==> !cand_before(
                        #[trigger] cand_views(src@)[k],
                        cand_views(src@)[m as int],
                    ),
            decreases src@.len() - j,
        {
            if cand_before_exec(&src[j], &src[m]) {
                m = j;
            }
            proof {
                assert(cand_views(src@)[j as int] == src@[j as int]@);
            }
            j = j + 1;
        }
        let ghost pre_src = src@;
        let ghost pre_out = out@;
        let e = src.remove(m);
        out.push(e);
        proof {
            assert(cand_views(pre_src)[m as int] == e@);
            assert(cand_views(src@) =~= cand_views(pre_src).remove(m as int));
            assert(cand_views(out@) =~= cand_views(pre_out).push(e@));
            cand_views(pre_src).to_multiset_ensures();
            cand_views(pre_out).to_multiset_ensures();
            assert(cand_views(src@).to_multiset() =~= cand_views(pre_src).to_multiset().remove(e@));
            assert(cand_views(out@).to_multiset() =~= cand_views(pre_out).to_multiset().insert(e@));
            assert(cand_views(pre_src).to_multiset().count(e@) > 0) by {
                assert(cand_views(pre_src)[m as int] == e@);
                assert(cand_views(pre_src).contains(e@));
            }
            assert(cand_views(out@).to_multiset().add(cand_views(src@).to_multiset())
                =~= orig.to_multiset());
            assert forall|x: int, y: int|
                0 <= x < src@.len() && 0 <= y < out@.len() implies !cand_before(
                #[trigger] cand_views(src@)[x],
                #[trigger] cand_views(out@)[y],
            ) by {
                let xx = if x < m {
                    x
                } else {
                    x + 1
                };
                assert(cand_views(src@)[x] == cand_views(pre_src)[xx]);
                if y == out@.len() - 1 {
                    assert(!cand_before(cand_views(pre_src)[xx], cand_views(pre_src)[m as int]));
                } else {
                    assert(cand_views(out@)[y] == cand_views(pre_out)[y]);
                }
            }
            assert forall|i: int, j2: int|
                0 <= i < j2 < cand_views(out@).len() implies !cand_before(
                #[trigger] cand_views(out@)[j2],
                #[trigger] cand_views(out@)[i],
            ) by {
                assert(cand_views(out@)[i] == cand_views(pre_out)[i]);
                if j2 == out@.len() - 1 {
                    assert(cand_views(out@)[j2] == cand_views(pre_src)[m as int]);
                    assert(!cand_before(cand_views(pre_src)[m as int], cand_views(pre_out)[i]));
                } else {
                    assert(cand_views(out@)[j2] == cand_views(pre_out)[j2]);
                }
            }
        }
    }
    proof {
        assert(cand_views(src@).to_multiset() =~= Multiset::<CandV>::empty()) by {
            cand_views(src@).to_multiset_ensures();
        }
        assert(cand_views(out@).to_multiset() =~= orig.to_multiset());
    }
    out
}

/// Sort results by score, best first.
fn sort_results(v: Vec<SearchResult>) -> (r: Vec<SearchResult>)
    ensures
        result_views(r@).to_multiset() == result_views(v@).to_multiset(),
        sorted_by_sim(result_views(r@)),
{
    let ghost orig = result_views(v@);
    let mut src = v;
    let mut out: Vec<SearchResult> = Vec::new();
    proof {
        result_views(out@).to_multiset_ensures();
        assert(result_views(out@).to_multiset().add(result_views(src@).to_multiset())
            =~= result_views(src@).to_multiset());
    }
    while src.len() > 0
        invariant
            result_views(out@).to_multiset().add(result_views(src@).to_multiset())
                == orig.to_multiset(),
            sorted_by_sim(result_views(out@)),
            forall|x: int, y: int|
                0 <= x < src@.len() && 0 <= y < out@.len() ==> (
                #[trigger] result_views(src@)[x]).similarity <= (
                #[trigger] result_views(out@)[y]).similarity,
        decreases src@.len(),
    {
        let mut m: usize = 0;
        let mut j: usize = 1;
        while j < src.len()
            invariant
                src@.len() > 0,
                m < j <= src@.len(),
                forall|k: int|
                    0 <= k < j ==> (#[trigger] result_views(src@)[k]).similarity <= result_views(
                        src@,
                    )[m as int].similarity,
            decreases src@.len() - j,
        {
            if src[j].similarity > src[m].similarity {
                m = j;
            }
            proof {
                assert(result_views(src@)[j as int] == src@[j as int]@);
            }
            j = j + 1;
        }
        let ghost pre_src = src@;
        let ghost pre_out = out@;
        let e = src.remove(m);
        out.push(e);
        proof {
            assert(result_views(pre_src)[m as int] == e@);
            assert(result_views(src@) =~= result_views(pre_src).remove(m as int));
            assert(result_views(out@) =~= result_views(pre_out).push(e@));
            result_views(pre_src).to_multiset_ensures();
            result_views(pre_out).to_multiset_ensures();
            assert(result_views(src@).to_multiset() =~= result_views(pre_src).to_multiset().remove(
                e@,
            ));
            assert(result_views(out@).to_multiset() =~= result_views(pre_out).to_multiset().insert(
                e@,
            ));
            assert(result_views(pre_src).to_multiset().count(e@) > 0) by {
                assert(result_views(pre_src)[m as int] == e@);
                assert(result_views(pre_src).contains(e@));
            }
            assert(result_views(out@).to_multiset().add(result_views(src@).to_multiset())
                =~= orig.to_multiset());
            assert forall|x: int, y: int|
                0 <= x < src@.len() && 0 <= y < out@.len() implies (
            #[trigger] result_views(src@)[x]).similarity <= (
            #[trigger] result_views(out@)[y]).similarity by {
                let xx = if x < m {
                    x
                } else {
                    x + 1
                };
                assert(result_views(src@)[x] == result_views(pre_src)[xx]);
                if y == out@.len() - 1 {
                    assert(result_views(pre_src)[xx].similarity <= result_views(
                        pre_src,
                    )[m as int].similarity);
                } else {
                    assert(result_views(out@)[y] == result_views(pre_out)[y]);
                }
            }
            assert forall|i: int, j2: int|
                0 <= i < j2 < result_views(out@).len() implies (
            #[trigger] result_views(out@)[j2]).similarity <= (
            #[trigger] result_views(out@)[i]).similarity by {
                assert(result_views(out@)[i] == result_views(pre_out)[i]);
                if j2 == out@.len() - 1 {
                    assert(result_views(out@)[j2] == result_views(pre_src)[m as int]);
                } else {
                    assert(result_views(out@)[j2] == result_views(pre_out)[j2]);
                }
            }
        }
    }
    proof {
        assert(result_views(src@).to_multiset() =~= Multiset::<SearchResultV>::empty()) by {
            result_views(src@).to_multiset_ensures();
        }
        assert(result_views(out@).to_multiset() =~= orig.to_multiset());
    }
    out
}

/// The result row built from an entry and its score.
fn result_of_exec(e: &Entry, score: u64) -> (r: SearchResult)
    ensures
        r@ == result_of(e@, score as int),
{
    let r = SearchResult {
        id: e.id,
        entry_type: e.entry_type,
        content: crate::types::clone_bytes(&e.content),
        timestamp: e.timestamp,
        times_run: e.times_run,
        working_dir: crate::types::clone_opt_bytes(&e.working_dir),
        host: crate::types::clone_opt_bytes(&e.host),
        app_name: crate::types::clone_opt_bytes(&e.app_name),
        window_title: crate::types::clone_opt_bytes(&e.window_title),
        similarity: score,
    };
    proof {
        assert(r@ =~= result_of(e@, score as int));
    }
    r
}

/// A field-for-field copy of a result row.
fn duplicate_result(r0: &SearchResult) -> (r: SearchResult)
    ensures
        r@ == r0@,
{
    let r = SearchResult {
        id: r0.id,
        entry_type: r0.entry_type,
        content: crate::types::clone_bytes(&r0.content),
        timestamp: r0.timestamp,
        times_run: r0.times_run,
        working_dir: crate::types::clone_opt_bytes(&r0.working_dir),
        host: crate::types::clone_opt_bytes(&r0.host),
        app_name: crate::types::clone_opt_bytes(&r0.app_name),
        window_title: crate::types::clone_opt_bytes(&r0.window_title),
        similarity: r0.similarity,
    };
    proof {
        assert(r@ =~= r0@);
    }
    r
}

/// Rank candidates: order by (boost, times-run, recency), keep the top
/// [`CANDIDATE_LIMIT`], score each against the query, re-sort by score,
/// deduplicate by content and keep the top [`RESULT_LIMIT`].
#[verifier::rlimit(40)]
fn rank_candidates(cands: Vec<Cand>, query_l: &Vec<u8>, dir: &Vec<u8>) -> (r: Vec<SearchResult>)
    ensures
        exists|full: Seq<CandV>|
            {
                &&& #[trigger] full.to_multiset() == cand_views(cands@).to_multiset()
                &&& sorted_cands(full)
                &&& ranked_results(
                    if full.len() <= CANDIDATE_LIMIT {
                        full
                    } else {
                        full.take(CANDIDATE_LIMIT as int)
                    },
                    query_l@,
                    dir@,
                    result_views(r@),
                )
            },
{
    let mut sorted_c = sort_cands(cands);
    let ghost full = cand_views(sorted_c@);
    sorted_c.truncate(CANDIDATE_LIMIT);
    let ghost capped = if full.len() <= CANDIDATE_LIMIT {
        full
    } else {
        full.take(CANDIDATE_LIMIT as int)
    };
    proof {
        assert(cand_views(sorted_c@) =~= capped);
    }
    let mut scored: Vec<SearchResult> = Vec::new();
    let mut i: usize = 0;
    while i < sorted_c.len()
        invariant
            i <= sorted_c@.len(),
            capped == cand_views(sorted_c@),
            result_views(scored@) == scores_of(capped, query_l@, dir@).take(i as int),
        decreases sorted_c@.len() - i,
    {
        let c = &sorted_c[i];
        let rel = match &c.entry.working_dir {
            Some(w) => calculate_relevance_score(
                c.entry.content.as_slice(),
                query_l.as_slice(),
                w.as_slice(),
                dir.as_slice(),
            ),
            None => {
                let empty: Vec<u8> = Vec::new();
                calculate_relevance_score(
                    c.entry.content.as_slice(),
                    query_l.as_slice(),
                    empty.as_slice(),
                    dir.as_slice(),
                )
            },
        };
        let freq: u64 = if c.entry.times_run > 10 {
            10
        } else {
            c.entry.times_run
        };
        let score = rel + 2000 * freq;
        let row = result_of_exec(&c.entry, score);
        let ghost pre = result_views(scored@);
        scored.push(row);
        proof {
            assert(capped[i as int] == sorted_c@[i as int]@);
            assert(score as int == score_milli(
                c.entry@.content,
                query_l@,
                match c.entry@.working_dir {
                    Some(w) => w,
                    None => Seq::empty(),
                },
                dir@,
                c.entry@.times_run,
            ));
            assert(result_views(scored@) =~= pre.push(row@));
            assert(scores_of(capped, query_l@, dir@).take(i + 1 as int) =~= scores_of(
                capped,
                query_l@,
                dir@,
            ).take(i as int).push(scores_of(capped, query_l@, dir@)[i as int]));
        }
        i = i + 1;
    }
    proof {
        assert(scores_of(capped, query_l@, dir@).take(sorted_c@.len() as int) =~= scores_of(
            capped,
            query_l@,
            dir@,
        ));
    }
    let ranked = sort_results(scored);
    let out = dedup_results(ranked);
    proof {
        assert(ranked_results(capped, query_l@, dir@, result_views(out@)));
    }
    out
}

/// Keep only the first row of each content and cap at [`RESULT_LIMIT`].
fn dedup_results(ranked: Vec<SearchResult>) -> (r: Vec<SearchResult>)
    ensures
        result_views(r@) == (if dedup_by_content(result_views(ranked@)).len() <= RESULT_LIMIT {
            dedup_by_content(result_views(ranked@))
        } else {
            dedup_by_content(result_views(ranked@)).take(RESULT_LIMIT as int)
        }),
{
    let ghost srt = result_views(ranked@);
    let n = ranked.len();
    let mut out: Vec<SearchResult> = Vec::new();
    let mut i2: usize = 0;
    while i2 < n
        invariant
            i2 <= n,
            n == ranked@.len(),
            srt == result_views(ranked@),
            result_views(out@) == dedup_by_content(srt.take(i2 as int)),
        decreases n - i2,
    {
        let mut dup = false;
        let mut j: usize = 0;
        while j < i2
            invariant
                j <= i2 < n,
                n == ranked@.len(),
                srt == result_views(ranked@),
                dup == exists|k: int|
                    0 <= k < j && (#[trigger] srt[k]).content == srt[i2 as int].content,
            decreases i2 - j,
        {
            if crate::text::eq_bytes(
                ranked[j].content.as_slice(),
                ranked[i2].content.as_slice(),
            ) {
                proof {
                    assert(srt[j as int].content == srt[i2 as int].content);
                }
                dup = true;
            }
            j = j + 1;
        }
        proof {
            assert(srt.take(i2 + 1 as int).drop_last() =~= srt.take(i2 as int));
            assert(srt.take(i2 + 1 as int).last() == srt[i2 as int]);
            assert forall|k: int| 0 <= k < i2 implies srt.take(i2 + 1 as int)[k] == srt[k] by {}
        }
        if !dup {
            let row = duplicate_result(&ranked[i2]);
            let ghost pre = result_views(out@);
            out.push(row);
            proof {
                assert(result_views(out@) =~= pre.push(srt[i2 as int]));
                assert(!(exists|k: int|
                    0 <= k < i2 && (#[trigger] srt.take(i2 + 1 as int)[k]).content == srt.take(
                        i2 + 1 as int,
                    ).last().content));
            }
        } else {
            proof {
                let k = choose|k: int|
                    0 <= k < i2 && (#[trigger] srt[k]).content == srt[i2 as int].content;
                assert(srt.take(i2 + 1 as int)[k].content == srt.take(
                    i2 + 1 as int,
                ).last().content);
            }
        }
        i2 = i2 + 1;
    }
    proof {
        assert(srt.take(n as int) =~= srt);
    }
    let ghost deduped = dedup_by_content(srt);
    out.truncate(RESULT_LIMIT);
    proof {
        if deduped.len() <= RESULT_LIMIT {
            assert(result_views(out@) =~= deduped);
        } else {
            assert(result_views(out@) =~= deduped.take(RESULT_LIMIT as int));
        }
    }
    out
}

/// Whether some word of the lower-cased text starts with `q` (token-prefix
/// match, as the lexical full-text index provides).
pub open spec fn token_prefix_match(text: Seq<u8>, q: Seq<u8>) -> bool {
    exists|i: int|
        0 <= i < split_ws(lower_bytes_spec(text)).len() && is_prefix_of(
            q,
            #[trigger] split_ws(lower_bytes_spec(text))[i],
        )
}

/// Token-prefix match against an optional field; an absent field matches
/// nothing.
pub open spec fn opt_token_prefix_match(t: Option<Seq<u8>>, q: Seq<u8>) -> bool {
    match t {
        Some(x) => token_prefix_match(x, q),
        None => false,
    }
}

/// Whether the lexical index matches an entry against the prefix query `q`:
/// on content, app name, window title or working directory.
pub open spec fn fts_entry_match(e: EntryV, q: Seq<u8>) -> bool {
    token_prefix_match(e.content, q) || opt_token_prefix_match(e.app_name, q)
        || opt_token_prefix_match(e.window_title, q) || opt_token_prefix_match(e.working_dir, q)
}

/// Substring match on the lower-cased content, as `LIKE '%q%'` provides.
pub open spec fn like_entry_match(e: EntryV, q: Seq<u8>) -> bool {
    contains_seq(lower_bytes_spec(e.content), q)
}

/// The single-term match: entries of the requested kind, by token prefix
/// when the query has at least three bytes, by substring otherwise (very
/// short queries defeat the prefix index).
pub open spec fn single_term_match(e: EntryV, q: Seq<u8>, kind: EntryType) -> bool {
    e.entry_type == kind && if q.len() >= 3 {
        fts_entry_match(e, q)
    } else {
        like_entry_match(e, q)
    }
}

/// Token-prefix match over a byte text.
fn token_prefix_match_exec(text: &[u8], q: &[u8]) -> (r: bool)
    ensures
        r == token_prefix_match(text@, q@),
{
    let low = lower_bytes(text);
    let words = crate::text::split_ws_bytes(low.as_slice());
    let ghost wv = split_ws(lower_bytes_spec(text@));
    let mut i: usize = 0;
    while i < words.len()
        invariant
            i <= words@.len(),
            words.deep_view() == wv,
            wv == split_ws(lower_bytes_spec(text@)),
            forall|j: int| 0 <= j < i ==> !is_prefix_of(q@, #[trigger] wv[j]),
        decreases words@.len() - i,
    {
        let hit = crate::text::starts_with_bytes(words[i].as_slice(), q);
        proof {
            assert(wv[i as int] =~= words@[i as int]@);
        }
        if hit {
            return true;
        }
        i = i + 1;
    }
    false
}

/// Lexical-index match over an entry.
fn fts_entry_match_exec(e: &Entry, q: &[u8]) -> (r: bool)
    ensures
        r == fts_entry_match(e@, q@),
{
    if token_prefix_match_exec(e.content.as_slice(), q) {
        return true;
    }
    let app = match &e.app_name {
        Some(a) => token_prefix_match_exec(a.as_slice(), q),
        None => false,
    };
    if app {
        return true;
    }
    let title = match &e.window_title {
        Some(t) => token_prefix_match_exec(t.as_slice(), q),
        None => false,
    };
    if title {
        return true;
    }
    match &e.working_dir {
        Some(w) => token_prefix_match_exec(w.as_slice(), q),
        None => false,
    }
}

/// The first-stage boost of the single-term path: an exact working-directory
/// match against a non-empty context directory.
pub open spec fn single_boost(e: EntryV, dir: Seq<u8>) -> u64 {
    if dir.len() > 0 && e.working_dir == Some(dir) {
        15000u64
    } else {
        0u64
    }
}

/// The working-directory boost of the planned path: exact match 15_000, a
/// one-way prefix relation 8_000.
pub open spec fn wd_boost_milli(e: EntryV, dir: Seq<u8>) -> u64 {
    match e.working_dir {
        Some(w) => if w == dir {
            15000u64
        } else if is_prefix_of(dir, w) || is_prefix_of(w, dir) {
            8000u64
        } else {
            0u64
        },
        None => 0u64,
    }
}

/// The temporal boost: 50_000 inside the window [start, end), 25_000 within
/// a day of it, 0 beyond.
pub open spec fn time_boost_milli(ts: u64, start: u64, end: u64) -> u64 {
    if start <= ts < end {
        50000u64
    } else if ts + 86400 >= start && ts < end + 86400 {
        25000u64
    } else {
        0u64
    }
}

/// A zero-width window boosts nothing: with start == end no row receives
/// the in-window boost, so rows from before the window cannot ride on it.
/// (The executor ranks by boost rather than filtering by the window, so a
/// resolved range keeps matching rows visible; this lemma is the part of
/// the today-at-midnight boundary behaviour that holds of that executor.)
pub proof fn lemma_zero_width_window(ts: u64, t: u64)
    ensures
        time_boost_milli(ts, t, t) != 50000,
{
}

/// Resolve a plan's time range against the clock: `today` runs from the
/// local midnight to now, `yesterday` spans the previous local day, the
/// week and month ranges reach back a fixed span from now, and a custom
/// range defaults its open ends to 0 and now.
pub open spec fn resolved_range(
    range: crate::llm::SimpleTimeRange,
    custom_start: Option<u64>,
    custom_end: Option<u64>,
    now: u64,
    local_midnight: u64,
) -> (u64, u64) {
    match range {
        crate::llm::SimpleTimeRange::Today => (local_midnight, now),
        crate::llm::SimpleTimeRange::Yesterday => (sat_sub(local_midnight, 86400), local_midnight),
        crate::llm::SimpleTimeRange::LastWeek => (sat_sub(now, 604800), now),
        crate::llm::SimpleTimeRange::LastMonth => (sat_sub(now, 2592000), now),
        crate::llm::SimpleTimeRange::Custom => (
            match custom_start {
                Some(s) => s,
                None => 0,
            },
            match custom_end {
                Some(e) => e,
                None => now,
            },
        ),
    }
}

/// Subtraction on timestamps, clamped at the epoch.
pub open spec fn sat_sub(a: u64, b: u64) -> u64 {
    if a >= b {
        (a - b) as u64
    } else {
        0
    }
}

/// Resolve a plan's time range (see [`resolved_range`]).
pub fn resolve_time_range(
    range: crate::llm::SimpleTimeRange,
    custom_start: Option<u64>,
    custom_end: Option<u64>,
    now: u64,
    local_midnight: u64,
) -> (r: (u64, u64))
    ensures
        r == resolved_range(range, custom_start, custom_end, now, local_midnight),
{
    match range {
        crate::llm::SimpleTimeRange::Today => (local_midnight, now),
        crate::llm::SimpleTimeRange::Yesterday => {
            let s = if local_midnight >= 86400 {
                local_midnight - 86400
            } else {
                0
            };
            (s, local_midnight)
        },
        crate::llm::SimpleTimeRange::LastWeek => {
            let s = if now >= 604800 {
                now - 604800
            } else {
                0
            };
            (s, now)
        },
        crate::llm::SimpleTimeRange::LastMonth => {
            let s = if now >= 2592000 {
                now - 2592000
            } else {
                0
            };
            (s, now)
        },
        crate::llm::SimpleTimeRange::Custom => {
            let s = match custom_start {
                Some(s) => s,
                None => 0,
            };
            let e = match custom_end {
                Some(e) => e,
                None => now,
            };
            (s, e)
        },
    }
}

/// The temporal boost (see [`time_boost_milli`]).
fn time_boost_exec(ts: u64, start: u64, end: u64) -> (r: u64)
    ensures
        r == time_boost_milli(ts, start, end),
{
    if start <= ts && ts < end {
        50000
    } else if (start <= 86400 || ts >= start - 86400) && (end > u64::MAX - 86400 || ts < end
        + 86400) {
        25000
    } else {
        0
    }
}

/// The candidate filter and boost of the single-term path.
fn collect_single_candidates(store: &Store, q: &Vec<u8>, kind: EntryType, dir: &Vec<u8>) -> (r:
    Vec<Cand>)
    ensures
        cand_views(r@) == store.entries_view().filter(
            |e: EntryV| single_term_match(e, q@, kind),
        ).map_values(|e: EntryV| CandV { entry: e, boost: single_boost(e, dir@) }),
{
    let ghost s = store.entries_view();
    let ghost pred = |e: EntryV| single_term_match(e, q@, kind);
    let n = store.entries.len();
    let mut out: Vec<Cand> = Vec::new();
    let mut i: usize = 0;
    while i < n
        invariant
            i <= n,
            n == store.entries@.len(),
            s == store.entries_view(),
            pred == (|e: EntryV| single_term_match(e, q@, kind)),
            cand_views(out@) == s.take(i as int).filter(pred).map_values(
                |e: EntryV| CandV { entry: e, boost: single_boost(e, dir@) },
            ),
        decreases n - i,
    {
        let e = &store.entries[i];
        proof {
            lemma_filter_step(s, pred, i as int);
            assert(s[i as int] == store.entries@[i as int]@);
        }
        let kind_ok = e.entry_type == kind;
        let use_fts = q.len() >= 3;
        let matched = kind_ok && if use_fts {
            fts_entry_match_exec(e, q.as_slice())
        } else {
            contains_seq_lower_exec(e.content.as_slice(), q.as_slice())
        };
        if matched {
            let boost: u64 = {
                let wd_eq = match &e.working_dir {
                    Some(w) => crate::text::eq_bytes(w.as_slice(), dir.as_slice()),
                    None => false,
                };
                if dir.len() > 0 && wd_eq {
                    15000
                } else {
                    0
                }
            };
            let ghost pre = cand_views(out@);
            let c = Cand { entry: e.duplicate(), boost };
            proof {
                assert(c@ =~= CandV { entry: s[i as int], boost: single_boost(s[i as int], dir@) });
            }
            out.push(c);
            proof {
                assert(cand_views(out@) =~= pre.push(
                    CandV { entry: s[i as int], boost: single_boost(s[i as int], dir@) },
                ));
                assert(s.take(i + 1 as int).filter(pred).map_values(
                    |e2: EntryV| CandV { entry: e2, boost: single_boost(e2, dir@) },
                ) =~= pre.push(
                    CandV { entry: s[i as int], boost: single_boost(s[i as int], dir@) },
                ));
            }
        } else {
            proof {
                assert(s.take(i + 1 as int).filter(pred).map_values(
                    |e2: EntryV| CandV { entry: e2, boost: single_boost(e2, dir@) },
                ) =~= s.take(i as int).filter(pred).map_values(
                    |e2: EntryV| CandV { entry: e2, boost: single_boost(e2, dir@) },
                ));
            }
        }
        i = i + 1;
    }
    proof {
        assert(s.take(n as int) =~= s);
    }
    out
}

/// Substring match on the lower-cased content.
fn contains_seq_lower_exec(content: &[u8], q: &[u8]) -> (r: bool)
    ensures
        r == contains_seq(lower_bytes_spec(content@), q@),
{
    let low = lower_bytes(content);
    crate::text::contains_bytes(low.as_slice(), q)
}

/// Single-term lexical search: entries of the requested kind matching the
/// query (token prefix from three bytes, substring below), boosted by an
/// exact working-directory match, ranked and deduplicated.
pub fn keyword_search(store: &Store, query: &str, entry_type: EntryType, directory: &str) -> (r:
    Vec<SearchResult>)
    ensures
        exists|full: Seq<CandV>|
            {
                let q = lower_bytes_spec(query.spec_bytes());
                let dir = directory.spec_bytes();
                let cands = store.entries_view().filter(
                    |e: EntryV| single_term_match(e, q, entry_type),
                ).map_values(|e: EntryV| CandV { entry: e, boost: single_boost(e, dir) });
                &&& #[trigger] full.to_multiset() == cands.to_multiset()
                &&& sorted_cands(full)
                &&& ranked_results(
                    if full.len() <= CANDIDATE_LIMIT {
                        full
                    } else {
                        full.take(CANDIDATE_LIMIT as int)
                    },
                    q,
                    dir,
                    result_views(r@),
                )
            },
{
    let q = lower_bytes(query.as_bytes());
    let dir = directory.as_bytes_vec();
    let cands = collect_single_candidates(store, &q, entry_type, &dir);
    rank_candidates(cands, &q, &dir)
}

/// Whether an entry matches a plan: the requested kind (when one is set) and
/// at least one plan keyword as a token prefix; a plan without keywords
/// matches every row of the kind.
pub open spec fn plan_match(e: EntryV, kws: Seq<Seq<u8>>, kind: Option<EntryType>) -> bool {
    &&& match kind {
        Some(t) => e.entry_type == t,
        None => true,
    }
    &&& (kws.len() == 0 || exists|k: int|
        0 <= k < kws.len() && fts_entry_match(e, lower_bytes_spec(#[trigger] kws[k])))
}

/// The planned path's first-stage boost: working-directory affinity plus,
/// when the plan carries a time range, the temporal boost for the resolved
/// window.
pub open spec fn plan_boost(e: EntryV, dir: Seq<u8>, window: Option<(u64, u64)>) -> u64 {
    (wd_boost_milli(e, dir) + match window {
        Some(w) => time_boost_milli(e.timestamp, w.0, w.1),
        None => 0u64,
    }) as u64
}

/// Whether at least one plan keyword token-prefix-matches the entry.
fn plan_match_exec(e: &Entry, kws: &Vec<Vec<u8>>, kind: &Option<EntryType>) -> (r: bool)
    ensures
        r == plan_match(e@, kws.deep_view(), *kind),
{
    let kind_ok = match kind {
        Some(t) => e.entry_type == *t,
        None => true,
    };
    if !kind_ok {
        return false;
    }
    if kws.len() == 0 {
        return true;
    }
    let ghost kv = kws.deep_view();
    let mut k: usize = 0;
    while k < kws.len()
        invariant
            k <= kws@.len(),
            kv == kws.deep_view(),
            kv.len() > 0,
            match *kind {
                Some(t) => e@.entry_type == t,
                None => true,
            },
            forall|j: int|
                0 <= j < k ==> !fts_entry_match(e@, lower_bytes_spec(#[trigger] kv[j])),
        decreases kws@.len() - k,
    {
        let low = lower_bytes(kws[k].as_slice());
        let hit = fts_entry_match_exec(e, low.as_slice());
        proof {
            assert(kv[k as int] =~= kws@[k as int]@);
        }
        if hit {
            proof {
                assert(low@ == lower_bytes_spec(kv[k as int]));
                assert(fts_entry_match(e@, lower_bytes_spec(kv[k as int])));
            }
            return true;
        }
        k = k + 1;
    }
    false
}

/// The words joined by single spaces.
pub open spec fn join_space(ws: Seq<Seq<u8>>) -> Seq<u8>
    decreases ws.len(),
{
    if ws.len() == 0 {
        Seq::empty()
    } else if ws.len() == 1 {
        ws[0]
    } else {
        join_space(ws.drop_last()) + str_bytes(" "@) + ws.last()
    }
}

/// Join words with single spaces.
fn join_space_exec(ws: &Vec<Vec<u8>>) -> (r: Vec<u8>)
    ensures
        r@ == join_space(ws.deep_view()),
{
    let ghost wv = ws.deep_view();
    let mut r: Vec<u8> = Vec::new();
    let mut i: usize = 0;
    while i < ws.len()
        invariant
            i <= ws@.len(),
            wv == ws.deep_view(),
            r@ == join_space(wv.take(i as int)),
        decreases ws@.len() - i,
    {
        proof {
            assert(wv[i as int] =~= ws@[i as int]@);
            assert(wv.take(i + 1 as int).drop_last() =~= wv.take(i as int));
            assert(wv.take(i + 1 as int).last() == wv[i as int]);
        }
        if i > 0 {
            let mut sp = " ".as_bytes_vec();
            r.append(&mut sp);
        }
        let mut w = crate::types::clone_bytes(&ws[i]);
        r.append(&mut w);
        proof {
            if i == 0 {
                assert(r@ =~= join_space(wv.take(1)));
            } else {
                assert(r@ =~= join_space(wv.take(i as int)) + str_bytes(" "@) + wv[i as int]);
            }
        }
        i = i + 1;
    }
    proof {
        assert(wv.take(wv.len() as int) =~= wv);
    }
    r
}

/// The candidate filter and boost of the planned path.
fn collect_plan_candidates(
    store: &Store,
    kws: &Vec<Vec<u8>>,
    kind: &Option<EntryType>,
    dir: &Vec<u8>,
    window: Option<(u64, u64)>,
) -> (r: Vec<Cand>)
    ensures
        cand_views(r@) == store.entries_view().filter(
            |e: EntryV| plan_match(e, kws.deep_view(), *kind),
        ).map_values(|e: EntryV| CandV { entry: e, boost: plan_boost(e, dir@, window) }),
{
    let ghost s = store.entries_view();
    let ghost pred = |e: EntryV| plan_match(e, kws.deep_view(), *kind);
    let n = store.entries.len();
    let mut out: Vec<Cand> = Vec::new();
    let mut i: usize = 0;
    while i < n
        invariant
            i <= n,
            n == store.entries@.len(),
            s == store.entries_view(),
            pred == (|e: EntryV| plan_match(e, kws.deep_view(), *kind)),
            cand_views(out@) == s.take(i as int).filter(pred).map_values(
                |e: EntryV| CandV { entry: e, boost: plan_boost(e, dir@, window) },
            ),
        decreases n - i,
    {
        let e = &store.entries[i];
        proof {
            lemma_filter_step(s, pred, i as int);
            assert(s[i as int] == store.entries@[i as int]@);
        }
        if plan_match_exec(e, kws, kind) {
            let wd_boost: u64 = match &e.working_dir {
                Some(w) => {
                    if crate::text::eq_bytes(w.as_slice(), dir.as_slice()) {
                        15000
                    } else if crate::text::starts_with_bytes(w.as_slice(), dir.as_slice())
                        || crate::text::starts_with_bytes(dir.as_slice(), w.as_slice()) {
                        8000
                    } else {
                        0
                    }
                },
                None => 0,
            };
            let t_boost: u64 = match window {
                Some(w) => time_boost_exec(e.timestamp, w.0, w.1),
                None => 0,
            };
            let boost = wd_boost + t_boost;
            let ghost pre = cand_views(out@);
            let c = Cand { entry: e.duplicate(), boost };
            proof {
                assert(c@ =~= CandV { entry: s[i as int], boost: plan_boost(s[i as int], dir@, window) });
            }
            out.push(c);
            proof {
                assert(cand_views(out@) =~= pre.push(
                    CandV { entry: s[i as int], boost: plan_boost(s[i as int], dir@, window) },
                ));
                assert(s.take(i + 1 as int).filter(pred).map_values(
                    |e2: EntryV| CandV { entry: e2, boost: plan_boost(e2, dir@, window) },
                ) =~= pre.push(
                    CandV { entry: s[i as int], boost: plan_boost(s[i as int], dir@, window) },
                ));
            }
        } else {
            proof {
                assert(s.take(i + 1 as int).filter(pred).map_values(
                    |e2: EntryV| CandV { entry: e2, boost: plan_boost(e2, dir@, window) },
                ) =~= s.take(i as int).filter(pred).map_values(
                    |e2: EntryV| CandV { entry: e2, boost: plan_boost(e2, dir@, window) },
                ));
            }
        }
        i = i + 1;
    }
    proof {
        assert(s.take(n as int) =~= s);
    }
    out
}

/// Planned lexical search: entries matching the plan's keywords and kind,
/// boosted by working-directory affinity and the plan's time window
/// (resolved against the clock), ranked against the joined keywords and
/// deduplicated.
pub fn keyword_search_with_params(
    store: &Store,
    params: &crate::llm::LLMQueryParams,
    directory: &str,
    now: u64,
    local_midnight: u64,
) -> (r: Vec<SearchResult>)
    ensures
        exists|full: Seq<CandV>|
            {
                let dir = directory.spec_bytes();
                let window = match params.time_range {
                    Some(tr) => Some(
                        resolved_range(
                            tr,
                            params.custom_start,
                            params.custom_end,
                            now,
                            local_midnight,
                        ),
                    ),
                    None => None,
                };
                let q = lower_bytes_spec(join_space(params.keywords.deep_view()));
                let cands = store.entries_view().filter(
                    |e: EntryV| plan_match(e, params.keywords.deep_view(), params.entry_types),
                ).map_values(|e: EntryV| CandV { entry: e, boost: plan_boost(e, dir, window) });
                &&& #[trigger] full.to_multiset() == cands.to_multiset()
                &&& sorted_cands(full)
                &&& ranked_results(
                    if full.len() <= CANDIDATE_LIMIT {
                        full
                    } else {
                        full.take(CANDIDATE_LIMIT as int)
                    },
                    q,
                    dir,
                    result_views(r@),
                )
            },
{
    let dir = directory.as_bytes_vec();
    let window: Option<(u64, u64)> = match params.time_range {
        Some(tr) => Some(
            resolve_time_range(tr, params.custom_start, params.custom_end, now, local_midnight),
        ),
        None => None,
    };
    let cands = collect_plan_candidates(store, &params.keywords, &params.entry_types, &dir, window);
    let joined = join_space_exec(&params.keywords);
    let q = lower_bytes(joined.as_slice());
    rank_candidates(cands, &q, &dir)
}

/// How many embedded entries are more recent than `e`: the dense fallback
/// only scans the [`DENSE_SCAN_LIMIT`] most recent entries with embeddings.
pub open spec fn dense_rank(full: Seq<EntryV>, e: EntryV) -> int {
    full.filter(|x: EntryV| x.embedding is Some && crate::store::entry_newer(x, e)).len() as int
}

/// The dense rows: entries among the [`DENSE_SCAN_LIMIT`] most recent ones
/// carrying an embedding, whose cosine similarity to the query embedding
/// exceeds the threshold, scored by that similarity.
pub open spec fn semantic_rows(
    full: Seq<EntryV>,
    es: Seq<EntryV>,
    sims: Seq<u64>,
    threshold: u64,
) -> Seq<SearchResultV>
    decreases es.len(),
{
    if es.len() == 0 {
        Seq::empty()
    } else {
        semantic_rows(full, es.drop_last(), sims.drop_last(), threshold) + if es.last().embedding
            is Some && sims.last() > threshold && dense_rank(full, es.last())
            < DENSE_SCAN_LIMIT {
            seq![result_of(es.last(), sims.last() as int)]
        } else {
            Seq::empty()
        }
    }
}

/// Every row the dense filter emits scores strictly above the threshold:
/// with [`lemma_dedup_sorted`] and [`lemma_dedup_no_repeats`], what
/// [`semantic_search`] returns is above-threshold, sorted by similarity and
/// free of repeated contents.
pub proof fn lemma_semantic_rows_above_threshold(
    full: Seq<EntryV>,
    es: Seq<EntryV>,
    sims: Seq<u64>,
    threshold: u64,
)
    ensures
        forall|i: int|
            0 <= i < semantic_rows(full, es, sims, threshold).len() ==> (
            #[trigger] semantic_rows(full, es, sims, threshold)[i]).similarity > threshold,
    decreases es.len(),
{
    if es.len() > 0 {
        lemma_semantic_rows_above_threshold(full, es.drop_last(), sims.drop_last(), threshold);
        let r = semantic_rows(full, es, sims, threshold);
        let pre = semantic_rows(full, es.drop_last(), sims.drop_last(), threshold);
        assert forall|i: int| 0 <= i < r.len() implies (#[trigger] r[i]).similarity > threshold by {
            if i < pre.len() {
                assert(r[i] == pre[i]);
            } else {
                assert(r[i] == result_of(es.last(), sims.last() as int));
            }
        }
    }
}

/// Dense search: among the [`DENSE_SCAN_LIMIT`] most recent entries with an
/// embedding, keep those whose similarity (scaled by 1000, computed outside
/// against the query embedding) exceeds the threshold, order by similarity,
/// deduplicate by content and cap at [`RESULT_LIMIT`]. `sims_milli[i]` must
/// score entry `i`.
pub fn semantic_search(store: &Store, sims_milli: &Vec<u64>, threshold_milli: u64) -> (r: Vec<
    SearchResult,
>)
    requires
        sims_milli@.len() == store.entries@.len(),
    ensures
        exists|sorted: Seq<SearchResultV>|
            {
                &&& #[trigger] sorted.to_multiset() == semantic_rows(
                    store.entries_view(),
                    store.entries_view(),
                    sims_milli@,
                    threshold_milli,
                ).to_multiset()
                &&& sorted_by_sim(sorted)
                &&& result_views(r@) == (if dedup_by_content(sorted).len() <= RESULT_LIMIT {
                    dedup_by_content(sorted)
                } else {
                    dedup_by_content(sorted).take(RESULT_LIMIT as int)
                })
            },
{
    let ghost s = store.entries_view();
    let n = store.entries.len();
    let mut rows: Vec<SearchResult> = Vec::new();
    let mut i: usize = 0;
    while i < n
        invariant
            i <= n,
            n == store.entries@.len(),
            sims_milli@.len() == n,
            s == store.entries_view(),
            result_views(rows@) == semantic_rows(
                s,
                s.take(i as int),
                sims_milli@.take(i as int),
                threshold_milli,
            ),
        decreases n - i,
    {
        let e = &store.entries[i];
        proof {
            assert(s.take(i + 1 as int).drop_last() =~= s.take(i as int));
            assert(sims_milli@.take(i + 1 as int).drop_last() =~= sims_milli@.take(i as int));
            assert(s.take(i + 1 as int).last() == s[i as int]);
            assert(s[i as int] == store.entries@[i as int]@);
        }
        let has_emb = match &e.embedding {
            Some(_) => true,
            None => false,
        };
        let mut included = false;
        if has_emb && sims_milli[i] > threshold_milli {
            // Rank by recency among embedded entries: beyond the scan limit
            // the fallback never reads the row.
            let ghost newer = |x: EntryV| x.embedding is Some && crate::store::entry_newer(
                x,
                s[i as int],
            );
            let mut cnt: usize = 0;
            let mut j: usize = 0;
            while j < n
                invariant
                    j <= n,
                    i < n,
                    n == store.entries@.len(),
                    s == store.entries_view(),
                    e@ == s[i as int],
                    newer == (|x: EntryV| x.embedding is Some && crate::store::entry_newer(
                        x,
                        s[i as int],
                    )),
                    cnt as int == s.take(j as int).filter(newer).len(),
                    cnt <= j,
                decreases n - j,
            {
                proof {
                    lemma_filter_step(s, newer, j as int);
                    assert(s[j as int] == store.entries@[j as int]@);
                }
                let other = &store.entries[j];
                let other_emb = match &other.embedding {
                    Some(_) => true,
                    None => false,
                };
                if other_emb && crate::store::entry_newer_exec(other, e) {
                    cnt = cnt + 1;
                }
                j = j + 1;
            }
            proof {
                assert(s.take(n as int) =~= s);
                assert(cnt as int == dense_rank(s, s[i as int]));
            }
            if cnt < DENSE_SCAN_LIMIT {
                included = true;
                let row = result_of_exec(e, sims_milli[i]);
                let ghost pre = result_views(rows@);
                rows.push(row);
                proof {
                    assert(result_views(rows@) =~= pre.push(
                        result_of(s[i as int], sims_milli@[i as int] as int),
                    ));
                    assert(semantic_rows(
                        s,
                        s.take(i + 1 as int),
                        sims_milli@.take(i + 1 as int),
                        threshold_milli,
                    ) =~= pre.push(result_of(s[i as int], sims_milli@[i as int] as int)));
                }
            }
        }
        if !included {
            proof {
                assert(semantic_rows(
                    s,
                    s.take(i + 1 as int),
                    sims_milli@.take(i + 1 as int),
                    threshold_milli,
                ) =~= semantic_rows(
                    s,
                    s.take(i as int),
                    sims_milli@.take(i as int),
                    threshold_milli,
                ));
            }
        }
        i = i + 1;
    }
    proof {
        assert(s.take(n as int) =~= s);
        assert(sims_milli@.take(n as int) =~= sims_milli@);
    }
    let ranked = sort_results(rows);
    dedup_results(ranked)
}

/// Whether a byte counts as a word character (see [`is_word_byte`]).
fn is_word_byte_exec(b: u8) -> (r: bool)
    ensures
        r == is_word_byte(b),
{
    (48 <= b && b <= 57) || (65 <= b && b <= 90) || (97 <= b && b <= 122) || b >= 128
}

/// Whether `s` holds the byte `b`.
fn contains_byte(s: &[u8], b: u8) -> (r: bool)
    ensures
        r == s@.contains(b),
{
    let mut i: usize = 0;
    while i < s.len()
        invariant
            i <= s@.len(),
            forall|j: int| 0 <= j < i ==> s@[j] != b,
        decreases s@.len() - i,
    {
        if s[i] == b {
            return true;
        }
        i = i + 1;
    }
    proof {
        if s@.contains(b) {
            let j = choose|j: int| 0 <= j < s@.len() && s@[j] == b;
            assert(false);
        }
    }
    false
}

} // verus!
