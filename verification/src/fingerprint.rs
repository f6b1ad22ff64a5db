//! Query fingerprints: a coarse structural summary of a query — its keyword
//! set, its temporal bucket and its embedding — and the similarity measure
//! the cache scores lookups with.
//!
//! Scores are integers scaled by 1000: a similarity of 1.0 is 1000. The
//! embedding cosine, a floating-point quantity computed outside the verified
//! core, enters as an argument already scaled to 0..=1000; the weighting
//! (cosine 60%, keyword overlap 30%, temporal bucket 10%) is verified here.
use vstd::prelude::*;

use vstd::string::{StrSliceExecFns, StringSliceAdditionalSpecFns};

use crate::text::{
    contains_bytes, contains_seq, eq_bytes, is_stop_word, is_stop_word_exec,
    lower_bytes, lower_bytes_spec, split_ws, split_ws_bytes, str_bytes,
};

verus! {

/// The temporal bucket a query mentions.
#[derive(Debug, Clone, Copy, PartialEq, Eq, Structural)]
pub enum Temporal {
    Today,
    Yesterday,
    LastWeek,
    LastMonth,
    Relative { days_ago: i64 },
}

/// The temporal bucket of a (lower-cased) query.
pub open spec fn extract_temporal_spec(q: Seq<u8>) -> Option<Temporal> {
    if contains_seq(q, str_bytes("yesterday"@)) {
        Some(Temporal::Yesterday)
    } else if contains_seq(q, str_bytes("today"@)) {
        Some(Temporal::Today)
    } else if contains_seq(q, str_bytes("last week"@)) {
        Some(Temporal::LastWeek)
    } else if contains_seq(q, str_bytes("last month"@)) {
        Some(Temporal::LastMonth)
    } else {
        None
    }
}

/// Recognize the temporal literals in a lower-cased query.
pub fn extract_temporal(query: &str) -> (r: Option<Temporal>)
    ensures
        r == extract_temporal_spec(query.spec_bytes()),
{
    let q = query.as_bytes();
    if contains_bytes(q, "yesterday".as_bytes()) {
        Some(Temporal::Yesterday)
    } else if contains_bytes(q, "today".as_bytes()) {
        Some(Temporal::Today)
    } else if contains_bytes(q, "last week".as_bytes()) {
        Some(Temporal::LastWeek)
    } else if contains_bytes(q, "last month".as_bytes()) {
        Some(Temporal::LastMonth)
    } else {
        None
    }
}

/// Whether `w` is a keyword of the (lower-cased) query `q`: one of its
/// words, longer than two bytes and not a stop-word.
pub open spec fn is_keyword_of(w: Seq<u8>, q: Seq<u8>) -> bool {
    split_ws(q).contains(w) && w.len() > 2 && !is_stop_word(w)
}

/// No two elements are equal.
pub open spec fn no_dup_words(ws: Seq<Seq<u8>>) -> bool {
    forall|i: int, j: int| 0 <= i < j < ws.len() ==> ws[i] != ws[j]
}

/// Whether `ws` holds exactly the keywords of `q`, each once.
pub open spec fn is_keyword_list(ws: Seq<Seq<u8>>, q: Seq<u8>) -> bool {
    &&& no_dup_words(ws)
    &&& forall|w: Seq<u8>| #[trigger] ws.contains(w) <==> is_keyword_of(w, q)
}

/// Whether the word list holds `w`.
fn contains_word(ws: &Vec<Vec<u8>>, w: &[u8]) -> (r: bool)
    ensures
        r == ws.deep_view().contains(w@),
{
    let mut i: usize = 0;
    while i < ws.len()
        invariant
            i <= ws@.len(),
            forall|j: int| 0 <= j < i ==> ws.deep_view()[j] != w@,
        decreases ws@.len() - i,
    {
        let same = eq_bytes(ws[i].as_slice(), w);
        proof {
            assert(ws.deep_view()[i as int] =~= ws@[i as int]@);
        }
        if same {
            proof {
                assert(ws.deep_view()[i as int] == w@);
            }
            return true;
        }
        i = i + 1;
    }
    proof {
        if ws.deep_view().contains(w@) {
            let j = choose|j: int| 0 <= j < ws.deep_view().len() && ws.deep_view()[j] == w@;
            assert(false);
        }
    }
    false
}

/// The keywords of a lower-cased query: its words longer than two bytes that
/// are not stop-words, deduplicated.
pub fn extract_keywords(query: &str) -> (r: Vec<Vec<u8>>)
    ensures
        is_keyword_list(r.deep_view(), query.spec_bytes()),
{
    let q = query.as_bytes_vec();
    extract_keywords_bytes(&q)
}

/// A structural summary of one query: lower-cased text, keyword set,
/// temporal bucket, embedding (as component bit patterns).
#[derive(Debug, Clone)]
pub struct QueryFingerprint {
    pub query: Vec<u8>,
    pub keywords: Vec<Vec<u8>>,
    pub temporal: Option<Temporal>,
    pub embedding: Vec<u32>,
}

impl QueryFingerprint {
    /// The fingerprint's fields agree with its query text.
    pub open spec fn wf(self) -> bool {
        &&& is_keyword_list(self.keywords.deep_view(), self.query@)
        &&& self.temporal == extract_temporal_spec(self.query@)
    }

    /// Build the fingerprint of a query: lower-case it, extract keywords and
    /// the temporal bucket, and attach the embedding.
    pub fn new(query: &str, embedding: Vec<u32>) -> (r: QueryFingerprint)
        ensures
            r.wf(),
            r.query@ == lower_bytes_spec(query.spec_bytes()),
            r.embedding == embedding,
    {
        let lowered = lower_bytes(query.as_bytes());
        let keywords = extract_keywords_bytes(&lowered);
        let temporal = extract_temporal_bytes(lowered.as_slice());
        QueryFingerprint { query: lowered, keywords, temporal, embedding }
    }
}

/// Number of words of `a` that also occur in `b` (`a` holds no duplicates).
pub open spec fn inter_count(a: Seq<Seq<u8>>, b: Seq<Seq<u8>>) -> int {
    a.filter(|w: Seq<u8>| b.contains(w)).len() as int
}

/// Size of the union of the word sets (`a` and `b` hold no duplicates).
pub open spec fn union_count(a: Seq<Seq<u8>>, b: Seq<Seq<u8>>) -> int {
    a.len() + b.filter(|w: Seq<u8>| !a.contains(w)).len() as int
}

/// Jaccard overlap of two duplicate-free word lists, scaled by 1000; two
/// empty sets count as fully overlapping.
pub open spec fn jaccard_milli(a: Seq<Seq<u8>>, b: Seq<Seq<u8>>) -> int {
    if a.len() == 0 && b.len() == 0 {
        1000
    } else {
        1000 * inter_count(a, b) / union_count(a, b)
    }
}

/// The fingerprint similarity score, scaled by 1000: 60% embedding cosine,
/// 30% keyword overlap, 10% for an equal temporal bucket.
pub open spec fn similarity_milli(
    a: Seq<Seq<u8>>,
    b: Seq<Seq<u8>>,
    ta: Option<Temporal>,
    tb: Option<Temporal>,
    cosine_milli: int,
) -> int {
    (cosine_milli * 600) / 1000 + (jaccard_milli(a, b) * 300) / 1000 + if ta == tb {
        100int
    } else {
        0int
    }
}

/// A zero cosine contribution (as a zero-norm embedding on either side
/// produces) adds exactly nothing: the score is the keyword and temporal
/// parts alone. All quantities are integers, so no value is ever undefined.
pub proof fn lemma_similarity_zero_cosine(
    a: Seq<Seq<u8>>,
    b: Seq<Seq<u8>>,
    ta: Option<Temporal>,
    tb: Option<Temporal>,
)
    ensures
        similarity_milli(a, b, ta, tb, 0) == (jaccard_milli(a, b) * 300) / 1000 + if ta == tb {
            100int
        } else {
            0int
        },
{
}

/// Jaccard overlap never exceeds 1000 and is never negative.
pub proof fn lemma_jaccard_bounds(a: Seq<Seq<u8>>, b: Seq<Seq<u8>>)
    ensures
        0 <= jaccard_milli(a, b) <= 1000,
{
    if !(a.len() == 0 && b.len() == 0) {
        a.lemma_filter_len(|w: Seq<u8>| b.contains(w));
        assert(inter_count(a, b) <= a.len());
        assert(union_count(a, b) >= a.len());
        if a.len() == 0 {
            assert forall|i: int| 0 <= i < b.len() implies (|w: Seq<u8>| !a.contains(w))(
                #[trigger] b[i],
            ) by {
                if a.contains(b[i]) {
                    let k = choose|k: int| 0 <= k < a.len() && a[k] == b[i];
                    assert(false);
                }
            }
            crate::seqx::lemma_filter_all(b, |w: Seq<u8>| !a.contains(w));
            assert(union_count(a, b) == b.len());
        }
        assert(union_count(a, b) >= 1);
        vstd::arithmetic::div_mod::lemma_div_is_ordered(
            1000 * inter_count(a, b),
            1000 * union_count(a, b),
            union_count(a, b),
        );
        vstd::arithmetic::div_mod::lemma_div_by_multiple(1000, union_count(a, b));
        vstd::arithmetic::div_mod::lemma_div_pos_is_pos(1000 * inter_count(a, b), union_count(a, b));
        assert(1000 * inter_count(a, b) <= 1000 * union_count(a, b))
            by (nonlinear_arith)
            requires inter_count(a, b) <= union_count(a, b),
        ;
    }
}

impl QueryFingerprint {
    /// Score this fingerprint against another, given the cosine similarity
    /// of their embeddings scaled to 0..=1000. The result lies in 0..=1000.
    pub fn similarity(&self, other: &QueryFingerprint, cosine_milli: u64) -> (r: u64)
        requires
            cosine_milli <= 1000,
            no_dup_words(self.keywords.deep_view()),
            no_dup_words(other.keywords.deep_view()),
        ensures
            r as int == similarity_milli(
                self.keywords.deep_view(),
                other.keywords.deep_view(),
                self.temporal,
                other.temporal,
                cosine_milli as int,
            ),
            r <= 1000,
    {
        let ghost a = self.keywords.deep_view();
        let ghost b = other.keywords.deep_view();
        let jac = jaccard_words(&self.keywords, &other.keywords);
        proof {
            lemma_jaccard_bounds(a, b);
        }
        let temporal_bonus: u64 = if temporal_eq(&self.temporal, &other.temporal) {
            100
        } else {
            0
        };
        let r = (cosine_milli * 600) / 1000 + (jac * 300) / 1000 + temporal_bonus;
        r
    }
}

/// Whether two temporal buckets are equal.
fn temporal_eq(a: &Option<Temporal>, b: &Option<Temporal>) -> (r: bool)
    ensures
        r == (a == b),
{
    match (a, b) {
        (None, None) => true,
        (Some(x), Some(y)) => match (x, y) {
            (Temporal::Today, Temporal::Today) => true,
            (Temporal::Yesterday, Temporal::Yesterday) => true,
            (Temporal::LastWeek, Temporal::LastWeek) => true,
            (Temporal::LastMonth, Temporal::LastMonth) => true,
            (Temporal::Relative { days_ago: d1 }, Temporal::Relative { days_ago: d2 }) => d1 == d2,
            _ => false,
        },
        _ => false,
    }
}

/// Jaccard overlap of two duplicate-free keyword lists, scaled by 1000.
pub fn jaccard_words(ka: &Vec<Vec<u8>>, kb: &Vec<Vec<u8>>) -> (r: u64)
    requires
        no_dup_words(ka.deep_view()),
        no_dup_words(kb.deep_view()),
    ensures
        r as int == jaccard_milli(ka.deep_view(), kb.deep_view()),
        r <= 1000,
{
    let ghost a = ka.deep_view();
    let ghost b = kb.deep_view();
    proof {
        lemma_jaccard_bounds(a, b);
    }
    if ka.len() == 0 && kb.len() == 0 {
        return 1000;
    }
    let ghost inter_pred = |w: Seq<u8>| b.contains(w);
    let mut inter: usize = 0;
    let mut i: usize = 0;
    while i < ka.len()
        invariant
            i <= ka@.len(),
            a == ka.deep_view(),
            b == kb.deep_view(),
            inter_pred == (|w: Seq<u8>| b.contains(w)),
            inter as int == a.take(i as int).filter(inter_pred).len(),
            inter <= i,
        decreases ka@.len() - i,
    {
        proof {
            crate::seqx::lemma_filter_step(a, inter_pred, i as int);
            assert(a[i as int] =~= ka@[i as int]@);
        }
        if contains_word(kb, ka[i].as_slice()) {
            inter = inter + 1;
        }
        i = i + 1;
    }
    proof {
        assert(a.take(a.len() as int) =~= a);
    }
    let ghost union_pred = |w: Seq<u8>| !a.contains(w);
    let mut extra: usize = 0;
    let mut j: usize = 0;
    while j < kb.len()
        invariant
            j <= kb@.len(),
            a == ka.deep_view(),
            b == kb.deep_view(),
            union_pred == (|w: Seq<u8>| !a.contains(w)),
            extra as int == b.take(j as int).filter(union_pred).len(),
            extra <= j,
        decreases kb@.len() - j,
    {
        proof {
            crate::seqx::lemma_filter_step(b, union_pred, j as int);
            assert(b[j as int] =~= kb@[j as int]@);
        }
        if !contains_word(ka, kb[j].as_slice()) {
            extra = extra + 1;
        }
        j = j + 1;
    }
    proof {
        assert(b.take(b.len() as int) =~= b);
    }
    let inter_w: u128 = inter as u128;
    let union_w: u128 = ka.len() as u128 + extra as u128;
    proof {
        assert(union_w as int == union_count(a, b));
        if a.len() == 0 {
            assert forall|i: int| 0 <= i < b.len() implies (|w: Seq<u8>| !a.contains(w))(
                #[trigger] b[i],
            ) by {
                if a.contains(b[i]) {
                    let k = choose|k: int| 0 <= k < a.len() && a[k] == b[i];
                    assert(false);
                }
            }
            crate::seqx::lemma_filter_all(b, |w: Seq<u8>| !a.contains(w));
            assert(b.len() > 0);
        }
        assert(union_w >= 1);
    }
    let q: u128 = (1000 * inter_w) / union_w;
    proof {
        assert(q as int == jaccard_milli(a, b));
    }
    q as u64
}

/// Keyword extraction over a byte string (see [`extract_keywords`]).
fn extract_keywords_bytes(q: &Vec<u8>) -> (r: Vec<Vec<u8>>)
    ensures
        is_keyword_list(r.deep_view(), q@),
{
    let words = split_ws_bytes(q.as_slice());
    let mut r: Vec<Vec<u8>> = Vec::new();
    let mut i: usize = 0;
    while i < words.len()
        invariant
            i <= words@.len(),
            words.deep_view() == split_ws(q@),
            no_dup_words(r.deep_view()),
            forall|w: Seq<u8>| #[trigger] r.deep_view().contains(w) ==> is_keyword_of(w, q@),
            forall|j: int|
                0 <= j < i && is_keyword_of(#[trigger] words.deep_view()[j], q@)
                    ==> r.deep_view().contains(words.deep_view()[j]),
        decreases words@.len() - i,
    {
        let w = &words[i];
        proof {
            assert(words.deep_view()[i as int] =~= words@[i as int].deep_view());
            assert(words.deep_view()[i as int] == w@);
        }
        if w.len() > 2 && !is_stop_word_exec(w.as_slice()) && !contains_word(&r, w.as_slice()) {
            let ghost pre = r.deep_view();
            let wc = crate::types::clone_bytes(w);
            r.push(wc);
            proof {
                assert(r.deep_view() =~= pre.push(w@));
                assert(words.deep_view().contains(w@)) by {
                    assert(words.deep_view()[i as int] == w@);
                }
                assert forall|x: Seq<u8>| pre.contains(x) implies r.deep_view().contains(x) by {
                    let k = choose|k: int| 0 <= k < pre.len() && pre[k] == x;
                    assert(r.deep_view()[k] == x);
                }
                assert(r.deep_view().contains(w@)) by {
                    assert(r.deep_view()[pre.len() as int] == w@);
                }
                assert forall|x: Seq<u8>| #[trigger] r.deep_view().contains(x) implies
                    is_keyword_of(x, q@) by {
                    let k = choose|k: int|
                        0 <= k < r.deep_view().len() && r.deep_view()[k] == x;
                    if k < pre.len() {
                        assert(pre.contains(x));
                    }
                }
                assert forall|x: int, y: int|
                    0 <= x < y < r.deep_view().len() implies r.deep_view()[x] != r.deep_view()[y]
                by {
                    if y == r.deep_view().len() - 1 {
                        assert(r.deep_view()[x] == pre[x]);
                        if r.deep_view()[x] == w@ {
                            assert(pre.contains(w@));
                            assert(false);
                        }
                    } else {
                        assert(r.deep_view()[x] == pre[x] && r.deep_view()[y] == pre[y]);
                    }
                }
            }
        }
        i = i + 1;
    }
    proof {
        assert forall|w: Seq<u8>| is_keyword_of(w, q@) implies #[trigger] r.deep_view().contains(w) by {
            let j = choose|j: int| 0 <= j < split_ws(q@).len() && split_ws(q@)[j] == w;
            assert(words.deep_view()[j] == w);
        }
    }
    r
}

/// Temporal extraction over a byte string (see [`extract_temporal`]).
fn extract_temporal_bytes(q: &[u8]) -> (r: Option<Temporal>)
    ensures
        r == extract_temporal_spec(q@),
{
    if contains_bytes(q, "yesterday".as_bytes()) {
        Some(Temporal::Yesterday)
    } else if contains_bytes(q, "today".as_bytes()) {
        Some(Temporal::Today)
    } else if contains_bytes(q, "last week".as_bytes()) {
        Some(Temporal::LastWeek)
    } else if contains_bytes(q, "last month".as_bytes()) {
        Some(Temporal::LastMonth)
    } else {
        None
    }
}

} // verus!
