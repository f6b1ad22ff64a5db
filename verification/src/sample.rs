//! Exemplar selection for model prompting: the diversity filter that rejects
//! candidates overlapping too strongly with already chosen samples.
use vstd::prelude::*;

use crate::fingerprint::{jaccard_milli, no_dup_words};
use crate::text::{eq_bytes, split_ws, split_ws_bytes};

verus! {

/// Word overlap above which a candidate is considered redundant (scaled by
/// 1000: 700 is 70%).
pub const DIVERSITY_CUTOFF_MILLI: u64 = 700;

/// How a sample set is chosen for the model prompt.
#[derive(Debug, Clone, Copy, PartialEq, Eq, Structural)]
pub enum SampleStrategy {
    Similarity,
    Balanced,
    Diverse,
    Adaptive,
}

/// One exemplar command with its ranking inputs (scores scaled by 1000).
#[derive(Debug, Clone)]
pub struct Sample {
    pub command: Vec<u8>,
    pub context: Vec<u8>,
    pub quality_milli: u64,
    pub similarity_milli: u64,
}

/// The mathematical value of a sample.
#[verifier::ext_equal]
pub ghost struct SampleV {
    pub command: Seq<u8>,
    pub context: Seq<u8>,
    pub quality_milli: u64,
    pub similarity_milli: u64,
}

impl View for Sample {
    type V = SampleV;

    open spec fn view(&self) -> SampleV {
        SampleV {
            command: self.command@,
            context: self.context@,
            quality_milli: self.quality_milli,
            similarity_milli: self.similarity_milli,
        }
    }
}

/// The views of a sequence of samples.
pub open spec fn sample_views(s: Seq<Sample>) -> Seq<SampleV> {
    s.map_values(|x: Sample| x@)
}

/// The words of a command, first occurrences only.
pub open spec fn dedup_words(ws: Seq<Seq<u8>>) -> Seq<Seq<u8>>
    decreases ws.len(),
{
    if ws.len() == 0 {
        ws
    } else {
        let prefix = dedup_words(ws.drop_last());
        if exists|j: int| 0 <= j < ws.len() - 1 && #[trigger] ws[j] == ws.last() {
            prefix
        } else {
            prefix.push(ws.last())
        }
    }
}

/// The Jaccard overlap of the word sets of two commands, scaled by 1000.
pub open spec fn word_overlap_milli(a: Seq<u8>, b: Seq<u8>) -> int {
    jaccard_milli(dedup_words(split_ws(a)), dedup_words(split_ws(b)))
}

/// A candidate is diverse against the chosen set when its word overlap with
/// every chosen command stays below the cutoff.
pub open spec fn diverse_against(chosen: Seq<SampleV>, cand: Seq<u8>) -> bool {
    forall|i: int|
        0 <= i < chosen.len() ==> word_overlap_milli(cand, (#[trigger] chosen[i]).command)
            < DIVERSITY_CUTOFF_MILLI
}

/// The greedy diverse selection: walk the (pre-ranked) candidates in order,
/// keeping each one that is diverse against what is already chosen, until
/// `k` samples are held.
pub open spec fn select_diverse_from(cands: Seq<SampleV>, chosen: Seq<SampleV>, k: nat) -> Seq<
    SampleV,
>
    decreases cands.len(),
{
    if chosen.len() >= k || cands.len() == 0 {
        chosen
    } else if diverse_against(chosen, cands[0].command) {
        select_diverse_from(cands.skip(1), chosen.push(cands[0]), k)
    } else {
        select_diverse_from(cands.skip(1), chosen, k)
    }
}

/// The exemplar selector.
pub struct SampleSelector {}

impl SampleSelector {
    /// A fresh selector.
    pub fn new() -> (r: SampleSelector) {
        SampleSelector {  }
    }

    /// Pick up to `k` mutually diverse samples from candidates already
    /// ranked best-first (see [`select_diverse_from`]).
    pub fn select_diverse(&self, cands: Vec<Sample>, k: usize) -> (r: Vec<Sample>)
        ensures
            sample_views(r@) == select_diverse_from(sample_views(cands@), Seq::empty(), k as nat),
    {
        let ghost cv = sample_views(cands@);
        let mut out: Vec<Sample> = Vec::new();
        proof {
            assert(cv.skip(0) =~= cv);
            assert(sample_views(out@) =~= Seq::<SampleV>::empty());
        }
        let mut i: usize = 0;
        while i < cands.len()
            invariant
                i <= cands@.len(),
                cv == sample_views(cands@),
                out@.len() <= k,
                select_diverse_from(cv, Seq::empty(), k as nat) == select_diverse_from(
                    cv.skip(i as int),
                    sample_views(out@),
                    k as nat,
                ),
            decreases cands@.len() - i,
        {
            if out.len() >= k {
                proof {
                    assert(select_diverse_from(cv.skip(i as int), sample_views(out@), k as nat)
                        == sample_views(out@));
                }
                return out;
            }
            let c = &cands[i];
            proof {
                assert(cv.skip(i as int)[0] == cv[i as int]);
                assert(cv[i as int] == cands@[i as int]@);
                assert(cv.skip(i as int).skip(1) =~= cv.skip(i + 1 as int));
            }
            let mut ok = true;
            let mut j: usize = 0;
            while j < out.len()
                invariant
                    j <= out@.len(),
                    i < cands@.len(),
                    cv == sample_views(cands@),
                    ok == forall|x: int|
                        0 <= x < j ==> word_overlap_milli(
                            cands@[i as int]@.command,
                            (#[trigger] sample_views(out@)[x]).command,
                        ) < DIVERSITY_CUTOFF_MILLI,
                decreases out@.len() - j,
            {
                let ov = word_overlap_exec(&cands[i].command, &out[j].command);
                proof {
                    assert(sample_views(out@)[j as int] == out@[j as int]@);
                }
                if ov >= DIVERSITY_CUTOFF_MILLI {
                    ok = false;
                }
                j = j + 1;
            }
            proof {
                assert(ok == diverse_against(sample_views(out@), cv[i as int].command));
            }
            if ok {
                let ghost pre = sample_views(out@);
                let s = duplicate_sample(c);
                out.push(s);
                proof {
                    assert(sample_views(out@) =~= pre.push(cv[i as int]));
                }
            }
            i = i + 1;
        }
        proof {
            assert(cv.skip(cv.len() as int) =~= Seq::<SampleV>::empty());
        }
        out
    }
}

/// A field-for-field copy of a sample.
fn duplicate_sample(s: &Sample) -> (r: Sample)
    ensures
        r@ == s@,
{
    let r = Sample {
        command: crate::types::clone_bytes(&s.command),
        context: crate::types::clone_bytes(&s.context),
        quality_milli: s.quality_milli,
        similarity_milli: s.similarity_milli,
    };
    proof {
        assert(r@ =~= s@);
    }
    r
}

/// The word overlap of two commands (see [`word_overlap_milli`]).
fn word_overlap_exec(a: &Vec<u8>, b: &Vec<u8>) -> (r: u64)
    ensures
        r as int == word_overlap_milli(a@, b@),
{
    let wa = dedup_words_exec(a);
    let wb = dedup_words_exec(b);
    crate::fingerprint::jaccard_words(&wa, &wb)
}

/// The distinct words of a command, in first-occurrence order.
fn dedup_words_exec(s: &Vec<u8>) -> (r: Vec<Vec<u8>>)
    ensures
        r.deep_view() == dedup_words(split_ws(s@)),
        no_dup_words(r.deep_view()),
{
    let words = split_ws_bytes(s.as_slice());
    let ghost wv = split_ws(s@);
    let n = words.len();
    let mut out: Vec<Vec<u8>> = Vec::new();
    let mut i: usize = 0;
    while i < n
        invariant
            i <= n,
            n == words@.len(),
            words.deep_view() == wv,
            out.deep_view() == dedup_words(wv.take(i as int)),
            no_dup_words(out.deep_view()),
        decreases n - i,
    {
        let mut dup = false;
        let mut j: usize = 0;
        while j < i
            invariant
                j <= i < n,
                n == words@.len(),
                words.deep_view() == wv,
                dup == exists|x: int| 0 <= x < j && #[trigger] wv[x] == wv[i as int],
            decreases i - j,
        {
            let same = eq_bytes(words[j].as_slice(), words[i].as_slice());
            proof {
                assert(wv[j as int] =~= words@[j as int]@);
                assert(wv[i as int] =~= words@[i as int]@);
            }
            if same {
                proof {
                    assert(wv[j as int] == wv[i as int]);
                }
                dup = true;
            }
            j = j + 1;
        }
        proof {
            assert(wv.take(i + 1 as int).drop_last() =~= wv.take(i as int));
            assert(wv.take(i + 1 as int).last() == wv[i as int]);
            assert forall|x: int| 0 <= x < i implies wv.take(i + 1 as int)[x] == wv[x] by {}
        }
        if !dup {
            let ghost pre = out.deep_view();
            let w = crate::types::clone_bytes(&words[i]);
            proof {
                assert(w.deep_view() =~= w@);
                assert(wv[i as int] =~= words@[i as int]@);
            }
            out.push(w);
            proof {
                assert(out.deep_view() =~= pre.push(wv[i as int]));
                assert(!(exists|x: int|
                    0 <= x < i && #[trigger] wv.take(i + 1 as int)[x] == wv.take(
                        i + 1 as int,
                    ).last()));
                assert forall|x: int, y: int|
                    0 <= x < y < out.deep_view().len() implies out.deep_view()[x]
                    != out.deep_view()[y] by {
                    if y == out.deep_view().len() - 1 {
                        assert(out.deep_view()[x] == pre[x]);
                        assert(pre =~= dedup_words(wv.take(i as int)));
                        lemma_dedup_contains(wv.take(i as int), x);
                        if out.deep_view()[x] == wv[i as int] {
                            let x0 = choose|x0: int|
                                0 <= x0 < wv.take(i as int).len() && wv.take(i as int)[x0]
                                    == pre[x];
                            assert(wv[x0] == wv[i as int]);
                            assert(false);
                        }
                    } else {
                        assert(out.deep_view()[x] == pre[x] && out.deep_view()[y] == pre[y]);
                    }
                }
            }
        } else {
            proof {
                let x = choose|x: int| 0 <= x < i && #[trigger] wv[x] == wv[i as int];
                assert(wv.take(i + 1 as int)[x] == wv.take(i + 1 as int).last());
            }
        }
        i = i + 1;
    }
    proof {
        assert(wv.take(n as int) =~= wv);
    }
    out
}

/// Every word of the deduplicated list occurs in the original list.
proof fn lemma_dedup_contains(ws: Seq<Seq<u8>>, x: int)
    requires
        0 <= x < dedup_words(ws).len(),
    ensures
        exists|x0: int| 0 <= x0 < ws.len() && ws[x0] == dedup_words(ws)[x],
    decreases ws.len(),
{
    if ws.len() > 0 {
        let prefix = dedup_words(ws.drop_last());
        if exists|j: int| 0 <= j < ws.len() - 1 && #[trigger] ws[j] == ws.last() {
            lemma_dedup_contains(ws.drop_last(), x);
            let x0 = choose|x0: int|
                0 <= x0 < ws.drop_last().len() && ws.drop_last()[x0] == dedup_words(
                    ws.drop_last(),
                )[x];
            assert(ws[x0] == dedup_words(ws)[x]);
        } else {
            if x < prefix.len() {
                lemma_dedup_contains(ws.drop_last(), x);
                let x0 = choose|x0: int|
                    0 <= x0 < ws.drop_last().len() && ws.drop_last()[x0] == dedup_words(
                        ws.drop_last(),
                    )[x];
                assert(ws[x0] == dedup_words(ws)[x]);
            } else {
                assert(ws[ws.len() - 1] == dedup_words(ws)[x]);
            }
        }
    }
}

} // verus!
