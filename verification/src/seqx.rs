//! Small reusable facts about `Seq::filter`, used by the store, the
//! fingerprint cache and the search executor.
use vstd::prelude::*;

verus! {

/// One filtering step: extending the scanned prefix by one element.
pub proof fn lemma_filter_step<T>(s: Seq<T>, pred: spec_fn(T) -> bool, i: int)
    requires
        0 <= i < s.len(),
    ensures
        s.take(i + 1).filter(pred) == if pred(s[i]) {
            s.take(i).filter(pred).push(s[i])
        } else {
            s.take(i).filter(pred)
        },
{
    reveal(Seq::filter);
    assert(s.take(i + 1).drop_last() =~= s.take(i));
    assert(s.take(i + 1).last() == s[i]);
}

/// Every element of a filtered sequence is an element of the original.
pub proof fn lemma_filter_sub<T>(s: Seq<T>, pred: spec_fn(T) -> bool)
    ensures
        forall|x: int|
            0 <= x < s.filter(pred).len() ==> s.contains(#[trigger] s.filter(pred)[x]) && pred(
                s.filter(pred)[x],
            ),
    decreases s.len(),
{
    reveal(Seq::filter);
    if s.len() > 0 {
        lemma_filter_sub(s.drop_last(), pred);
        assert forall|x: int|
            0 <= x < s.filter(pred).len() implies s.contains(#[trigger] s.filter(pred)[x]) && pred(
            s.filter(pred)[x],
        ) by {
            let f = s.filter(pred);
            let fd = s.drop_last().filter(pred);
            if pred(s.last()) && x == f.len() - 1 {
                assert(f[x] == s.last());
                assert(s[s.len() - 1] == s.last());
            } else {
                assert(f[x] == fd[x]);
                let j = choose|j: int| 0 <= j < s.drop_last().len() && s.drop_last()[j] == fd[x];
                assert(s[j] == fd[x]);
            }
        }
    }
}

/// Filtering a sequence whose every element passes changes nothing.
pub proof fn lemma_filter_all<T>(s: Seq<T>, pred: spec_fn(T) -> bool)
    requires
        forall|i: int| 0 <= i < s.len() ==> pred(#[trigger] s[i]),
    ensures
        s.filter(pred) == s,
    decreases s.len(),
{
    reveal(Seq::filter);
    if s.len() > 0 {
        assert forall|i: int| 0 <= i < s.drop_last().len() implies pred(
            #[trigger] s.drop_last()[i],
        ) by {
            assert(s.drop_last()[i] == s[i]);
        }
        lemma_filter_all(s.drop_last(), pred);
        assert(pred(s[s.len() - 1]));
        assert(s.filter(pred) =~= s);
    }
}

/// Filtering twice keeps no more than filtering once.
pub proof fn lemma_filter_filter_le<T>(s: Seq<T>, p: spec_fn(T) -> bool, q: spec_fn(T) -> bool)
    ensures
        s.filter(p).filter(q).len() <= s.filter(q).len(),
    decreases s.len(),
{
    reveal(Seq::filter);
    if s.len() > 0 {
        lemma_filter_filter_le(s.drop_last(), p, q);
        if p(s.last()) {
            assert(s.filter(p).drop_last() =~= s.drop_last().filter(p));
            assert(s.filter(p).last() == s.last());
        }
    }
}

} // verus!
