//! Order-preserving subsequences of sequences, and how they interact with
//! `Seq::filter`.

use vstd::prelude::*;

verus! {

/// Holds when `xs` can be obtained from `ys` by deleting zero or more
/// elements, keeping the relative order of the rest.
pub open spec fn subsequence_of<A>(xs: Seq<A>, ys: Seq<A>) -> bool
    decreases xs.len() + ys.len(),
{
    if xs.len() == 0 {
        true
    } else if ys.len() == 0 {
        false
    } else {
        (xs.last() == ys.last() && subsequence_of(xs.drop_last(), ys.drop_last())) || subsequence_of(
            xs,
            ys.drop_last(),
        )
    }
}

/// Every sequence is a subsequence of itself.
pub proof fn lemma_subsequence_refl<A>(xs: Seq<A>)
    ensures
        subsequence_of(xs, xs),
    decreases xs.len(),
{
    if xs.len() > 0 {
        lemma_subsequence_refl(xs.drop_last());
    }
}

/// Being a subsequence is transitive.
pub proof fn lemma_subsequence_trans<A>(xs: Seq<A>, ys: Seq<A>, zs: Seq<A>)
    requires
        subsequence_of(xs, ys),
        subsequence_of(ys, zs),
    ensures
        subsequence_of(xs, zs),
    decreases xs.len() + ys.len() + zs.len(),
{
    if xs.len() == 0 {
    } else {
        // xs nonempty, so ys and zs are nonempty as well
        if ys.last() == zs.last() && subsequence_of(ys.drop_last(), zs.drop_last()) {
            if xs.last() == ys.last() && subsequence_of(xs.drop_last(), ys.drop_last()) {
                lemma_subsequence_trans(xs.drop_last(), ys.drop_last(), zs.drop_last());
            } else {
                lemma_subsequence_trans(xs, ys.drop_last(), zs.drop_last());
            }
        } else {
            lemma_subsequence_trans(xs, ys, zs.drop_last());
        }
    }
}

/// Filtering a sequence yields an order-preserving subsequence of it.
pub proof fn lemma_filter_subsequence_of<A>(s: Seq<A>, pred: spec_fn(A) -> bool)
    ensures
        subsequence_of(s.filter(pred), s),
    decreases s.len(),
{
    reveal(Seq::filter);
    if s.len() > 0 {
        lemma_filter_subsequence_of(s.drop_last(), pred);
        if pred(s.last()) {
            assert(s.filter(pred) == s.drop_last().filter(pred).push(s.last()));
            assert(s.filter(pred).drop_last() == s.drop_last().filter(pred));
        }
    }
}

/// Two predicates that agree on every element of a sequence filter it to
/// the same result.
pub proof fn lemma_filter_congruence<A>(s: Seq<A>, p: spec_fn(A) -> bool, q: spec_fn(A) -> bool)
    requires
        forall|i: int| 0 <= i < s.len() ==> p(s[i]) == q(s[i]),
    ensures
        s.filter(p) == s.filter(q),
    decreases s.len(),
{
    reveal(Seq::filter);
    if s.len() > 0 {
        assert(forall|i: int| 0 <= i < s.drop_last().len() ==> s.drop_last()[i] == s[i]);
        lemma_filter_congruence(s.drop_last(), p, q);
        assert(p(s.last()) == q(s.last()));
    }
}

} // verus!
