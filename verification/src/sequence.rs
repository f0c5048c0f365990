//! Facts about filtered sequences that the trees rest on.

use vstd::multiset::Multiset;
use vstd::prelude::*;

verus! {

/// An element is kept by a filter exactly when it is in the sequence and
/// meets the filter's condition.
pub proof fn lemma_filter_membership<A>(s: Seq<A>, pred: spec_fn(A) -> bool, a: A)
    ensures
        s.filter(pred).contains(a) <==> s.contains(a) && pred(a),
{
    let kept = s.filter(pred);
    if kept.contains(a) {
        let k = choose|k: int| 0 <= k < kept.len() && kept[k] == a;
        s.lemma_filter_pred(pred, k);
        s.lemma_filter_contains_rev(pred, a);
    }
    if s.contains(a) && pred(a) {
        let i = choose|i: int| 0 <= i < s.len() && s[i] == a;
        s.lemma_filter_contains(pred, i);
    }
}

/// A filter that rejects some element yields fewer elements than it was given.
pub proof fn lemma_filter_drops<A>(s: Seq<A>, pred: spec_fn(A) -> bool, k: int)
    requires
        0 <= k < s.len(),
        !pred(s[k]),
    ensures
        s.filter(pred).len() < s.len(),
    decreases s.len(),
{
    reveal(Seq::filter);
    let front = s.drop_last();
    if k == s.len() - 1 {
        front.lemma_filter_len(pred);
    } else {
        assert(front[k] == s[k]);
        lemma_filter_drops(front, pred, k);
    }
}

/// A filter that rejects every element yields nothing.
pub proof fn lemma_filter_rejects_all<A>(s: Seq<A>, pred: spec_fn(A) -> bool)
    requires
        forall|a: A| s.contains(a) ==> !pred(a),
    ensures
        s.filter(pred).len() == 0,
{
    let kept = s.filter(pred);
    if kept.len() > 0 {
        assert(kept.contains(kept[0]));
        lemma_filter_membership(s, pred, kept[0]);
    }
}

/// Filtering a sequence and then forgetting the order gives what
/// forgetting the order and then filtering gives.
pub proof fn lemma_filter_to_multiset<A>(s: Seq<A>, pred: spec_fn(A) -> bool)
    ensures
        s.filter(pred).to_multiset() == s.to_multiset().filter(pred),
    decreases s.len(),
{
    broadcast use vstd::multiset::group_multiset_axioms;

    if s.len() == 0 {
        reveal(Seq::filter);
        assert(s.to_multiset() =~= Multiset::<A>::empty()) by {
            s.to_multiset_ensures();
        }
        assert(s.filter(pred).to_multiset() =~= s.to_multiset().filter(pred));
    } else {
        let front = s.drop_last();
        let last = s.last();
        lemma_filter_to_multiset(front, pred);
        assert(s =~= front.push(last));
        front.lemma_filter_push(last, pred);
        vstd::seq_lib::to_multiset_build(front, last);
        vstd::seq_lib::to_multiset_build(front.filter(pred), last);
        assert(s.filter(pred).to_multiset() =~= s.to_multiset().filter(pred));
    }
}

/// Two sequences that hold the same elements, each as often, keep equally
/// many of them under a filter.
pub proof fn lemma_filter_len_permutation<A>(
    first: Seq<A>,
    second: Seq<A>,
    pred: spec_fn(A) -> bool,
)
    requires
        first.to_multiset() == second.to_multiset(),
    ensures
        first.filter(pred).len() == second.filter(pred).len(),
{
    lemma_filter_to_multiset(first, pred);
    lemma_filter_to_multiset(second, pred);
    vstd::seq_lib::to_multiset_len(first.filter(pred));
    vstd::seq_lib::to_multiset_len(second.filter(pred));
}

/// Where each element meets exactly one of three conditions, a filter keeps
/// as many elements of the sequence as it keeps of its three parts together.
pub proof fn lemma_filter_len_split<A>(
    s: Seq<A>,
    one: spec_fn(A) -> bool,
    two: spec_fn(A) -> bool,
    three: spec_fn(A) -> bool,
    pred: spec_fn(A) -> bool,
)
    requires
        forall|a: A|
            (#[trigger] one(a) || two(a) || three(a)) && !(one(a) && two(a)) && !(one(a) && three(
                a,
            )) && !(two(a) && three(a)),
    ensures
        s.filter(pred).len() == s.filter(one).filter(pred).len() + s.filter(two).filter(pred).len()
            + s.filter(three).filter(pred).len(),
    decreases s.len(),
{
    if s.len() == 0 {
        reveal(Seq::filter);
    } else {
        let front = s.drop_last();
        let last = s.last();
        lemma_filter_len_split(front, one, two, three, pred);
        assert(s =~= front.push(last));
        assert(one(last) || two(last) || three(last));
        front.lemma_filter_push(last, pred);
        front.lemma_filter_push(last, one);
        front.lemma_filter_push(last, two);
        front.lemma_filter_push(last, three);
        front.filter(one).lemma_filter_push(last, pred);
        front.filter(two).lemma_filter_push(last, pred);
        front.filter(three).lemma_filter_push(last, pred);
    }
}

} // verus!
