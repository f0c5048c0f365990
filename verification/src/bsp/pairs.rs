//! What a broad phase has to find: the pairs that a comparison of every
//! entry with every other finds.

use vstd::prelude::*;

use super::entry::Entry;

verus! {

/// The entries that a query has to be paired with: those of another
/// identifier whose box intersects the query's box.
pub open spec fn overlaps(query: Entry) -> spec_fn(Entry) -> bool {
    |other: Entry| other.id != query.id && query.aabb.spec_intersects(&other.aabb)
}

/// The pair that reports `other` as a partner of `query`.
pub open spec fn pair_with(query: Entry) -> spec_fn(Entry) -> (usize, usize) {
    |other: Entry| (query.id, other.id)
}

/// The partners of `query` that are reported as `pair`.
pub open spec fn reported_as(query: Entry, pair: (usize, usize)) -> spec_fn(Entry) -> bool {
    |other: Entry| overlaps(query)(other) && pair_with(query)(other) == pair
}

/// The pairs that a query forms with the entries of one list, in the order
/// of the list.
pub open spec fn own_hits(entries: Seq<Entry>, query: Entry) -> Seq<(usize, usize)> {
    entries.filter(overlaps(query)).map_values(pair_with(query))
}

/// The pairs that the queries form with the entries of one list: what a
/// loop over the queries finds that compares each of them with every entry
/// of the list.
pub open spec fn pairwise_hits(entries: Seq<Entry>, queries: Seq<Entry>) -> Seq<(usize, usize)>
    decreases queries.len(),
{
    if queries.len() == 0 {
        Seq::empty()
    } else {
        pairwise_hits(entries, queries.drop_last()) + own_hits(entries, queries.last())
    }
}

/// `pair` reports a partner of `query` among `entries`.
pub open spec fn is_hit(entries: Seq<Entry>, query: Entry, pair: (usize, usize)) -> bool {
    exists|other: Entry|
        #[trigger] entries.contains(other) && overlaps(query)(other) && pair == (
            query.id,
            other.id,
        )
}

/// The pairs of identifiers that a pairwise comparison of all entries
/// finds: `(a, b)` for every two entries with different identifiers `a` and
/// `b` whose boxes intersect. Each such pair is in the set in both orders.
pub open spec fn overlapping_pairs(entries: Seq<Entry>) -> Set<(usize, usize)> {
    Set::new(
        |pair: (usize, usize)|
            exists|query: Entry|
                #[trigger] entries.contains(query) && is_hit(entries, query, pair),
    )
}

/// What the broad phase reports is fit for exclusive access to two bodies
/// at a time: the two identifiers of a pair differ, both are identifiers of
/// entries, and the pair is reported in the other order as well.
pub proof fn lemma_overlapping_pairs_shape(entries: Seq<Entry>, pair: (usize, usize))
    requires
        overlapping_pairs(entries).contains(pair),
    ensures
        pair.0 != pair.1,
        exists|first: Entry| #[trigger] entries.contains(first) && first.id == pair.0,
        exists|second: Entry| #[trigger] entries.contains(second) && second.id == pair.1,
        overlapping_pairs(entries).contains((pair.1, pair.0)),
{
    let query = choose|query: Entry|
        #[trigger] entries.contains(query) && is_hit(entries, query, pair);
    let other = choose|other: Entry|
        #[trigger] entries.contains(other) && overlaps(query)(other) && pair == (
            query.id,
            other.id,
        );
    assert(entries.contains(query) && query.id == pair.0);
    assert(entries.contains(other) && other.id == pair.1);
    assert(entries.contains(query) && overlaps(other)(query) && (pair.1, pair.0) == (
        other.id,
        query.id,
    ));
    assert(entries.contains(other) && is_hit(entries, other, (pair.1, pair.0)));
}

/// The pairs that a query forms with a list are those that report one of
/// its partners in the list.
pub proof fn lemma_own_hits(entries: Seq<Entry>, query: Entry, pair: (usize, usize))
    ensures
        own_hits(entries, query).contains(pair) <==> is_hit(entries, query, pair),
{
    let kept = entries.filter(overlaps(query));
    let pairs = own_hits(entries, query);
    if pairs.contains(pair) {
        let k = choose|k: int| 0 <= k < pairs.len() && pairs[k] == pair;
        entries.lemma_filter_pred(overlaps(query), k);
        assert(kept.contains(kept[k]));
        entries.lemma_filter_contains_rev(overlaps(query), kept[k]);
        assert(entries.contains(kept[k]));
    }
    if is_hit(entries, query, pair) {
        let other = choose|other: Entry|
            #[trigger] entries.contains(other) && overlaps(query)(other) && pair == (
                query.id,
                other.id,
            );
        let i = choose|i: int| 0 <= i < entries.len() && entries[i] == other;
        entries.lemma_filter_contains(overlaps(query), i);
        let k = choose|k: int| 0 <= k < kept.len() && kept[k] == other;
        assert(pairs[k] == pair);
    }
}

/// A pair occurs among the pairs that a query forms with a list as often
/// as the list holds a partner that is reported as this pair.
pub proof fn lemma_own_hits_count(entries: Seq<Entry>, query: Entry, pair: (usize, usize))
    ensures
        own_hits(entries, query).to_multiset().count(pair) == entries.filter(
            reported_as(query, pair),
        ).len(),
    decreases entries.len(),
{
    broadcast use vstd::multiset::group_multiset_axioms;

    if entries.len() == 0 {
        reveal(Seq::filter);
        assert(own_hits(entries, query) =~= Seq::<(usize, usize)>::empty());
        own_hits(entries, query).to_multiset_ensures();
    } else {
        let front = entries.drop_last();
        let last = entries.last();
        lemma_own_hits_count(front, query, pair);
        assert(entries =~= front.push(last));
        front.lemma_filter_push(last, overlaps(query));
        front.lemma_filter_push(last, reported_as(query, pair));
        if overlaps(query)(last) {
            assert(own_hits(entries, query) =~= own_hits(front, query).push(
                pair_with(query)(last),
            ));
            vstd::seq_lib::to_multiset_build(own_hits(front, query), pair_with(query)(last));
        } else {
            assert(own_hits(entries, query) =~= own_hits(front, query));
        }
    }
}

/// The pairs that a loop over the queries finds are those that report a
/// partner of one of the queries.
pub proof fn lemma_pairwise_hits(
    entries: Seq<Entry>,
    queries: Seq<Entry>,
    pair: (usize, usize),
)
    ensures
        pairwise_hits(entries, queries).contains(pair) <==> exists|query: Entry|
            #[trigger] queries.contains(query) && is_hit(entries, query, pair),
    decreases queries.len(),
{
    broadcast use vstd::seq_lib::lemma_seq_concat_contains_all_elements;

    if queries.len() > 0 {
        let front = queries.drop_last();
        let last = queries.last();
        lemma_pairwise_hits(entries, front, pair);
        lemma_own_hits(entries, last, pair);
        assert(queries.contains(last));
        if pairwise_hits(entries, front).contains(pair) {
            let query = choose|query: Entry|
                #[trigger] front.contains(query) && is_hit(entries, query, pair);
            let k = choose|k: int| 0 <= k < front.len() && front[k] == query;
            assert(queries[k] == query);
            assert(queries.contains(query));
        }
        if exists|query: Entry| #[trigger] queries.contains(query) && is_hit(entries, query, pair) {
            let query = choose|query: Entry|
                #[trigger] queries.contains(query) && is_hit(entries, query, pair);
            let k = choose|k: int| 0 <= k < queries.len() && queries[k] == query;
            if k < front.len() {
                assert(front[k] == query);
                assert(front.contains(query));
            }
        }
    }
}

/// Comparing every entry with every other reports exactly the overlapping
/// pairs.
pub proof fn lemma_pairwise_hits_are_overlapping_pairs(entries: Seq<Entry>)
    ensures
        pairwise_hits(entries, entries).to_set() == overlapping_pairs(entries),
{
    assert forall|pair: (usize, usize)|
        pairwise_hits(entries, entries).to_set().contains(pair) == overlapping_pairs(
            entries,
        ).contains(pair) by {
        lemma_pairwise_hits(entries, entries, pair);
    }
    assert(pairwise_hits(entries, entries).to_set() =~= overlapping_pairs(entries));
}

} // verus!
