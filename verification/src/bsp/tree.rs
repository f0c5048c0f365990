//! The partitioning tree and its broad-phase query.

use vstd::prelude::*;

use super::aabb::{lemma_intersects_container, lemma_merged_contains, Aabb};
use super::entry::{all_wf, boxes_of, Entry};
use super::node::{in_bucket, split_of, Node, MAX_NUM_ENTRIES};
use super::pairs::{
    lemma_own_hits_count, lemma_pairwise_hits_are_overlapping_pairs, overlapping_pairs, overlaps,
    own_hits, pairwise_hits, reported_as,
};
use super::partition::{lemma_opposite_sides_disjoint, Bucket, Dimension};
use crate::sequence::{
    lemma_filter_len_permutation, lemma_filter_len_split, lemma_filter_membership,
    lemma_filter_rejects_all,
};

verus! {

/// The number of nodes in a subtree.
pub open spec fn node_count(node: &Node) -> nat
    decreases node,
{
    match node.children {
        Some(children) => 1 + node_count(&children.left_child) + node_count(
            &children.right_child,
        ),
        None => 1,
    }
}

/// The pairs that the traversal of a subtree emits for one query, in the
/// order in which it emits them: the node's own entries first, unless the
/// query misses their hull, then the right subtree, then the left one, each
/// only where the query does not lie wholly on the other side of the
/// node's partition.
pub open spec fn hits(node: &Node, query: Entry) -> Seq<(usize, usize)>
    decreases node,
{
    let own = if node.entries_aabb matches Some(hull) && !query.aabb.spec_intersects(&hull) {
        Seq::empty()
    } else {
        own_hits(node.entries@, query)
    };
    let deeper = match (node.children, node.partition) {
        (Some(children), Some(partition)) => match partition.spec_classify(&query.aabb) {
            Bucket::Below => hits(&children.left_child, query),
            Bucket::Above => hits(&children.right_child, query),
            Bucket::Intersecting => hits(&children.right_child, query) + hits(
                &children.left_child,
                query,
            ),
        },
        _ => Seq::empty(),
    };
    own + deeper
}

/// What the traversal still has to emit for the nodes on its work stack,
/// the top of the stack first.
pub open spec fn pending(stack: Seq<&Node>, query: Entry) -> Seq<(usize, usize)>
    decreases stack.len(),
{
    if stack.len() == 0 {
        Seq::empty()
    } else {
        hits(stack.last(), query) + pending(stack.drop_last(), query)
    }
}

/// The number of nodes that the traversal can still visit from its stack.
pub open spec fn pending_count(stack: Seq<&Node>) -> nat
    decreases stack.len(),
{
    if stack.len() == 0 {
        0
    } else {
        node_count(stack.last()) + pending_count(stack.drop_last())
    }
}

/// The pairs that the traversals for the given queries emit, one query
/// after the other.
pub open spec fn all_hits(root: &Node, queries: Seq<Entry>) -> Seq<(usize, usize)>
    decreases queries.len(),
{
    if queries.len() == 0 {
        Seq::empty()
    } else {
        all_hits(root, queries.drop_last()) + hits(root, queries.last())
    }
}

/// A binary space-partitioning tree over a list of entries.
pub struct Tree {
    entries: Vec<Entry>,
    root: Node,
}

impl View for Tree {
    type V = Seq<Entry>;

    /// The entries that the tree was built from, in their order.
    closed spec fn view(&self) -> Seq<Entry> {
        self.entries@
    }
}

impl Tree {
    /// The root node.
    pub closed spec fn root(&self) -> Node {
        self.root
    }

    #[verifier::type_invariant]
    spec fn well_formed(&self) -> bool {
        self.root.built_from(self.entries@, Dimension::X)
    }

    /// Builds the tree over `entries`; the root splits along the x axis.
    pub fn new_with(entries: Vec<Entry>) -> (tree: Self)
        requires
            all_wf(entries@),
        ensures
            tree@ == entries@,
            tree.root().built_from(entries@, Dimension::X),
    {
        let flat = entries.clone();
        assert(flat@ =~= entries@);
        Self { entries: flat, root: Node::new_with(entries, Dimension::X) }
    }

    /// The broad phase: every pair of entries with different identifiers
    /// whose boxes intersect, found by walking the tree once for each entry.
    /// A pair is reported from the side of each of its two entries, so it
    /// comes in both orders. The result holds the pairs that a comparison of
    /// every entry with every other would find, each as often as such a
    /// comparison finds it; only their order is the traversal's own.
    pub fn internal_collisions(&self) -> (collisions: Vec<(usize, usize)>)
        ensures
            collisions@ == all_hits(&self.root(), self@),
            collisions@.to_multiset() == pairwise_hits(self@, self@).to_multiset(),
            collisions@.to_set() == overlapping_pairs(self@),
    {
        proof {
            use_type_invariant(self);
        }
        let mut collisions: Vec<(usize, usize)> = Vec::new();
        let mut nodes_to_search: Vec<&Node> = Vec::new();
        let mut index: usize = 0;
        while index < self.entries.len()
            invariant
                index <= self.entries@.len(),
                collisions@ == all_hits(&self.root, self.entries@.take(index as int)),
            decreases self.entries@.len() - index,
        {
            let entry = &self.entries[index];
            let ghost before = collisions@;
            nodes_to_search.clear();
            nodes_to_search.push(&self.root);
            proof {
                lemma_pending_push(Seq::<&Node>::empty(), &self.root, *entry);
            }
            while nodes_to_search.len() > 0
                invariant
                    collisions@ + pending(nodes_to_search@, *entry) == before + hits(
                        &self.root,
                        *entry,
                    ),
                decreases pending_count(nodes_to_search@),
            {
                let ghost stack = nodes_to_search@;
                let ghost emitted = collisions@;
                let node = nodes_to_search.pop().unwrap();
                let ghost rest = nodes_to_search@;
                proof {
                    assert(stack =~= rest.push(node));
                    lemma_pending_push(rest, node, *entry);
                }

                let mut check_node_entries = true;
                if let Some(node_aabb) = node.entries_aabb {
                    check_node_entries = entry.aabb.intersects(&node_aabb);
                }
                if check_node_entries {
                    let mut position: usize = 0;
                    assert(node.entries@.take(0) =~= Seq::<Entry>::empty());
                    assert(own_hits(Seq::<Entry>::empty(), *entry) =~= Seq::empty()) by {
                        reveal(Seq::filter);
                    }
                    while position < node.entries.len()
                        invariant
                            position <= node.entries@.len(),
                            collisions@ == emitted + own_hits(
                                node.entries@.take(position as int),
                                *entry,
                            ),
                        decreases node.entries@.len() - position,
                    {
                        let other_entry = &node.entries[position];
                        proof {
                            let seen = node.entries@.take(position as int);
                            assert(node.entries@.take(position as int + 1) =~= seen.push(
                                *other_entry,
                            ));
                            seen.lemma_filter_push(*other_entry, overlaps(*entry));
                            if overlaps(*entry)(*other_entry) {
                                assert(own_hits(seen.push(*other_entry), *entry) =~= own_hits(
                                    seen,
                                    *entry,
                                ).push((entry.id, other_entry.id)));
                            }
                        }
                        if other_entry.id != entry.id && entry.aabb.intersects(
                            &other_entry.aabb,
                        ) {
                            collisions.push((entry.id, other_entry.id));
                        }
                        position += 1;
                    }
                    assert(node.entries@.take(position as int) =~= node.entries@);
                }
                let ghost own = collisions@.skip(emitted.len() as int);
                assert(collisions@ =~= emitted + own);

                if let Some(children) = &node.children {
                    if let Some(partition) = &node.partition {
                        match partition.classify(&entry.aabb) {
                            Bucket::Below => {
                                nodes_to_search.push(&children.left_child);
                                proof {
                                    lemma_pending_push(rest, &*children.left_child, *entry);
                                }
                            },
                            Bucket::Intersecting => {
                                nodes_to_search.push(&children.left_child);
                                let ghost middle = nodes_to_search@;
                                nodes_to_search.push(&children.right_child);
                                proof {
                                    lemma_pending_push(rest, &*children.left_child, *entry);
                                    lemma_pending_push(middle, &*children.right_child, *entry);
                                }
                            },
                            Bucket::Above => {
                                nodes_to_search.push(&children.right_child);
                                proof {
                                    lemma_pending_push(rest, &*children.right_child, *entry);
                                }
                            },
                        }
                    }
                }
                proof {
                    assert(own + pending(nodes_to_search@, *entry) =~= hits(node, *entry)
                        + pending(rest, *entry));
                    assert(collisions@ + pending(nodes_to_search@, *entry) =~= emitted + (hits(
                        node,
                        *entry,
                    ) + pending(rest, *entry)));
                }
            }
            proof {
                assert(collisions@ =~= before + hits(&self.root, *entry));
                let queries = self.entries@.take(index as int + 1);
                assert(queries.drop_last() =~= self.entries@.take(index as int));
                assert(queries.last() == *entry);
            }
            index += 1;
        }
        proof {
            assert(self.entries@.take(index as int) =~= self.entries@);
            lemma_tree_finds_pairwise_hits(self.root, self.entries@);
        }
        collisions
    }
}

/// Pushing a node on the work stack puts what its subtree emits in front
/// of what was pending, and adds the subtree's nodes to those still to visit.
pub proof fn lemma_pending_push(stack: Seq<&Node>, node: &Node, query: Entry)
    ensures
        pending(stack.push(node), query) == hits(node, query) + pending(stack, query),
        pending_count(stack.push(node)) == node_count(node) + pending_count(stack),
{
    assert(stack.push(node).drop_last() =~= stack);
    assert(stack.push(node).last() == node);
}

/// A query that intersects the box of one of the entries intersects the
/// hull of their boxes.
pub proof fn lemma_hull_meets_query(entries: Seq<Entry>, query: Entry, other: Entry)
    requires
        entries.contains(other),
        query.aabb.spec_intersects(&other.aabb),
    ensures
        Aabb::merged_spec(boxes_of(entries)) matches Some(hull) && query.aabb.spec_intersects(
            &hull,
        ),
{
    let i = choose|i: int| 0 <= i < entries.len() && entries[i] == other;
    lemma_merged_contains(boxes_of(entries), i);
    lemma_intersects_container(
        query.aabb,
        Aabb::merged_spec(boxes_of(entries))->0,
        other.aabb,
    );
}

/// A query whose box misses the hull of a list has no partner in the list.
pub proof fn lemma_hull_missed(entries: Seq<Entry>, query: Entry, pair: (usize, usize))
    requires
        Aabb::merged_spec(boxes_of(entries)) matches Some(hull) && !query.aabb.spec_intersects(
            &hull,
        ),
    ensures
        entries.filter(reported_as(query, pair)).len() == 0,
{
    assert forall|other: Entry| entries.contains(other) implies !reported_as(query, pair)(
        other,
    ) by {
        if query.aabb.spec_intersects(&other.aabb) {
            lemma_hull_meets_query(entries, query, other);
        }
    }
    lemma_filter_rejects_all(entries, reported_as(query, pair));
}

/// A query on one side of a partition has no partner among the entries on
/// the other side.
pub proof fn lemma_side_missed(
    entries: Seq<Entry>,
    partition: super::partition::Partition,
    side: Bucket,
    query: Entry,
    pair: (usize, usize),
)
    requires
        side == Bucket::Below && partition.spec_classify(&query.aabb) == Bucket::Above || side
            == Bucket::Above && partition.spec_classify(&query.aabb) == Bucket::Below,
    ensures
        entries.filter(in_bucket(partition, side)).filter(reported_as(query, pair)).len() == 0,
{
    let part = entries.filter(in_bucket(partition, side));
    assert forall|other: Entry| part.contains(other) implies !reported_as(query, pair)(other) by {
        lemma_filter_membership(entries, in_bucket(partition, side), other);
        if side == Bucket::Below {
            lemma_opposite_sides_disjoint(partition, other.aabb, query.aabb);
        } else {
            lemma_opposite_sides_disjoint(partition, query.aabb, other.aabb);
        }
    }
    lemma_filter_rejects_all(part, reported_as(query, pair));
}

/// The traversal of a tree emits a pair for a query as often as the entries
/// that the tree was built from hold a partner of the query that is
/// reported as this pair: the traversal prunes no partner and reports none
/// twice.
pub proof fn lemma_hits_count(
    node: Node,
    entries: Seq<Entry>,
    dimension: Dimension,
    query: Entry,
    pair: (usize, usize),
)
    requires
        node.built_from(entries, dimension),
    ensures
        hits(&node, query).to_multiset().count(pair) == entries.filter(
            reported_as(query, pair),
        ).len(),
    decreases node,
{
    broadcast use vstd::multiset::group_multiset_axioms;

    let wanted = reported_as(query, pair);
    let pruned = node.entries_aabb matches Some(hull) && !query.aabb.spec_intersects(&hull);
    let own = if pruned {
        Seq::<(usize, usize)>::empty()
    } else {
        own_hits(node.entries@, query)
    };
    lemma_own_hits_count(node.entries@, query, pair);
    own.to_multiset_ensures();
    if entries.len() <= MAX_NUM_ENTRIES {
        assert(hits(&node, query) =~= own);
        if pruned {
            lemma_hull_missed(entries, query, pair);
        }
    } else {
        let partition = split_of(entries, dimension);
        let straddling = entries.filter(in_bucket(partition, Bucket::Intersecting));
        let lower = entries.filter(in_bucket(partition, Bucket::Below));
        let upper = entries.filter(in_bucket(partition, Bucket::Above));
        let children = node.children->0;
        let left = *children.left_child;
        let right = *children.right_child;
        let side = partition.spec_classify(&query.aabb);
        let deeper = match side {
            Bucket::Below => hits(&left, query),
            Bucket::Above => hits(&right, query),
            Bucket::Intersecting => hits(&right, query) + hits(&left, query),
        };
        assert(hits(&node, query) =~= own + deeper);
        vstd::seq_lib::lemma_multiset_commutative(own, deeper);
        vstd::seq_lib::lemma_multiset_commutative(hits(&right, query), hits(&left, query));

        lemma_filter_len_permutation(node.entries@, straddling, wanted);
        if pruned {
            lemma_hull_missed(straddling, query, pair);
        }
        assert(own.to_multiset().count(pair) == straddling.filter(wanted).len());

        lemma_hits_count(left, lower, dimension.flipped(), query, pair);
        lemma_hits_count(right, upper, dimension.flipped(), query, pair);
        if side == Bucket::Above {
            lemma_side_missed(entries, partition, Bucket::Below, query, pair);
        }
        if side == Bucket::Below {
            lemma_side_missed(entries, partition, Bucket::Above, query, pair);
        }
        assert(deeper.to_multiset().count(pair) == lower.filter(wanted).len() + upper.filter(
            wanted,
        ).len());

        assert forall|entry: Entry|
            (#[trigger] in_bucket(partition, Bucket::Below)(entry) || in_bucket(
                partition,
                Bucket::Intersecting,
            )(entry) || in_bucket(partition, Bucket::Above)(entry)) && !(in_bucket(
                partition,
                Bucket::Below,
            )(entry) && in_bucket(partition, Bucket::Intersecting)(entry)) && !(in_bucket(
                partition,
                Bucket::Below,
            )(entry) && in_bucket(partition, Bucket::Above)(entry)) && !(in_bucket(
                partition,
                Bucket::Intersecting,
            )(entry) && in_bucket(partition, Bucket::Above)(entry)) by {}
        lemma_filter_len_split(
            entries,
            in_bucket(partition, Bucket::Below),
            in_bucket(partition, Bucket::Intersecting),
            in_bucket(partition, Bucket::Above),
            wanted,
        );
    }
}

/// Walking a tree once for each query emits each pair as often as a loop
/// over the queries does that compares each of them with every entry.
pub proof fn lemma_all_hits_count(
    root: Node,
    entries: Seq<Entry>,
    dimension: Dimension,
    queries: Seq<Entry>,
    pair: (usize, usize),
)
    requires
        root.built_from(entries, dimension),
    ensures
        all_hits(&root, queries).to_multiset().count(pair) == pairwise_hits(
            entries,
            queries,
        ).to_multiset().count(pair),
    decreases queries.len(),
{
    broadcast use vstd::multiset::group_multiset_axioms;

    if queries.len() == 0 {
        assert(all_hits(&root, queries) =~= pairwise_hits(entries, queries));
    } else {
        let front = queries.drop_last();
        let last = queries.last();
        lemma_all_hits_count(root, entries, dimension, front, pair);
        lemma_hits_count(root, entries, dimension, last, pair);
        lemma_own_hits_count(entries, last, pair);
        vstd::seq_lib::lemma_multiset_commutative(all_hits(&root, front), hits(&root, last));
        vstd::seq_lib::lemma_multiset_commutative(
            pairwise_hits(entries, front),
            own_hits(entries, last),
        );
    }
}

/// Walking a tree once for each of its entries finds what a comparison of
/// every entry with every other finds: the same pairs, each as often, and
/// so exactly the overlapping pairs.
pub proof fn lemma_tree_finds_pairwise_hits(root: Node, entries: Seq<Entry>)
    requires
        root.built_from(entries, Dimension::X),
    ensures
        all_hits(&root, entries).to_multiset() == pairwise_hits(entries, entries).to_multiset(),
        all_hits(&root, entries).to_set() == overlapping_pairs(entries),
{
    let found = all_hits(&root, entries);
    let expected = pairwise_hits(entries, entries);
    assert forall|pair: (usize, usize)|
        found.to_multiset().count(pair) == expected.to_multiset().count(pair) by {
        lemma_all_hits_count(root, entries, Dimension::X, entries, pair);
    }
    assert(found.to_multiset() =~= expected.to_multiset());
    lemma_pairwise_hits_are_overlapping_pairs(entries);
    assert forall|pair: (usize, usize)| found.to_set().contains(pair) == expected.to_set().contains(
        pair,
    ) by {
        vstd::seq_lib::to_multiset_contains(found, pair);
        vstd::seq_lib::to_multiset_contains(expected, pair);
    }
    assert(found.to_set() =~= expected.to_set());
}

} // verus!
