//! The nodes of the partitioning tree and their construction.

use vstd::prelude::*;

use core::ops::Neg;

use super::aabb::Aabb;
use super::entry::{all_wf, boxes, boxes_of, Entry};
use super::partition::{Bucket, Dimension, Partition};
use crate::sequence::lemma_filter_drops;
use crate::util::{lemma_midpoint_between, midpoint, midpoint_spec};

verus! {

/// A list of at most this many entries is kept in a leaf.
pub const MAX_NUM_ENTRIES: usize = 2;

/// The two subtrees of an internal node.
pub struct Children {
    pub left_child: Box<Node>,
    pub right_child: Box<Node>,
}

/// A node of the tree. A leaf owns all the entries it was built from. An
/// internal node owns the entries that straddle its partition and hands the
/// others to its children: those below the partition to the left child,
/// those above it to the right child.
pub struct Node {
    pub entries: Vec<Entry>,
    pub entries_aabb: Option<Aabb>,
    pub children: Option<Children>,
    pub partition: Option<Partition>,
}

/// The smallest lower edge along `dimension`, or the largest coordinate
/// where there are no entries.
pub open spec fn min_low(entries: Seq<Entry>, dimension: Dimension) -> int
    decreases entries.len(),
{
    if entries.len() == 0 {
        i64::MAX as int
    } else {
        let rest = min_low(entries.drop_last(), dimension);
        let low = entries.last().aabb.low(dimension) as int;
        if low < rest {
            low
        } else {
            rest
        }
    }
}

/// The largest upper edge along `dimension`, or the smallest coordinate
/// where there are no entries.
pub open spec fn max_high(entries: Seq<Entry>, dimension: Dimension) -> int
    decreases entries.len(),
{
    if entries.len() == 0 {
        i64::MIN as int
    } else {
        let rest = max_high(entries.drop_last(), dimension);
        let high = entries.last().aabb.high(dimension) as int;
        if high > rest {
            high
        } else {
            rest
        }
    }
}

/// The partition that splits `entries` along `dimension`: it lies at the
/// midpoint of the extent that the entries cover on that axis.
pub open spec fn split_of(entries: Seq<Entry>, dimension: Dimension) -> Partition {
    Partition {
        dimension,
        value: midpoint_spec(min_low(entries, dimension), max_high(entries, dimension)) as i64,
    }
}

/// The entries that `partition` puts into `bucket`.
pub open spec fn in_bucket(partition: Partition, bucket: Bucket) -> spec_fn(Entry) -> bool {
    |entry: Entry| partition.spec_classify(&entry.aabb) == bucket
}

/// The edge by which a node that splits along `dimension` orders its own
/// entries: the upper edge on the other axis.
pub open spec fn far_edge(entry: Entry, dimension: Dimension) -> i64 {
    entry.aabb.high(dimension.flipped())
}

/// The entries are in ascending order of their far edge.
pub open spec fn sorted_by_far_edge(entries: Seq<Entry>, dimension: Dimension) -> bool {
    forall|i: int, j: int|
        0 <= i <= j < entries.len() ==> far_edge(entries[i], dimension) <= far_edge(
            entries[j],
            dimension,
        )
}

impl Node {
    /// Whether this node is the tree over `entries` that splits along
    /// `dimension` first. The tree is determined by the entries up to the
    /// order among straddling entries with the same far edge.
    pub open spec fn built_from(&self, entries: Seq<Entry>, dimension: Dimension) -> bool
        decreases self,
    {
        if entries.len() <= MAX_NUM_ENTRIES {
            &&& self.entries@ == entries
            &&& self.entries_aabb == Aabb::merged_spec(boxes_of(entries))
            &&& self.children is None
            &&& self.partition is None
        } else {
            let partition = split_of(entries, dimension);
            let straddling = entries.filter(in_bucket(partition, Bucket::Intersecting));
            &&& self.partition == Some(partition)
            &&& self.entries@.to_multiset() == straddling.to_multiset()
            &&& sorted_by_far_edge(self.entries@, dimension)
            &&& self.entries_aabb == Aabb::merged_spec(boxes_of(straddling))
            &&& self.children matches Some(children)
            &&& children.left_child.built_from(
                entries.filter(in_bucket(partition, Bucket::Below)),
                dimension.flipped(),
            )
            &&& children.right_child.built_from(
                entries.filter(in_bucket(partition, Bucket::Above)),
                dimension.flipped(),
            )
        }
    }

    /// Builds the tree over `entries`, splitting along `dimension` first and
    /// along the other axis one level further down.
    pub fn new_with(entries: Vec<Entry>, dimension: Dimension) -> (node: Self)
        requires
            all_wf(entries@),
        ensures
            node.built_from(entries@, dimension),
        decreases entries@.len(),
    {
        if entries.len() <= MAX_NUM_ENTRIES {
            let boxes = boxes(&entries);
            let entries_aabb = Aabb::merged(boxes.as_slice());
            return Self { entries, entries_aabb, children: None, partition: None };
        }
        let bounds: (i64, i64) = extent_along(&entries, dimension);
        let partition = Partition { dimension, value: midpoint(bounds.0, bounds.1) };

        let mut left_count: usize = 0;
        let mut mid_count: usize = 0;
        let mut right_count: usize = 0;
        let mut index: usize = 0;
        while index < entries.len()
            invariant
                index <= entries@.len(),
                left_count + mid_count + right_count == index,
            decreases entries@.len() - index,
        {
            match partition.classify(&entries[index].aabb) {
                Bucket::Below => left_count += 1,
                Bucket::Intersecting => mid_count += 1,
                Bucket::Above => right_count += 1,
            }
            index += 1;
        }

        let mut left_entries: Vec<Entry> = Vec::new();
        let mut mid_entries: Vec<Entry> = Vec::new();
        let mut right_entries: Vec<Entry> = Vec::new();
        left_entries.reserve(left_count);
        mid_entries.reserve(mid_count);
        right_entries.reserve(right_count);

        index = 0;
        while index < entries.len()
            invariant
                index <= entries@.len(),
                all_wf(entries@),
                all_wf(left_entries@),
                all_wf(mid_entries@),
                all_wf(right_entries@),
                left_entries@ == entries@.take(index as int).filter(
                    in_bucket(partition, Bucket::Below),
                ),
                mid_entries@ == entries@.take(index as int).filter(
                    in_bucket(partition, Bucket::Intersecting),
                ),
                right_entries@ == entries@.take(index as int).filter(
                    in_bucket(partition, Bucket::Above),
                ),
            decreases entries@.len() - index,
        {
            let entry = entries[index];
            proof {
                let seen = entries@.take(index as int);
                assert(entries@.take(index as int + 1) =~= seen.push(entry));
                seen.lemma_filter_push(entry, in_bucket(partition, Bucket::Below));
                seen.lemma_filter_push(entry, in_bucket(partition, Bucket::Intersecting));
                seen.lemma_filter_push(entry, in_bucket(partition, Bucket::Above));
            }
            match partition.classify(&entry.aabb) {
                Bucket::Below => left_entries.push(entry),
                Bucket::Intersecting => mid_entries.push(entry),
                Bucket::Above => right_entries.push(entry),
            }
            index += 1;
        }
        proof {
            assert(entries@.take(index as int) =~= entries@);
            lemma_split_shrinks(entries@, dimension);
        }

        let mid_boxes = boxes(&mid_entries);
        let entries_aabb = Aabb::merged(mid_boxes.as_slice());
        sort_by_far_edge(&mut mid_entries, dimension);

        let left_child = Box::new(Self::new_with(left_entries, dimension.neg()));
        let right_child = Box::new(Self::new_with(right_entries, dimension.neg()));
        Self {
            entries: mid_entries,
            entries_aabb,
            children: Some(Children { left_child, right_child }),
            partition: Some(partition),
        }
    }
}

/// The lower edge of a box along `dimension`.
fn low_edge(aabb: &Aabb, dimension: Dimension) -> (edge: i64)
    ensures
        edge == aabb.low(dimension),
{
    match dimension {
        Dimension::X => aabb.left(),
        Dimension::Y => aabb.bottom(),
    }
}

/// The upper edge of a box along `dimension`.
fn high_edge(aabb: &Aabb, dimension: Dimension) -> (edge: i64)
    ensures
        edge == aabb.high(dimension),
{
    match dimension {
        Dimension::X => aabb.right(),
        Dimension::Y => aabb.top(),
    }
}

/// The key by which a node that splits along `dimension` sorts its entries.
fn far_edge_of(entry: &Entry, dimension: Dimension) -> (edge: i64)
    ensures
        edge == far_edge(*entry, dimension),
{
    high_edge(&entry.aabb, dimension.neg())
}

/// Scans the entries for the extent that they cover along `dimension`.
fn extent_along(entries: &Vec<Entry>, dimension: Dimension) -> (bounds: (i64, i64))
    ensures
        bounds.0 == min_low(entries@, dimension),
        bounds.1 == max_high(entries@, dimension),
{
    let mut min: i64 = i64::MAX;
    let mut max: i64 = i64::MIN;
    let mut index: usize = 0;
    while index < entries.len()
        invariant
            index <= entries@.len(),
            min == min_low(entries@.take(index as int), dimension),
            max == max_high(entries@.take(index as int), dimension),
        decreases entries@.len() - index,
    {
        proof {
            let seen = entries@.take(index as int + 1);
            assert(seen.drop_last() =~= entries@.take(index as int));
            assert(seen.last() == entries@[index as int]);
        }
        let low: i64 = low_edge(&entries[index].aabb, dimension);
        let high: i64 = high_edge(&entries[index].aabb, dimension);
        if low < min {
            min = low;
        }
        if high > max {
            max = high;
        }
        index += 1;
    }
    proof {
        assert(entries@.take(index as int) =~= entries@);
    }
    (min, max)
}

/// Sorts the entries by their far edge with `sort_unstable_by_key` of the
/// standard library's slices. Trusted: the slice afterwards holds the same
/// entries, each as often as before, in ascending order of the key; entries
/// with equal keys may come in any order.
#[verifier::external_body]
fn sort_by_far_edge(entries: &mut Vec<Entry>, dimension: Dimension)
    ensures
        final(entries)@.to_multiset() == old(entries)@.to_multiset(),
        sorted_by_far_edge(final(entries)@, dimension),
{
    entries.sort_unstable_by_key(|entry| far_edge_of(entry, dimension));
}

/// The extent of a non-empty list is attained: some entry has the smallest
/// lower edge, some entry has the largest upper edge, and every entry lies
/// within the two.
pub proof fn lemma_extent_attained(entries: Seq<Entry>, dimension: Dimension)
    requires
        entries.len() > 0,
    ensures
        exists|i: int|
            0 <= i < entries.len() && (#[trigger] entries[i]).aabb.low(dimension) == min_low(
                entries,
                dimension,
            ),
        exists|j: int|
            0 <= j < entries.len() && (#[trigger] entries[j]).aabb.high(dimension) == max_high(
                entries,
                dimension,
            ),
        forall|k: int|
            0 <= k < entries.len() ==> min_low(entries, dimension) <= (
            #[trigger] entries[k]).aabb.low(dimension) && entries[k].aabb.high(dimension)
                <= max_high(entries, dimension),
    decreases entries.len(),
{
    let front = entries.drop_last();
    let last = entries.len() - 1;
    if front.len() == 0 {
        assert(entries[last].aabb.low(dimension) == min_low(entries, dimension));
        assert(entries[last].aabb.high(dimension) == max_high(entries, dimension));
    } else {
        lemma_extent_attained(front, dimension);
        let i = choose|i: int|
            0 <= i < front.len() && (#[trigger] front[i]).aabb.low(dimension) == min_low(
                front,
                dimension,
            );
        let j = choose|j: int|
            0 <= j < front.len() && (#[trigger] front[j]).aabb.high(dimension) == max_high(
                front,
                dimension,
            );
        assert(front[i] == entries[i]);
        assert(front[j] == entries[j]);
        if entries[last].aabb.low(dimension) < min_low(front, dimension) {
            assert(entries[last].aabb.low(dimension) == min_low(entries, dimension));
        } else {
            assert(entries[i].aabb.low(dimension) == min_low(entries, dimension));
        }
        if entries[last].aabb.high(dimension) > max_high(front, dimension) {
            assert(entries[last].aabb.high(dimension) == max_high(entries, dimension));
        } else {
            assert(entries[j].aabb.high(dimension) == max_high(entries, dimension));
        }
        assert forall|k: int| 0 <= k < entries.len() implies min_low(entries, dimension) <= (
        #[trigger] entries[k]).aabb.low(dimension) && entries[k].aabb.high(dimension) <= max_high(
            entries,
            dimension,
        ) by {
            if k < last {
                assert(front[k] == entries[k]);
            }
        }
    }
}

/// Splitting a non-empty list of well-formed boxes at the midpoint of its
/// extent leaves at least one entry out of each side, so both sides are
/// shorter than the list.
pub proof fn lemma_split_shrinks(entries: Seq<Entry>, dimension: Dimension)
    requires
        entries.len() > 0,
        all_wf(entries),
    ensures
        entries.filter(in_bucket(split_of(entries, dimension), Bucket::Below)).len()
            < entries.len(),
        entries.filter(in_bucket(split_of(entries, dimension), Bucket::Above)).len()
            < entries.len(),
{
    lemma_extent_attained(entries, dimension);
    let partition = split_of(entries, dimension);
    let i = choose|i: int|
        0 <= i < entries.len() && (#[trigger] entries[i]).aabb.low(dimension) == min_low(
            entries,
            dimension,
        );
    let j = choose|j: int|
        0 <= j < entries.len() && (#[trigger] entries[j]).aabb.high(dimension) == max_high(
            entries,
            dimension,
        );
    assert(entries[i].aabb.wf());
    assert(min_low(entries, dimension) <= entries[i].aabb.high(dimension) <= max_high(
        entries,
        dimension,
    ));
    lemma_midpoint_between(min_low(entries, dimension), max_high(entries, dimension));
    assert(!in_bucket(partition, Bucket::Below)(entries[j]));
    assert(!in_bucket(partition, Bucket::Above)(entries[i]));
    lemma_filter_drops(entries, in_bucket(partition, Bucket::Below), j);
    lemma_filter_drops(entries, in_bucket(partition, Bucket::Above), i);
}

} // verus!
