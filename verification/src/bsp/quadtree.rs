//! A tree that cuts space into four quadrants at each level.

use vstd::prelude::*;

use super::aabb::{lemma_intersects_container, lemma_merged_contains, Aabb};
use super::entry::{all_wf, boxes, boxes_of, Entry};
use crate::sequence::lemma_filter_membership;
use crate::util::midpoint_spec;

verus! {

/// A list of at most this many entries is kept in a leaf.
pub const LEAF_CAPACITY: usize = 3;

/// A node at this depth is a leaf, however many entries it holds.
pub const MAX_DEPTH: usize = 5;

/// The four subtrees of an internal node.
struct Quadrants {
    top_left: Node,
    top_right: Node,
    bottom_left: Node,
    bottom_right: Node,
}

/// A node of the tree. A leaf owns its entries; an internal node owns none
/// and hands each entry to every quadrant that the entry's box reaches.
struct Node {
    entries: Vec<Entry>,
    aabb: Aabb,
    children: Option<Box<Quadrants>>,
}

/// A tree over a list of entries that answers which of them a box reaches.
pub struct Quadtree<const S: usize> {
    root: Box<Node>,
    built: Ghost<Seq<Entry>>,
}

/// One quarter of a box, cut at the box's center: 0 is the top-left
/// quarter, 1 the top-right, 2 the bottom-left and 3 the bottom-right one.
/// Neighbouring quarters share the cut.
pub open spec fn quadrant(aabb: Aabb, corner: int) -> Aabb {
    let center_x = midpoint_spec(aabb.spec_left() as int, aabb.spec_right() as int) as i64;
    let center_y = midpoint_spec(aabb.spec_bottom() as int, aabb.spec_top() as int) as i64;
    if corner == 0 {
        Aabb::from_edges(aabb.spec_left(), center_x, aabb.spec_top(), center_y)
    } else if corner == 1 {
        Aabb::from_edges(center_x, aabb.spec_right(), aabb.spec_top(), center_y)
    } else if corner == 2 {
        Aabb::from_edges(aabb.spec_left(), center_x, center_y, aabb.spec_bottom())
    } else {
        Aabb::from_edges(center_x, aabb.spec_right(), center_y, aabb.spec_bottom())
    }
}

/// The entries whose box intersects `region`.
pub open spec fn reaching(region: Aabb) -> spec_fn(Entry) -> bool {
    |entry: Entry| entry.aabb.spec_intersects(&region)
}

/// The hull of the entries' boxes, or the box at the origin where there
/// are no entries.
pub open spec fn hull_or_origin(entries: Seq<Entry>) -> Aabb {
    match Aabb::merged_spec(boxes_of(entries)) {
        Some(hull) => hull,
        None => Aabb::from_edges(0, 0, 0, 0),
    }
}

impl Node {
    /// Whether this node is the tree over `entries` at the given depth.
    spec fn built_from(&self, entries: Seq<Entry>, depth: nat) -> bool
        decreases self,
    {
        if entries.len() <= LEAF_CAPACITY || depth >= MAX_DEPTH {
            &&& self.entries@ == entries
            &&& self.aabb == hull_or_origin(entries)
            &&& self.children is None
        } else {
            let hull = hull_or_origin(entries);
            &&& self.entries@.len() == 0
            &&& self.aabb == hull
            &&& self.children matches Some(children)
            &&& children.top_left.built_from(entries.filter(reaching(quadrant(hull, 0))), depth + 1)
            &&& children.top_right.built_from(
                entries.filter(reaching(quadrant(hull, 1))),
                depth + 1,
            )
            &&& children.bottom_left.built_from(
                entries.filter(reaching(quadrant(hull, 2))),
                depth + 1,
            )
            &&& children.bottom_right.built_from(
                entries.filter(reaching(quadrant(hull, 3))),
                depth + 1,
            )
        }
    }

    /// The entries that a query collects from this subtree, in the order in
    /// which it collects them. An entry that reaches several quadrants is
    /// collected once from each.
    spec fn found(&self, query: Entry) -> Seq<Entry>
        decreases self,
    {
        if !query.aabb.spec_intersects(&self.aabb) {
            Seq::empty()
        } else {
            match self.children {
                Some(children) => children.top_left.found(query) + children.top_right.found(query)
                    + children.bottom_left.found(query) + children.bottom_right.found(query),
                None => self.entries@.filter(reaching(query.aabb)),
            }
        }
    }

    /// Builds the subtree over `entries` at the given depth.
    fn new(entries: Vec<Entry>, depth: usize) -> (node: Self)
        requires
            all_wf(entries@),
        ensures
            node.built_from(entries@, depth as nat),
        decreases MAX_DEPTH - depth,
    {
        let boxes = boxes(&entries);
        let aabb = Aabb::merged(boxes.as_slice());
        if entries.len() <= LEAF_CAPACITY || depth >= MAX_DEPTH {
            let aabb = match aabb {
                Some(hull) => hull,
                None => Aabb::default(),
            };
            return Self { entries, aabb, children: None };
        }
        if let Some(aabb) = aabb {
            let center = aabb.center();
            proof {
                crate::util::lemma_midpoint_between(aabb.left() as int, aabb.right() as int);
                crate::util::lemma_midpoint_between(aabb.bottom() as int, aabb.top() as int);
            }
            let tl_aabb = Aabb::new(aabb.left(), center.x, aabb.top(), center.y);
            let tr_aabb = Aabb::new(center.x, aabb.right(), aabb.top(), center.y);
            let bl_aabb = Aabb::new(aabb.left(), center.x, center.y, aabb.bottom());
            let br_aabb = Aabb::new(center.x, aabb.right(), center.y, aabb.bottom());

            let mut tl_entries: Vec<Entry> = Vec::new();
            let mut tr_entries: Vec<Entry> = Vec::new();
            let mut bl_entries: Vec<Entry> = Vec::new();
            let mut br_entries: Vec<Entry> = Vec::new();

            let mut index: usize = 0;
            while index < entries.len()
                invariant
                    index <= entries@.len(),
                    all_wf(entries@),
                    all_wf(tl_entries@),
                    all_wf(tr_entries@),
                    all_wf(bl_entries@),
                    all_wf(br_entries@),
                    tl_entries@ == entries@.take(index as int).filter(reaching(tl_aabb)),
                    tr_entries@ == entries@.take(index as int).filter(reaching(tr_aabb)),
                    bl_entries@ == entries@.take(index as int).filter(reaching(bl_aabb)),
                    br_entries@ == entries@.take(index as int).filter(reaching(br_aabb)),
                decreases entries@.len() - index,
            {
                let entry = entries[index];
                proof {
                    let seen = entries@.take(index as int);
                    assert(entries@.take(index as int + 1) =~= seen.push(entry));
                    seen.lemma_filter_push(entry, reaching(tl_aabb));
                    seen.lemma_filter_push(entry, reaching(tr_aabb));
                    seen.lemma_filter_push(entry, reaching(bl_aabb));
                    seen.lemma_filter_push(entry, reaching(br_aabb));
                }
                if entry.aabb.intersects(&tl_aabb) {
                    tl_entries.push(entry);
                }
                if entry.aabb.intersects(&tr_aabb) {
                    tr_entries.push(entry);
                }
                if entry.aabb.intersects(&bl_aabb) {
                    bl_entries.push(entry);
                }
                if entry.aabb.intersects(&br_aabb) {
                    br_entries.push(entry);
                }
                index += 1;
            }
            proof {
                assert(entries@.take(index as int) =~= entries@);
            }

            let children = Quadrants {
                top_left: Self::new(tl_entries, depth + 1),
                top_right: Self::new(tr_entries, depth + 1),
                bottom_left: Self::new(bl_entries, depth + 1),
                bottom_right: Self::new(br_entries, depth + 1),
            };
            Self { entries: Vec::new(), aabb, children: Some(Box::new(children)) }
        } else {
            Self { entries: Vec::new(), aabb: Aabb::default(), children: None }
        }
    }

    /// Appends to `collisions` the entries of this subtree whose box
    /// intersects the query's box.
    fn collect_collisions(&self, entry: &Entry, collisions: &mut Vec<Entry>)
        ensures
            final(collisions)@ == old(collisions)@ + self.found(*entry),
        decreases self,
    {
        if !entry.aabb.intersects(&self.aabb) {
            assert(collisions@ =~= old(collisions)@ + self.found(*entry));
            return ;
        }
        if let Some(children) = &self.children {
            children.top_left.collect_collisions(entry, collisions);
            children.top_right.collect_collisions(entry, collisions);
            children.bottom_left.collect_collisions(entry, collisions);
            children.bottom_right.collect_collisions(entry, collisions);
            assert(collisions@ =~= old(collisions)@ + self.found(*entry));
        } else {
            let mut index: usize = 0;
            assert(self.entries@.take(0).filter(reaching(entry.aabb)) =~= Seq::<Entry>::empty())
                by {
                reveal(Seq::filter);
            }
            while index < self.entries.len()
                invariant
                    index <= self.entries@.len(),
                    collisions@ == old(collisions)@ + self.entries@.take(index as int).filter(
                        reaching(entry.aabb),
                    ),
                decreases self.entries@.len() - index,
            {
                let other = self.entries[index];
                proof {
                    let seen = self.entries@.take(index as int);
                    assert(self.entries@.take(index as int + 1) =~= seen.push(other));
                    seen.lemma_filter_push(other, reaching(entry.aabb));
                }
                if other.aabb.intersects(&entry.aabb) {
                    collisions.push(other);
                }
                assert(collisions@ =~= old(collisions)@ + self.entries@.take(
                    index as int + 1,
                ).filter(reaching(entry.aabb)));
                index += 1;
            }
            assert(self.entries@.take(index as int) =~= self.entries@);
        }
    }
}

impl<const S: usize> View for Quadtree<S> {
    type V = Seq<Entry>;

    /// The entries that the tree was built from, in their order.
    closed spec fn view(&self) -> Seq<Entry> {
        self.built@
    }
}

impl<const S: usize> Quadtree<S> {
    #[verifier::type_invariant]
    spec fn well_formed(&self) -> bool {
        &&& all_wf(self.built@)
        &&& self.root.built_from(self.built@, 0)
    }

    /// The entries that a query collects, in the order in which it collects
    /// them.
    pub closed spec fn found(&self, query: Entry) -> Seq<Entry> {
        self.root.found(query)
    }

    /// Builds the tree over `entries`.
    pub fn new(entries: Vec<Entry>) -> (tree: Self)
        requires
            all_wf(entries@),
        ensures
            tree@ == entries@,
    {
        let ghost built = entries@;
        Self { root: Box::new(Node::new(entries, 0)), built: Ghost(built) }
    }

    /// Appends to `collisions` every entry of the tree whose box intersects
    /// the query's box, the query's own entry included where the tree
    /// holds it. An entry may be appended more than once.
    pub fn collect_collisions(&self, entry: &Entry, collisions: &mut Vec<Entry>)
        ensures
            final(collisions)@ == old(collisions)@ + self.found(*entry),
            forall|other: Entry|
                self.found(*entry).contains(other) <==> self@.contains(other)
                    && other.aabb.spec_intersects(&entry.aabb),
    {
        proof {
            use_type_invariant(self);
            assert forall|other: Entry|
                self.found(*entry).contains(other) <==> self@.contains(other)
                    && other.aabb.spec_intersects(&entry.aabb) by {
                lemma_found_are_reached(*self.root, self.built@, 0, *entry, other);
            }
        }
        self.root.collect_collisions(entry, collisions);
    }
}

/// A well-formed box inside a well-formed hull reaches at least one of the
/// hull's quarters.
pub proof fn lemma_some_quadrant_reached(hull: Aabb, inner: Aabb)
    requires
        hull.wf(),
        inner.wf(),
        hull.contains(&inner),
    ensures
        exists|corner: int| 0 <= corner < 4 && inner.spec_intersects(&#[trigger] quadrant(hull, corner)),
{
    let center_x = midpoint_spec(hull.spec_left() as int, hull.spec_right() as int);
    let center_y = midpoint_spec(hull.spec_bottom() as int, hull.spec_top() as int);
    crate::util::lemma_midpoint_between(hull.spec_left() as int, hull.spec_right() as int);
    crate::util::lemma_midpoint_between(hull.spec_bottom() as int, hull.spec_top() as int);
    if inner.spec_left() <= center_x {
        if inner.spec_bottom() <= center_y {
            assert(inner.spec_intersects(&quadrant(hull, 2)));
        } else {
            assert(inner.spec_intersects(&quadrant(hull, 0)));
        }
    } else {
        if inner.spec_bottom() <= center_y {
            assert(inner.spec_intersects(&quadrant(hull, 3)));
        } else {
            assert(inner.spec_intersects(&quadrant(hull, 1)));
        }
    }
}

/// A query collects from a tree exactly the entries, among those that the
/// tree was built from, whose box intersects the query's box.
proof fn lemma_found_are_reached(
    node: Node,
    entries: Seq<Entry>,
    depth: nat,
    query: Entry,
    other: Entry,
)
    requires
        all_wf(entries),
        node.built_from(entries, depth),
    ensures
        node.found(query).contains(other) <==> entries.contains(other)
            && other.aabb.spec_intersects(&query.aabb),
    decreases node,
{
    broadcast use vstd::seq_lib::lemma_seq_concat_contains_all_elements;

    let wanted = entries.contains(other) && other.aabb.spec_intersects(&query.aabb);
    if entries.contains(other) {
        let i = choose|i: int| 0 <= i < entries.len() && entries[i] == other;
        lemma_merged_contains(boxes_of(entries), i);
        if other.aabb.spec_intersects(&query.aabb) {
            lemma_intersects_container(query.aabb, hull_or_origin(entries), other.aabb);
        }
    }
    if entries.len() <= LEAF_CAPACITY || depth >= MAX_DEPTH {
        lemma_filter_membership(entries, reaching(query.aabb), other);
    } else {
        let hull = hull_or_origin(entries);
        let children = node.children->0;
        let first = entries.filter(reaching(quadrant(hull, 0)));
        let second = entries.filter(reaching(quadrant(hull, 1)));
        let third = entries.filter(reaching(quadrant(hull, 2)));
        let fourth = entries.filter(reaching(quadrant(hull, 3)));
        lemma_filter_keeps_wf(entries, reaching(quadrant(hull, 0)));
        lemma_filter_keeps_wf(entries, reaching(quadrant(hull, 1)));
        lemma_filter_keeps_wf(entries, reaching(quadrant(hull, 2)));
        lemma_filter_keeps_wf(entries, reaching(quadrant(hull, 3)));
        lemma_found_are_reached(children.top_left, first, depth + 1, query, other);
        lemma_found_are_reached(children.top_right, second, depth + 1, query, other);
        lemma_found_are_reached(children.bottom_left, third, depth + 1, query, other);
        lemma_found_are_reached(children.bottom_right, fourth, depth + 1, query, other);
        lemma_filter_membership(entries, reaching(quadrant(hull, 0)), other);
        lemma_filter_membership(entries, reaching(quadrant(hull, 1)), other);
        lemma_filter_membership(entries, reaching(quadrant(hull, 2)), other);
        lemma_filter_membership(entries, reaching(quadrant(hull, 3)), other);
        if wanted {
            let i = choose|i: int| 0 <= i < entries.len() && entries[i] == other;
            assert(entries[i].aabb.wf());
            lemma_merged_contains(boxes_of(entries), 0);
            lemma_hull_wf(entries);
            lemma_some_quadrant_reached(hull, other.aabb);
            assert(query.aabb.spec_intersects(&node.aabb));
            assert(node.found(query) =~= children.top_left.found(query)
                + children.top_right.found(query) + children.bottom_left.found(query)
                + children.bottom_right.found(query));
        }
    }
}

/// The entries that a filter keeps from well-formed entries are well-formed.
pub proof fn lemma_filter_keeps_wf(entries: Seq<Entry>, pred: spec_fn(Entry) -> bool)
    requires
        all_wf(entries),
    ensures
        all_wf(entries.filter(pred)),
{
    let kept = entries.filter(pred);
    assert forall|k: int| 0 <= k < kept.len() implies (#[trigger] kept[k]).aabb.wf() by {
        assert(kept.contains(kept[k]));
        entries.lemma_filter_contains_rev(pred, kept[k]);
        let i = choose|i: int| 0 <= i < entries.len() && entries[i] == kept[k];
        assert(entries[i].aabb.wf());
    }
}

/// The hull of well-formed boxes is well-formed.
pub proof fn lemma_hull_wf(entries: Seq<Entry>)
    requires
        all_wf(entries),
        entries.len() > 0,
    ensures
        hull_or_origin(entries).wf(),
{
    lemma_merged_contains(boxes_of(entries), 0);
    assert(entries[0].aabb.wf());
}

} // verus!
