//! Axis-aligned bounding boxes.

use vstd::prelude::*;

use super::partition::{Dimension, Partition};
use crate::primitive::Vec2;
use crate::util::{midpoint, midpoint_spec};

verus! {

/// An axis-aligned box, held as its top-left and bottom-right corners.
/// The y axis points up: the top edge has the larger y coordinate.
#[derive(Clone, Copy, Debug, PartialEq, Eq, Structural)]
pub struct Aabb {
    pub top_left: Vec2,
    pub bottom_right: Vec2,
}

/// A partition value that lies outside the box it was meant to split:
/// the box reaches from `min` to `max` along the partition's axis.
#[derive(Clone, Copy, Debug, PartialEq, Eq, Structural)]
pub struct PartitionError {
    pub min: i64,
    pub max: i64,
    pub partition: i64,
}

impl Aabb {
    pub open spec fn spec_left(&self) -> i64 {
        self.top_left.x
    }

    pub open spec fn spec_right(&self) -> i64 {
        self.bottom_right.x
    }

    pub open spec fn spec_top(&self) -> i64 {
        self.top_left.y
    }

    pub open spec fn spec_bottom(&self) -> i64 {
        self.bottom_right.y
    }

    /// The box built from its four edges.
    pub open spec fn from_edges(left: i64, right: i64, top: i64, bottom: i64) -> Aabb {
        Aabb {
            top_left: Vec2 { x: left, y: top },
            bottom_right: Vec2 { x: right, y: bottom },
        }
    }

    /// The invariant of a box: its edges are not inverted.
    pub open spec fn wf(&self) -> bool {
        &&& self.spec_left() <= self.spec_right()
        &&& self.spec_bottom() <= self.spec_top()
    }

    /// The lower edge along `dimension`: left for X, bottom for Y.
    pub open spec fn low(&self, dimension: Dimension) -> i64 {
        match dimension {
            Dimension::X => self.spec_left(),
            Dimension::Y => self.spec_bottom(),
        }
    }

    /// The upper edge along `dimension`: right for X, top for Y.
    pub open spec fn high(&self, dimension: Dimension) -> i64 {
        match dimension {
            Dimension::X => self.spec_right(),
            Dimension::Y => self.spec_top(),
        }
    }

    /// Two boxes intersect when their closed intervals overlap on both axes;
    /// boxes that only touch count as intersecting.
    pub open spec fn spec_intersects(&self, rhs: &Aabb) -> bool {
        &&& self.spec_left() <= rhs.spec_right()
        &&& rhs.spec_left() <= self.spec_right()
        &&& self.spec_bottom() <= rhs.spec_top()
        &&& rhs.spec_bottom() <= self.spec_top()
    }

    /// No edge of `inner` lies outside `self`.
    pub open spec fn contains(&self, inner: &Aabb) -> bool {
        &&& self.spec_left() <= inner.spec_left()
        &&& inner.spec_right() <= self.spec_right()
        &&& self.spec_bottom() <= inner.spec_bottom()
        &&& inner.spec_top() <= self.spec_top()
    }

    /// The smallest box that contains both `self` and `other`.
    pub open spec fn hull(&self, other: &Aabb) -> Aabb {
        Aabb::from_edges(
            if self.spec_left() <= other.spec_left() {
                self.spec_left()
            } else {
                other.spec_left()
            },
            if self.spec_right() >= other.spec_right() {
                self.spec_right()
            } else {
                other.spec_right()
            },
            if self.spec_top() >= other.spec_top() {
                self.spec_top()
            } else {
                other.spec_top()
            },
            if self.spec_bottom() <= other.spec_bottom() {
                self.spec_bottom()
            } else {
                other.spec_bottom()
            },
        )
    }

    /// The hull of a sequence of boxes, folded from the left; none for the
    /// empty sequence.
    pub open spec fn merged_spec(boxes: Seq<Aabb>) -> Option<Aabb>
        decreases boxes.len(),
    {
        if boxes.len() == 0 {
            None
        } else if boxes.len() == 1 {
            Some(boxes[0])
        } else {
            Some(Aabb::merged_spec(boxes.drop_last())->0.hull(&boxes.last()))
        }
    }

    /// The two halves that `partition` cuts the box into, or the error that
    /// reports a partition value outside the box.
    pub open spec fn partition_spec(&self, partition: Partition) -> Result<
        (Aabb, Aabb),
        PartitionError,
    > {
        let min = self.low(partition.dimension);
        let max = self.high(partition.dimension);
        if partition.value < min || partition.value > max {
            Err(PartitionError { min, max, partition: partition.value })
        } else {
            match partition.dimension {
                Dimension::X => Ok(
                    (
                        Aabb::from_edges(
                            self.spec_left(),
                            partition.value,
                            self.spec_top(),
                            self.spec_bottom(),
                        ),
                        Aabb::from_edges(
                            partition.value,
                            self.spec_right(),
                            self.spec_top(),
                            self.spec_bottom(),
                        ),
                    ),
                ),
                Dimension::Y => Ok(
                    (
                        Aabb::from_edges(
                            self.spec_left(),
                            self.spec_right(),
                            partition.value,
                            self.spec_bottom(),
                        ),
                        Aabb::from_edges(
                            self.spec_left(),
                            self.spec_right(),
                            self.spec_top(),
                            partition.value,
                        ),
                    ),
                ),
            }
        }
    }

    /// Builds a box from its four edges, which must not be inverted.
    pub fn new(left: i64, right: i64, top: i64, bottom: i64) -> (aabb: Self)
        requires
            left <= right,
            bottom <= top,
        ensures
            aabb == Aabb::from_edges(left, right, top, bottom),
            aabb.wf(),
    {
        Self { top_left: Vec2::new_at(left, top), bottom_right: Vec2::new_at(right, bottom) }
    }

    /// The bottom-right corner.
    pub fn bottom_right(&self) -> (corner: Vec2)
        ensures
            corner == self.bottom_right,
    {
        Vec2::new_at(self.right(), self.bottom())
    }

    #[verifier::when_used_as_spec(spec_bottom)]
    pub fn bottom(&self) -> (edge: i64)
        ensures
            edge == self.spec_bottom(),
    {
        self.bottom_right.y
    }

    #[verifier::when_used_as_spec(spec_top)]
    pub fn top(&self) -> (edge: i64)
        ensures
            edge == self.spec_top(),
    {
        self.top_left.y
    }

    #[verifier::when_used_as_spec(spec_right)]
    pub fn right(&self) -> (edge: i64)
        ensures
            edge == self.spec_right(),
    {
        self.bottom_right.x
    }

    #[verifier::when_used_as_spec(spec_left)]
    pub fn left(&self) -> (edge: i64)
        ensures
            edge == self.spec_left(),
    {
        self.top_left.x
    }

    /// The width and height of the box, as a displacement. Each must fit
    /// the coordinate type.
    pub fn extent(&self) -> (size: Vec2)
        requires
            i64::MIN <= self.right() - self.left() <= i64::MAX,
            i64::MIN <= self.top() - self.bottom() <= i64::MAX,
        ensures
            size.x == self.right() - self.left(),
            size.y == self.top() - self.bottom(),
    {
        Vec2::new_at(self.right() - self.left(), self.top() - self.bottom())
    }

    /// Whether the two boxes overlap or touch.
    #[verifier::when_used_as_spec(spec_intersects)]
    pub fn intersects(&self, rhs: &Self) -> (overlap: bool)
        ensures
            overlap == self.spec_intersects(rhs),
    {
        self.left() <= rhs.right() && rhs.left() <= self.right() && self.bottom() <= rhs.top()
            && rhs.bottom() <= self.top()
    }

    /// The grid point at the middle of the box, each coordinate rounded
    /// towards negative infinity.
    pub fn center(&self) -> (middle: Vec2)
        ensures
            middle.x == midpoint_spec(self.left() as int, self.right() as int),
            middle.y == midpoint_spec(self.bottom() as int, self.top() as int),
    {
        Vec2::new_at(midpoint(self.left(), self.right()), midpoint(self.bottom(), self.top()))
    }

    /// Returns the smallest box that contains both boxes, and leaves `self`
    /// as it was. The hull must not be inverted, which holds as soon as one
    /// of the two boxes is well-formed.
    pub fn merge(&mut self, other: &Self) -> (merged: Self)
        requires
            old(self).hull(other).wf(),
        ensures
            *final(self) == *old(self),
            merged == old(self).hull(other),
            merged.contains(old(self)),
            merged.contains(other),
    {
        let left: i64 = if self.left() <= other.left() {
            self.left()
        } else {
            other.left()
        };
        let right: i64 = if self.right() >= other.right() {
            self.right()
        } else {
            other.right()
        };
        let top: i64 = if self.top() >= other.top() {
            self.top()
        } else {
            other.top()
        };
        let bottom: i64 = if self.bottom() <= other.bottom() {
            self.bottom()
        } else {
            other.bottom()
        };
        Self::new(left, right, top, bottom)
    }

    /// Folds `merge` over the boxes. No boxes give no result, rather than
    /// an empty box at the origin.
    pub fn merged(aabbs: &[Aabb]) -> (merged: Option<Aabb>)
        requires
            forall|i: int| 0 <= i < aabbs@.len() ==> (#[trigger] aabbs@[i]).wf(),
        ensures
            merged == Aabb::merged_spec(aabbs@),
            merged is None <==> aabbs@.len() == 0,
            merged matches Some(hull) ==> hull.wf() && forall|i: int|
                0 <= i < aabbs@.len() ==> hull.contains(#[trigger] &aabbs@[i]),
    {
        if aabbs.len() == 0 {
            return None;
        }
        let mut merged_aabb: Aabb = aabbs[0];
        let mut index: usize = 1;
        assert(aabbs@.take(1) =~= seq![aabbs@[0]]);
        while index < aabbs.len()
            invariant
                1 <= index <= aabbs@.len(),
                forall|i: int| 0 <= i < aabbs@.len() ==> (#[trigger] aabbs@[i]).wf(),
                Some(merged_aabb) == Aabb::merged_spec(aabbs@.take(index as int)),
                merged_aabb.wf(),
            decreases aabbs@.len() - index,
        {
            let next = merged_aabb.merge(&aabbs[index]);
            proof {
                let prefix = aabbs@.take(index as int + 1);
                assert(prefix.drop_last() =~= aabbs@.take(index as int));
                assert(prefix.last() == aabbs@[index as int]);
            }
            merged_aabb = next;
            index += 1;
        }
        proof {
            assert(aabbs@.take(index as int) =~= aabbs@);
            assert forall|i: int| 0 <= i < aabbs@.len() implies merged_aabb.contains(
                #[trigger] &aabbs@[i],
            ) by {
                lemma_merged_contains(aabbs@, i);
            }
        }
        Some(merged_aabb)
    }

    /// Splits the box in two along the partition's axis at its value. A
    /// value outside the box is reported with the box's extent on that axis.
    pub fn partition(&self, partition: Partition) -> (halves: Result<(Self, Self), PartitionError>)
        requires
            self.wf(),
        ensures
            halves == self.partition_spec(partition),
            halves is Ok <==> self.low(partition.dimension) <= partition.value <= self.high(
                partition.dimension,
            ),
            halves matches Ok(pair) ==> pair.0.wf() && pair.1.wf() && self.contains(&pair.0)
                && self.contains(&pair.1),
    {
        match partition.dimension {
            Dimension::X => {
                if partition.value < self.left() || partition.value > self.right() {
                    return Err(
                        PartitionError {
                            min: self.left(),
                            max: self.right(),
                            partition: partition.value,
                        },
                    );
                }
                Ok(
                    (
                        Self::new(self.left(), partition.value, self.top(), self.bottom()),
                        Self::new(partition.value, self.right(), self.top(), self.bottom()),
                    ),
                )
            },
            Dimension::Y => {
                if partition.value < self.bottom() || partition.value > self.top() {
                    return Err(
                        PartitionError {
                            min: self.bottom(),
                            max: self.top(),
                            partition: partition.value,
                        },
                    );
                }
                Ok(
                    (
                        Self::new(self.left(), self.right(), partition.value, self.bottom()),
                        Self::new(self.left(), self.right(), self.top(), partition.value),
                    ),
                )
            },
        }
    }
}

impl Default for Aabb {
    /// The box that holds only the origin.
    fn default() -> (aabb: Self)
        ensures
            aabb == Aabb::from_edges(0, 0, 0, 0),
    {
        Self { top_left: Vec2::new_at(0, 0), bottom_right: Vec2::new_at(0, 0) }
    }
}

/// Intersection does not depend on the order of the two boxes.
pub proof fn lemma_intersects_symmetric(a: Aabb, b: Aabb)
    ensures
        a.spec_intersects(&b) == b.spec_intersects(&a),
{
}

/// The hull of a non-empty sequence of boxes contains each of them: no box
/// has an edge outside the hull.
pub proof fn lemma_merged_contains(boxes: Seq<Aabb>, i: int)
    requires
        0 <= i < boxes.len(),
    ensures
        Aabb::merged_spec(boxes) is Some,
        Aabb::merged_spec(boxes)->0.contains(&boxes[i]),
    decreases boxes.len(),
{
    if boxes.len() > 1 {
        if i < boxes.len() - 1 {
            lemma_merged_contains(boxes.drop_last(), i);
        } else {
            lemma_merged_contains(boxes.drop_last(), 0);
        }
    }
}

/// The hull of a sequence of boxes is the smallest box around them: every
/// box that contains them all contains the hull.
pub proof fn lemma_merged_minimal(boxes: Seq<Aabb>, outer: Aabb)
    requires
        boxes.len() > 0,
        forall|i: int| 0 <= i < boxes.len() ==> outer.contains(#[trigger] &boxes[i]),
    ensures
        outer.contains(&Aabb::merged_spec(boxes)->0),
    decreases boxes.len(),
{
    if boxes.len() > 1 {
        let front = boxes.drop_last();
        assert forall|i: int| 0 <= i < front.len() implies outer.contains(#[trigger] &front[i]) by {
            assert(front[i] == boxes[i]);
        }
        lemma_merged_minimal(front, outer);
        assert(outer.contains(&boxes[boxes.len() - 1]));
    }
}

/// A box that intersects a box inside another also intersects the outer box.
pub proof fn lemma_intersects_container(query: Aabb, outer: Aabb, inner: Aabb)
    requires
        outer.contains(&inner),
        query.spec_intersects(&inner),
    ensures
        query.spec_intersects(&outer),
{
}

} // verus!
