//! Splitting planes and the side of a plane a box lies on.

use vstd::prelude::*;
use core::ops::Neg;

use super::aabb::Aabb;

verus! {

/// One of the two coordinate axes.
#[derive(PartialEq, Eq, Clone, Copy, Debug, Structural)]
pub enum Dimension {
    X,
    Y,
}

impl Dimension {
    /// The other axis.
    pub open spec fn flipped(self) -> Dimension {
        match self {
            Dimension::X => Dimension::Y,
            Dimension::Y => Dimension::X,
        }
    }
}

impl core::ops::Neg for Dimension {
    type Output = Self;

    /// Negating an axis gives the other axis.
    fn neg(self) -> (r: Self) {
        if self == Self::X {
            Self::Y
        } else {
            Self::X
        }
    }
}

impl vstd::std_specs::ops::NegSpecImpl for Dimension {
    open spec fn obeys_neg_spec() -> bool {
        true
    }

    open spec fn neg_req(self) -> bool {
        true
    }

    open spec fn neg_spec(self) -> Dimension {
        self.flipped()
    }
}

/// A plane perpendicular to `dimension`, at coordinate `value`.
#[derive(Clone, Copy, Debug, PartialEq, Eq, Structural)]
pub struct Partition {
    pub dimension: Dimension,
    pub value: i64,
}

/// Where a box lies relative to a partition.
#[derive(PartialEq, Eq, Clone, Copy, Debug, Structural)]
pub enum Bucket {
    Below,
    Intersecting,
    Above,
}

impl Partition {
    /// The side of the plane that `aabb` lies on. A box whose upper edge is
    /// under the plane is below it, a box whose lower edge is over the plane
    /// is above it, and a box that reaches or touches the plane intersects it.
    pub open spec fn spec_classify(&self, aabb: &Aabb) -> Bucket {
        if aabb.high(self.dimension) < self.value {
            Bucket::Below
        } else if aabb.low(self.dimension) > self.value {
            Bucket::Above
        } else {
            Bucket::Intersecting
        }
    }

    /// Classifies `aabb` against the plane. A box is reported as
    /// intersecting exactly when the plane's coordinate lies within the
    /// box's closed extent along the plane's axis.
    #[verifier::when_used_as_spec(spec_classify)]
    pub fn classify(&self, aabb: &Aabb) -> (bucket: Bucket)
        ensures
            bucket == self.spec_classify(aabb),
            bucket == Bucket::Intersecting <==> aabb.low(self.dimension) <= self.value
                <= aabb.high(self.dimension),
            bucket == Bucket::Below <==> aabb.high(self.dimension) < self.value,
            aabb.wf() ==> (bucket == Bucket::Above <==> self.value < aabb.low(self.dimension)),
    {
        match self.dimension {
            Dimension::X => {
                if aabb.right() < self.value {
                    Bucket::Below
                } else if aabb.left() > self.value {
                    Bucket::Above
                } else {
                    Bucket::Intersecting
                }
            },
            Dimension::Y => {
                if aabb.top() < self.value {
                    Bucket::Below
                } else if aabb.bottom() > self.value {
                    Bucket::Above
                } else {
                    Bucket::Intersecting
                }
            },
        }
    }
}

/// A box that a partition classifies as intersecting meets the plane: the
/// plane's coordinate lies within the box's extent along the plane's axis.
pub proof fn lemma_intersecting_meets_plane(partition: Partition, aabb: Aabb)
    requires
        partition.spec_classify(&aabb) == Bucket::Intersecting,
    ensures
        aabb.low(partition.dimension) <= partition.value <= aabb.high(partition.dimension),
{
}

/// Two boxes on opposite sides of a partition do not intersect.
pub proof fn lemma_opposite_sides_disjoint(partition: Partition, below: Aabb, above: Aabb)
    requires
        partition.spec_classify(&below) == Bucket::Below,
        partition.spec_classify(&above) == Bucket::Above,
    ensures
        !below.spec_intersects(&above),
        !above.spec_intersects(&below),
{
}

} // verus!
