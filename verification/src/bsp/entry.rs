//! What the tree knows of a body: its identity and its bounding box.

use vstd::prelude::*;

use super::aabb::Aabb;

verus! {

/// A bounding box together with the identifier of the body it surrounds.
#[derive(Clone, Copy, Debug, PartialEq, Eq, Structural)]
pub struct Entry {
    pub id: usize,
    pub aabb: Aabb,
}

impl Default for Entry {
    /// The entry with identifier zero and the box that holds only the origin.
    fn default() -> (entry: Self)
        ensures
            entry.id == 0,
            entry.aabb == Aabb::from_edges(0, 0, 0, 0),
    {
        Self { id: 0, aabb: Aabb::default() }
    }
}

/// The boxes of a sequence of entries, in the same order.
pub open spec fn boxes_of(entries: Seq<Entry>) -> Seq<Aabb> {
    entries.map_values(|entry: Entry| entry.aabb)
}

/// Every entry's box is well-formed.
pub open spec fn all_wf(entries: Seq<Entry>) -> bool {
    forall|i: int| 0 <= i < entries.len() ==> (#[trigger] entries[i]).aabb.wf()
}

/// The boxes of the entries, in the same order.
pub(crate) fn boxes(entries: &Vec<Entry>) -> (boxes: Vec<Aabb>)
    requires
        all_wf(entries@),
    ensures
        boxes@ == boxes_of(entries@),
        forall|i: int| 0 <= i < boxes@.len() ==> (#[trigger] boxes@[i]).wf(),
{
    let mut boxes: Vec<Aabb> = Vec::new();
    let mut index: usize = 0;
    while index < entries.len()
        invariant
            index <= entries@.len(),
            all_wf(entries@),
            boxes@ == boxes_of(entries@.take(index as int)),
        decreases entries@.len() - index,
    {
        proof {
            assert(entries@.take(index as int + 1) =~= entries@.take(index as int).push(
                entries@[index as int],
            ));
        }
        boxes.push(entries[index].aabb);
        assert(boxes@ =~= boxes_of(entries@.take(index as int + 1)));
        index += 1;
    }
    proof {
        assert(entries@.take(index as int) =~= entries@);
        assert forall|i: int| 0 <= i < boxes@.len() implies (#[trigger] boxes@[i]).wf() by {
            assert(boxes@[i] == entries@[i].aabb);
        }
    }
    boxes
}

} // verus!
