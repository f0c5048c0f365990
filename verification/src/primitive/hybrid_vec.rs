//! A vector that keeps its elements inline until they outgrow a fixed
//! capacity, and on the heap from then on.

use vstd::prelude::*;

use core::ops::{Deref, DerefMut};

use super::stack_vec::StackVec;

verus! {

/// Where the elements are kept.
#[derive(Clone)]
enum VecType<T: Copy, const S: usize> {
    Stack(StackVec<T, S>),
    Heap(Vec<T>),
}

/// A vector that holds its first `S` elements inline. The push that finds
/// the inline storage full moves the elements to the heap, where they stay.
#[derive(Clone)]
pub struct HybridVec<T: Copy + Clone, const S: usize> {
    vec: VecType<T, S>,
}

impl<T: Copy + Clone, const S: usize> View for HybridVec<T, S> {
    type V = Seq<T>;

    /// The elements that were pushed and not yet popped, oldest first.
    closed spec fn view(&self) -> Seq<T> {
        match self.vec {
            VecType::Stack(sv) => sv@,
            VecType::Heap(hv) => hv@,
        }
    }
}

impl<T: Copy + Clone, const S: usize> HybridVec<T, S> {
    /// Whether the elements have moved to the heap.
    pub closed spec fn spilled(&self) -> bool {
        self.vec is Heap
    }
}

impl<T, const S: usize> HybridVec<T, S> where T: Copy + Default {
    /// An empty vector, with inline storage.
    pub fn new() -> (hybrid_vec: Self)
        ensures
            hybrid_vec@ == Seq::<T>::empty(),
            !hybrid_vec.spilled(),
    {
        Self { vec: VecType::Stack(StackVec::new()) }
    }

    /// Appends `t`. Where the inline storage is full, the elements move to
    /// the heap first.
    pub fn push(&mut self, t: T)
        ensures
            final(self)@ == old(self)@.push(t),
            final(self).spilled() == (old(self).spilled() || old(self)@.len() == S),
    {
        let mut transmutation_necessary = false;
        match &mut self.vec {
            VecType::Stack(sv) => {
                if sv.len() == sv.capacity() {
                    transmutation_necessary = true;
                } else {
                    sv.push(t);
                }
            },
            VecType::Heap(hv) => hv.push(t),
        }

        if transmutation_necessary {
            let capacity: usize = self.capacity();
            let doubled: usize = if capacity <= usize::MAX / 2 {
                capacity * 2
            } else {
                usize::MAX
            };
            let mut hv = Vec::<T>::with_capacity(doubled);
            if let VecType::Stack(sv) = &self.vec {
                let items: &[T] = sv.deref();
                let mut index: usize = 0;
                while index < items.len()
                    invariant
                        index <= items@.len(),
                        hv@ == items@.take(index as int),
                    decreases items@.len() - index,
                {
                    hv.push(items[index]);
                    assert(hv@ =~= items@.take(index as int + 1));
                    index += 1;
                }
                assert(items@.take(index as int) =~= items@);
            }
            hv.push(t);
            self.vec = VecType::Heap(hv);
        }
    }

    /// Removes the newest element and returns it, or returns nothing where
    /// the vector is empty. The elements stay where they are kept.
    pub fn pop(&mut self) -> (popped: Option<T>)
        ensures
            old(self)@.len() == 0 ==> popped is None && final(self)@ == old(self)@,
            old(self)@.len() > 0 ==> popped == Some(old(self)@.last()) && final(self)@ == old(
                self,
            )@.drop_last(),
            final(self).spilled() == old(self).spilled(),
    {
        match &mut self.vec {
            VecType::Stack(sv) => sv.pop(),
            VecType::Heap(hv) => hv.pop(),
        }
    }

    /// The number of elements.
    pub fn len(&self) -> (len: usize)
        ensures
            len == self@.len(),
            !self.spilled() ==> len <= S,
    {
        match &self.vec {
            VecType::Stack(sv) => sv.len(),
            VecType::Heap(hv) => hv.len(),
        }
    }

    /// The number of elements that fit the storage in use: `S` while the
    /// elements are inline, and what the heap vector reports afterwards.
    pub fn capacity(&self) -> (capacity: usize)
        ensures
            !self.spilled() ==> capacity == S,
            capacity >= self@.len(),
    {
        match &self.vec {
            VecType::Stack(sv) => sv.capacity(),
            VecType::Heap(hv) => heap_capacity(hv),
        }
    }

    /// Removes all elements. The storage in use stays in use.
    pub fn clear(&mut self)
        ensures
            final(self)@ == Seq::<T>::empty(),
            final(self).spilled() == old(self).spilled(),
    {
        match &mut self.vec {
            VecType::Stack(sv) => sv.clear(),
            VecType::Heap(hv) => hv.clear(),
        }
    }

    /// Whether the vector holds no element.
    pub fn is_empty(&self) -> (empty: bool)
        ensures
            empty == (self@.len() == 0),
    {
        match &self.vec {
            VecType::Stack(sv) => sv.is_empty(),
            VecType::Heap(hv) => hv.is_empty(),
        }
    }

    /// Appends the items in their order. The elements move to the heap
    /// where one of the items finds the inline storage full.
    pub fn extend(&mut self, items: &[T])
        ensures
            final(self)@ == old(self)@ + items@,
            final(self).spilled() == (old(self).spilled() || old(self)@.len() <= S < old(
                self,
            )@.len() + items@.len()),
    {
        let mut index: usize = 0;
        while index < items.len()
            invariant
                index <= items@.len(),
                self@ == old(self)@ + items@.take(index as int),
                self.spilled() == (old(self).spilled() || old(self)@.len() <= S < old(
                    self,
                )@.len() + index),
            decreases items@.len() - index,
        {
            self.push(items[index]);
            assert(self@ =~= old(self)@ + items@.take(index as int + 1));
            index += 1;
        }
        assert(items@.take(index as int) =~= items@);
    }

    /// The vector that holds the items in their order.
    pub fn from_iter(items: &[T]) -> (hybrid_vec: Self)
        ensures
            hybrid_vec@ == items@,
            hybrid_vec.spilled() == (items@.len() > S),
    {
        let mut result = HybridVec::<T, S>::new();
        result.extend(items);
        assert(result@ =~= items@);
        result
    }
}

impl<T, const S: usize> Default for HybridVec<T, S> where T: Copy + Default {
    /// An empty vector, with inline storage.
    fn default() -> (hybrid_vec: Self)
        ensures
            hybrid_vec@ == Seq::<T>::empty(),
            !hybrid_vec.spilled(),
    {
        Self::new()
    }
}

impl<T, const S: usize> From<Vec<T>> for HybridVec<T, S> where T: Copy + Default {
    /// The vector that holds the elements of `value` in their order.
    fn from(value: Vec<T>) -> (hybrid_vec: Self)
        ensures
            hybrid_vec@ == value@,
            hybrid_vec.spilled() == (value@.len() > S),
    {
        Self::from_iter(value.as_slice())
    }
}

impl<T, const S: usize> vstd::std_specs::convert::FromSpecImpl<Vec<T>> for HybridVec<T, S> where T: Copy + Default {
    /// Two vectors built from the same elements agree in what they hold,
    /// not in where their storage lies, so no single value is promised.
    open spec fn obeys_from_spec() -> bool {
        false
    }

    open spec fn from_spec(value: Vec<T>) -> Self {
        choose|hybrid_vec: Self| hybrid_vec@ == value@
    }
}

impl<T: Copy, const S: usize> Deref for HybridVec<T, S> {
    type Target = [T];

    /// The elements as a slice.
    fn deref(&self) -> (slice: &[T])
        ensures
            slice@ == self@,
    {
        match &self.vec {
            VecType::Stack(sv) => sv.deref(),
            VecType::Heap(hv) => hv.as_slice(),
        }
    }
}

impl<T: Copy, const S: usize> core::ops::DerefMut for HybridVec<T, S> {
    /// The elements as a mutable slice.
    fn deref_mut(&mut self) -> (slice: &mut [T])
        ensures
            slice@ == old(self)@,
            final(self)@ == final(slice)@,
            final(self).spilled() == old(self).spilled(),
    {
        match &mut self.vec {
            VecType::Stack(sv) => sv.deref_mut(),
            VecType::Heap(hv) => hv.as_mut_slice(),
        }
    }
}

/// Calls `Vec::capacity` of the standard library. Trusted: a vector's
/// capacity is at least its length. How much more was allocated is left open.
#[verifier::external_body]
fn heap_capacity<T>(vec: &Vec<T>) -> (capacity: usize)
    ensures
        capacity >= vec@.len(),
{
    vec.capacity()
}

} // verus!
