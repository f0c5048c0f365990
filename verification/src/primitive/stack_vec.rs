//! A vector of fixed capacity that keeps its elements inline.

use vstd::prelude::*;

verus! {

/// A vector that holds up to `S` elements in an array of its own.
#[derive(Copy)]
pub struct StackVec<T, const S: usize> {
    data: [T; S],
    len: usize,
}

impl<T, const S: usize> View for StackVec<T, S> {
    type V = Seq<T>;

    /// The elements that were pushed and not yet popped, oldest first.
    closed spec fn view(&self) -> Seq<T> {
        self.data@.take(self.len as int)
    }
}

impl<T, const S: usize> StackVec<T, S> {
    #[verifier::type_invariant]
    spec fn well_formed(&self) -> bool {
        self.len <= S
    }
}

impl<T: Copy, const S: usize> Clone for StackVec<T, S> {
    /// A copy of the vector.
    fn clone(&self) -> (copy: Self)
        ensures
            copy == *self,
    {
        *self
    }
}

impl<T, const S: usize> StackVec<T, S> where T: Copy + Default {
    /// An empty vector.
    pub fn new() -> (stack_vec: Self)
        ensures
            stack_vec@ == Seq::<T>::empty(),
    {
        Self { data: [T::default();S], len: 0 }
    }

    /// Appends `t`. The vector must not be full.
    pub fn push(&mut self, t: T)
        requires
            old(self)@.len() < S,
        ensures
            final(self)@ == old(self)@.push(t),
    {
        proof {
            use_type_invariant(&*self);
        }
        self.data[self.len] = t;
        self.len += 1;
        assert(self@ =~= old(self)@.push(t));
    }

    /// Removes the newest element and returns it, or returns nothing where
    /// the vector is empty.
    pub fn pop(&mut self) -> (popped: Option<T>)
        ensures
            old(self)@.len() == 0 ==> popped is None && final(self)@ == old(self)@,
            old(self)@.len() > 0 ==> popped == Some(old(self)@.last()) && final(self)@ == old(
                self,
            )@.drop_last(),
    {
        proof {
            use_type_invariant(&*self);
        }
        let mut result = None;
        if !self.is_empty() {
            self.len -= 1;
            result = Some(self.data[self.len]);
            assert(self@ =~= old(self)@.drop_last());
        }
        result
    }

    /// The number of elements.
    pub fn len(&self) -> (len: usize)
        ensures
            len == self@.len(),
            len <= S,
    {
        proof {
            use_type_invariant(self);
        }
        self.len
    }

    /// The number of elements that the vector can hold.
    pub fn capacity(&self) -> (capacity: usize)
        ensures
            capacity == S,
            self@.len() <= capacity,
    {
        proof {
            use_type_invariant(self);
        }
        S
    }

    /// Removes all elements.
    pub fn clear(&mut self)
        ensures
            final(self)@ == Seq::<T>::empty(),
    {
        proof {
            use_type_invariant(&*self);
        }
        let mut index: usize = 0;
        while index < self.len
            invariant
                self.len <= S,
                index <= self.len,
            decreases self.len - index,
        {
            self.data[index] = T::default();
            index += 1;
        }
        self.len = 0;
    }

    /// Whether the vector holds no element.
    pub fn is_empty(&self) -> (empty: bool)
        ensures
            empty == (self@.len() == 0),
    {
        self.len() == 0
    }

    /// The vector that holds the elements of `value`, which must not be
    /// more than the capacity.
    pub fn from(value: Vec<T>) -> (stack_vec: Self)
        requires
            value@.len() <= S,
        ensures
            stack_vec@ == value@,
    {
        Self::from_iter(value.as_slice())
    }

    /// Appends the items in their order. They must fit the room that is left.
    pub fn extend(&mut self, items: &[T])
        requires
            old(self)@.len() + items@.len() <= S,
        ensures
            final(self)@ == old(self)@ + items@,
    {
        let mut index: usize = 0;
        while index < items.len()
            invariant
                index <= items@.len(),
                old(self)@.len() + items@.len() <= S,
                self@ == old(self)@ + items@.take(index as int),
            decreases items@.len() - index,
        {
            self.push(items[index]);
            assert(self@ =~= old(self)@ + items@.take(index as int + 1));
            index += 1;
        }
        assert(items@.take(index as int) =~= items@);
    }

    /// The vector that holds the items in their order. They must not be
    /// more than the capacity.
    pub fn from_iter(items: &[T]) -> (stack_vec: Self)
        requires
            items@.len() <= S,
        ensures
            stack_vec@ == items@,
    {
        let mut result = StackVec::<T, S>::new();
        result.extend(items);
        assert(result@ =~= items@);
        result
    }
}

impl<T, const S: usize> core::ops::Deref for StackVec<T, S> {
    type Target = [T];

    /// The elements as a slice.
    fn deref(&self) -> (slice: &[T])
        ensures
            slice@ == self@,
    {
        proof {
            use_type_invariant(self);
        }
        &self.data[0..self.len]
    }
}

impl<T, const S: usize> core::ops::DerefMut for StackVec<T, S> {
    /// The elements as a mutable slice.
    fn deref_mut(&mut self) -> (slice: &mut [T])
        ensures
            slice@ == old(self)@,
            final(self)@ == final(slice)@,
    {
        proof {
            use_type_invariant(&*self);
        }
        let len: usize = self.len;
        let whole: &mut [T] = &mut self.data;
        let (used, _) = whole.split_at_mut(len);
        used
    }
}

} // verus!
