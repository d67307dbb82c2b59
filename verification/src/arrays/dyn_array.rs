//! A growable array that starts with room for `N` elements and doubles its
//! storage whenever it is full.

use vstd::prelude::*;

verus! {

/// A growable array with initial capacity `N`.
#[derive(Debug)]
pub struct DynamicArray<T, const N: usize> {
    buffer: Vec<T>,
    len: usize,
    capacity: usize,
}

impl<T, const N: usize> View for DynamicArray<T, N> {
    type V = Seq<T>;

    closed spec fn view(&self) -> Seq<T> {
        self.buffer@.subrange(0, self.len as int)
    }
}

impl<T: Default + Clone + Copy, const N: usize> DynamicArray<T, N> {
    /// The representation invariant: the elements fit in the storage, and
    /// the recorded capacity is the size of the storage.
    pub closed spec fn wf(&self) -> bool {
        &&& self.len <= self.buffer@.len()
        &&& self.capacity == self.buffer@.len()
    }

    /// Number of elements the storage has room for.
    pub closed spec fn spec_capacity(&self) -> nat {
        self.capacity as nat
    }

    /// The elements never outnumber the capacity.
    pub proof fn lemma_len_within_capacity(&self)
        requires
            self.wf(),
        ensures
            self@.len() <= self.spec_capacity(),
    {
    }

    /// An empty array with room for `N` elements.
    pub fn new() -> (r: Self)
        ensures
            r.wf(),
            r@ == Seq::<T>::empty(),
            r.spec_capacity() == N,
    {
        let r = Self { buffer: vec![T::default(); N], len: 0, capacity: N };
        assert(r@ =~= Seq::<T>::empty());
        r
    }

    /// Appends `val`. A full array doubles its capacity first.
    pub fn push(&mut self, val: T)
        requires
            old(self).wf(),
            old(self).spec_capacity() > 0,
            old(self)@.len() == old(self).spec_capacity() ==> 2 * old(self).spec_capacity()
                <= usize::MAX,
        ensures
            final(self).wf(),
            final(self)@ == old(self)@.push(val),
            final(self).spec_capacity() == if old(self)@.len() == old(self).spec_capacity() {
                2 * old(self).spec_capacity()
            } else {
                old(self).spec_capacity()
            },
    {
        if self.len == self.buffer.len() {
            self.grow();
        }
        let ghost grown = self@;
        self.buffer[self.len] = val;
        self.len += 1;
        assert(self@ =~= grown.push(val));
    }

    /// The element at `idx`, if there is one.
    pub fn get(&self, idx: usize) -> (r: Option<&T>)
        requires
            self.wf(),
        ensures
            idx < self@.len() ==> r == Some(&self@[idx as int]),
            idx >= self@.len() ==> r is None,
    {
        if idx < self.len {
            Some(&self.buffer[idx])
        } else {
            None
        }
    }

    /// Takes the last element off, if there is one. The capacity stays.
    pub fn pop(&mut self) -> (r: Option<T>)
        requires
            old(self).wf(),
        ensures
            final(self).wf(),
            final(self).spec_capacity() == old(self).spec_capacity(),
            old(self)@.len() == 0 ==> r is None && final(self)@ == old(self)@,
            old(self)@.len() > 0 ==> r == Some(old(self)@.last()) && final(self)@ == old(
                self,
            )@.drop_last(),
    {
        if self.len == 0 {
            None
        } else {
            self.len -= 1;
            let last: T = self.buffer[self.len];
            self.buffer[self.len] = T::default();
            assert(self@ =~= old(self)@.drop_last());
            Some(last)
        }
    }

    /// Number of elements.
    pub fn len(&self) -> (r: usize)
        requires
            self.wf(),
        ensures
            r == self@.len(),
    {
        self.len
    }

    /// Number of elements the storage has room for.
    pub fn capacity(&self) -> (r: usize)
        ensures
            r == self.spec_capacity(),
    {
        self.capacity
    }

    /// Doubles the storage and moves the elements over.
    fn grow(&mut self)
        requires
            old(self).wf(),
            2 * old(self).spec_capacity() <= usize::MAX,
        ensures
            final(self).wf(),
            final(self)@ == old(self)@,
            final(self).spec_capacity() == 2 * old(self).spec_capacity(),
    {
        self.capacity = self.capacity * 2;
        let mut new_buf: Vec<T> = vec![T::default(); self.capacity];
        let mut i: usize = 0;
        while i < self.len
            invariant
                i <= self.len <= self.buffer@.len(),
                self.len <= new_buf@.len(),
                new_buf@.len() == self.capacity,
                forall|k: int| 0 <= k < i ==> new_buf@[k] == self.buffer@[k],
            decreases self.len - i,
        {
            new_buf[i] = self.buffer[i];
            i += 1;
        }
        self.buffer = new_buf;
        assert(self@ =~= old(self)@);
    }
}

impl<T: Default + Clone + Copy, const N: usize> Default for DynamicArray<T, N> {
    /// An empty array with room for `N` elements.
    fn default() -> (r: Self)
        ensures
            r.wf(),
            r@ == Seq::<T>::empty(),
            r.spec_capacity() == N,
    {
        Self::new()
    }
}

} // verus!
