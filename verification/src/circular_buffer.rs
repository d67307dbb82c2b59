//! A ring buffer of fixed capacity: a queue that, once full, gives up its
//! oldest item for each new one.

use vstd::prelude::*;

verus! {

/// The last `n` items of `s`, or all of `s` if it has no more than `n`.
pub open spec fn keep_last<T>(s: Seq<T>, n: nat) -> Seq<T> {
    if s.len() <= n {
        s
    } else {
        s.subrange(s.len() - n, s.len() as int)
    }
}

/// Keeping the last `n` items commutes with adding one: what was dropped
/// before the addition would be dropped after it as well.
pub proof fn lemma_keep_last_push<T>(s: Seq<T>, x: T, n: nat)
    requires
        n > 0,
    ensures
        keep_last(keep_last(s, n).push(x), n) == keep_last(s.push(x), n),
{
    assert(keep_last(keep_last(s, n).push(x), n) =~= keep_last(s.push(x), n));
}

/// A queue of at most `capacity` items, oldest first.
#[derive(Debug)]
pub struct CircularBuffer<T> {
    buffer: Vec<Option<T>>,
    capacity: usize,
    head: usize,
    tail: usize,
    size: usize,
}

impl<T> View for CircularBuffer<T> {
    type V = Seq<T>;

    closed spec fn view(&self) -> Seq<T> {
        Seq::new(self.size as nat, |i: int| self.buffer@[self.slot_of(i)]->0)
    }
}

impl<T> CircularBuffer<T> {
    /// Index of the slot that holds item `i` of the queue.
    closed spec fn slot_of(&self, i: int) -> int {
        if self.tail + i < self.capacity {
            self.tail + i
        } else {
            self.tail + i - self.capacity
        }
    }

    /// The representation invariant. Slots are allocated one by one until
    /// there are `capacity` of them; the queue occupies `size` slots from
    /// `tail` on, wrapping at the end, and `head` is the slot after them.
    pub closed spec fn wf(&self) -> bool {
        &&& self.buffer@.len() <= self.capacity
        &&& self.size <= self.buffer@.len()
        &&& self.capacity == 0 ==> self.head == 0 && self.tail == 0
        &&& self.capacity > 0 ==> self.head < self.capacity && self.tail < self.capacity
        &&& self.capacity > 0 ==> self.head == self.slot_of(self.size as int)
        &&& self.buffer@.len() < self.capacity ==> self.head == self.buffer@.len()
        &&& forall|i: int|
            0 <= i < self.size ==> 0 <= self.slot_of(i) < self.buffer@.len() && (
            #[trigger] self.buffer@[self.slot_of(i)]) is Some
    }

    /// Number of items the queue can hold.
    pub closed spec fn spec_capacity(&self) -> nat {
        self.capacity as nat
    }

    /// The queue never holds more than its capacity.
    pub proof fn lemma_len_within_capacity(&self)
        requires
            self.wf(),
        ensures
            self@.len() <= self.spec_capacity(),
    {
    }

    /// An empty queue for up to `capacity` items.
    pub fn new(capacity: usize) -> (r: Self)
        requires
            capacity > 0,
        ensures
            r.wf(),
            r@ == Seq::<T>::empty(),
            r.spec_capacity() == capacity,
    {
        let r = Self { buffer: Vec::with_capacity(capacity), capacity, head: 0, tail: 0, size: 0 };
        assert(r@ =~= Seq::<T>::empty());
        r
    }

    /// The slot after `idx`, going round.
    fn next_slot(&self, idx: usize) -> (r: usize)
        requires
            idx < self.capacity,
        ensures
            r == if idx + 1 < self.capacity {
                idx + 1
            } else {
                0
            },
    {
        let r: usize = (idx + 1) % self.capacity;
        assert(r == if idx + 1 < self.capacity {
            idx + 1
        } else {
            0
        }) by {
            if idx + 1 < self.capacity {
                vstd::arithmetic::div_mod::lemma_small_mod((idx + 1) as nat, self.capacity as nat);
            } else {
                vstd::arithmetic::div_mod::lemma_mod_self_0(self.capacity as int);
            }
        }
        r
    }

    /// Adds `item` as the newest. A full queue loses its oldest item to make
    /// room.
    pub fn push(&mut self, item: T)
        requires
            old(self).wf(),
            old(self).spec_capacity() > 0,
        ensures
            final(self).wf(),
            final(self).spec_capacity() == old(self).spec_capacity(),
            final(self)@ == keep_last(old(self)@.push(item), old(self).spec_capacity()),
    {
        if self.size == self.capacity {
            self.tail = self.next_slot(self.tail);
        } else {
            self.size += 1;
        }

        if self.buffer.len() < self.capacity {
            self.buffer.push(Some(item));
        } else {
            self.buffer[self.head] = Some(item);
        }

        self.head = self.next_slot(self.head);
        proof {
            assert forall|i: int| 0 <= i < self.size implies 0 <= self.slot_of(i)
                < self.buffer@.len() && (#[trigger] self.buffer@[self.slot_of(i)]) is Some by {
                if i < self.size - 1 {
                    if old(self).size == old(self).capacity {
                        assert(self.slot_of(i) == old(self).slot_of(i + 1));
                    } else {
                        assert(self.slot_of(i) == old(self).slot_of(i));
                    }
                    assert(self.slot_of(i) != old(self).head);
                } else {
                    assert(self.slot_of(i) == old(self).head);
                }
            }
            let want = keep_last(old(self)@.push(item), old(self).spec_capacity());
            assert(self@.len() == want.len());
            assert forall|i: int| 0 <= i < self@.len() implies self@[i] == want[i] by {
                if old(self).size == old(self).capacity {
                    if i < self.size - 1 {
                        assert(self.slot_of(i) == old(self).slot_of(i + 1));
                    }
                } else {
                    if i < self.size - 1 {
                        assert(self.slot_of(i) == old(self).slot_of(i));
                    }
                }
            }
            assert(self@ =~= want);
        }
    }

    /// Takes out the oldest item, if there is one.
    pub fn pop(&mut self) -> (r: Option<T>)
        requires
            old(self).wf(),
        ensures
            final(self).wf(),
            final(self).spec_capacity() == old(self).spec_capacity(),
            old(self)@.len() == 0 ==> r is None && final(self)@ == old(self)@,
            old(self)@.len() > 0 ==> r == Some(old(self)@.first()) && final(self)@ == old(
                self,
            )@.drop_first(),
    {
        if self.size == 0 {
            return None;
        }
        assert(self.slot_of(0) == self.tail);
        let item: Option<T> = self.buffer[self.tail].take();
        self.tail = self.next_slot(self.tail);
        self.size -= 1;
        proof {
            assert forall|i: int| 0 <= i < self.size implies self.slot_of(i) == old(self).slot_of(
                i + 1,
            ) by {}
            assert(self@ =~= old(self)@.drop_first());
        }
        item
    }

    /// The oldest item, if there is one.
    pub fn peek(&self) -> (r: Option<&T>)
        requires
            self.wf(),
        ensures
            self@.len() == 0 ==> r is None,
            self@.len() > 0 ==> r == Some(&self@.first()),
    {
        if self.size == 0 {
            None
        } else {
            assert(self.slot_of(0) == self.tail);
            self.buffer[self.tail].as_ref()
        }
    }

    /// Empties the queue. The capacity stays.
    pub fn clear(&mut self)
        requires
            old(self).wf(),
        ensures
            final(self).wf(),
            final(self).spec_capacity() == old(self).spec_capacity(),
            final(self)@ == Seq::<T>::empty(),
    {
        self.buffer.clear();
        self.head = 0;
        self.tail = 0;
        self.size = 0;
        assert(self@ =~= Seq::<T>::empty());
    }

    /// Adds the items one after the other, each as by `push`: the queue ends
    /// up with the newest items of what it held followed by `items`, as many
    /// as it has room for.
    pub fn extend(&mut self, items: Vec<T>)
        requires
            old(self).wf(),
            old(self).spec_capacity() > 0 || items@.len() == 0,
        ensures
            final(self).wf(),
            final(self).spec_capacity() == old(self).spec_capacity(),
            final(self)@ == keep_last(old(self)@ + items@, old(self).spec_capacity()),
    {
        let ghost start = self@;
        let ghost cap = self.spec_capacity();
        proof {
            self.lemma_len_within_capacity();
            assert(start + items@.take(0) =~= start);
        }
        for item in it: items
            invariant
                self.wf(),
                self.spec_capacity() == cap,
                cap > 0 || items@.len() == 0,
                it.seq() == items@,
                self@ == keep_last(start + items@.take(it.index() as int), cap),
        {
            proof {
                let k = it.index() as int;
                lemma_keep_last_push(start + items@.take(k), item, cap);
                assert((start + items@.take(k)).push(item) =~= start + items@.take(k + 1));
            }
            self.push(item);
        }
        assert(items@.take(items@.len() as int) =~= items@);
    }

    /// A queue made to measure for `items`: it holds them all, oldest first,
    /// and is full.
    pub fn from_iter(items: Vec<T>) -> (r: Self)
        requires
            items@.len() > 0,
        ensures
            r.wf(),
            r.spec_capacity() == items@.len(),
            r@ == items@,
    {
        let capacity: usize = items.len();
        let mut buffer = Self::new(capacity);
        buffer.extend(items);
        assert(Seq::<T>::empty() + items@ =~= items@);
        buffer
    }

    /// The items, oldest first.
    pub fn iter(&self) -> (r: Vec<&T>)
        requires
            self.wf(),
        ensures
            r@.len() == self@.len(),
            forall|i: int| 0 <= i < r@.len() ==> *r@[i] == self@[i],
    {
        let mut items: Vec<&T> = Vec::with_capacity(self.size);
        let room: usize = self.capacity - self.tail;
        let mut i: usize = 0;
        while i < self.size
            invariant
                self.wf(),
                i <= self.size,
                room == self.capacity - self.tail,
                items@.len() == i,
                forall|k: int| 0 <= k < i ==> *items@[k] == self@[k],
            decreases self.size - i,
        {
            let index: usize = if i < room {
                self.tail + i
            } else {
                i - room
            };
            assert(index == self.slot_of(i as int));
            items.push(self.buffer[index].as_ref().unwrap());
            i += 1;
        }
        items
    }

    /// Number of items held.
    pub fn len(&self) -> (r: usize)
        ensures
            r == self@.len(),
    {
        self.size
    }

    /// Whether the queue holds nothing.
    pub fn is_empty(&self) -> (r: bool)
        ensures
            r == (self@.len() == 0),
    {
        self.size == 0
    }

    /// Whether the next push will cost the oldest item.
    pub fn is_full(&self) -> (r: bool)
        ensures
            r == (self@.len() == self.spec_capacity()),
    {
        self.size == self.capacity
    }

    /// Number of items the queue can hold.
    pub fn capacity(&self) -> (r: usize)
        ensures
            r == self.spec_capacity(),
    {
        self.capacity
    }
}

impl<T> Default for CircularBuffer<T> where T: Default + Clone {
    /// A queue without room for anything. Nothing can be pushed to it.
    fn default() -> (r: Self)
        ensures
            r.wf(),
            r@ == Seq::<T>::empty(),
            r.spec_capacity() == 0,
    {
        let r = Self { buffer: Vec::new(), capacity: 0, head: 0, tail: 0, size: 0 };
        assert(r@ =~= Seq::<T>::empty());
        r
    }
}

} // verus!
