//! A doubly linked list. The nodes live in one vector and point at each
//! other by index; a node that is taken out of the list goes onto a free
//! list and is used again by a later push.

use vstd::prelude::*;

verus! {

/// A link: nothing, or the index of a node.
type Link = Option<usize>;

/// One node: its neighbours and, while it is in the list, its item.
struct Node<T> {
    next: Link,
    prev: Link,
    data: Option<T>,
}

/// A list with cheap access to both ends.
pub struct DoublyLinkedList<T> {
    nodes: Vec<Node<T>>,
    head: Link,
    tail: Link,
    free: Link,
    len: usize,
    /// Indices of the nodes in the list, front to back.
    order: Ghost<Seq<usize>>,
    /// Indices of the nodes on the free list, first to last.
    spare: Ghost<Seq<usize>>,
}

impl<T> Node<T> {
    /// A node that holds `data` and has no neighbours.
    fn new(data: T) -> (r: Self)
        ensures
            r.next is None,
            r.prev is None,
            r.data == Some(data),
    {
        Node { next: None, prev: None, data: Some(data) }
    }
}

/// The link to position `i` of `chain`, or none if `chain` ends before it.
spec fn link_to(chain: Seq<usize>, i: int) -> Link {
    if 0 <= i < chain.len() {
        Some(chain[i])
    } else {
        None
    }
}

/// Distinct numbers below `n` are at most `n` in number.
proof fn lemma_distinct_bounded(s: Seq<usize>, n: int)
    requires
        0 <= n,
        forall|i: int| 0 <= i < s.len() ==> 0 <= #[trigger] s[i] < n,
        forall|i: int, j: int| 0 <= i < j < s.len() ==> s[i] != s[j],
    ensures
        s.len() <= n,
    decreases n,
{
    if s.len() > 0 {
        assert(0 <= s[0] < n);
        if exists|k: int| 0 <= k < s.len() && s[k] == n - 1 {
            // Without the entry that equals n - 1, all are below n - 1.
            let k = choose|k: int| 0 <= k < s.len() && s[k] == n - 1;
            let rest = s.remove(k);
            assert forall|i: int| 0 <= i < rest.len() implies 0 <= #[trigger] rest[i] < n - 1 by {
                let a = if i < k {
                    i
                } else {
                    i + 1
                };
                assert(rest[i] == s[a]);
                assert(s[a] != s[k]);
            }
            assert forall|i: int, j: int| 0 <= i < j < rest.len() implies rest[i] != rest[j] by {
                let a = if i < k {
                    i
                } else {
                    i + 1
                };
                let b = if j < k {
                    j
                } else {
                    j + 1
                };
                assert(rest[i] == s[a] && rest[j] == s[b]);
            }
            lemma_distinct_bounded(rest, n - 1);
        } else {
            assert forall|i: int| 0 <= i < s.len() implies 0 <= #[trigger] s[i] < n - 1 by {
                assert(!(s[i] == n - 1));
            }
            lemma_distinct_bounded(s, n - 1);
        }
    }
}

impl<T> View for DoublyLinkedList<T> {
    type V = Seq<T>;

    closed spec fn view(&self) -> Seq<T> {
        Seq::new(self.order@.len(), |i: int| self.nodes@[self.order@[i] as int].data->0)
    }
}

impl<T> DoublyLinkedList<T> {
    /// Whether position `i` of the list is a node that holds an item and
    /// points at the positions before and after it.
    spec fn linked(&self, i: int) -> bool {
        let idx = self.order@[i];
        &&& idx < self.nodes@.len()
        &&& self.nodes@[idx as int].data is Some
        &&& self.nodes@[idx as int].prev == link_to(self.order@, i - 1)
        &&& self.nodes@[idx as int].next == link_to(self.order@, i + 1)
    }

    /// Whether position `j` of the free list is an empty node that points at
    /// the position after it.
    spec fn shelved(&self, j: int) -> bool {
        let idx = self.spare@[j];
        &&& idx < self.nodes@.len()
        &&& self.nodes@[idx as int].data is None
        &&& self.nodes@[idx as int].next == link_to(self.spare@, j + 1)
    }

    /// Whether the list is a chain of distinct nodes linked both ways
    /// between `head` and `tail`.
    spec fn chain_ok(&self) -> bool {
        &&& self.order@.len() == self.len
        &&& self.head == link_to(self.order@, 0)
        &&& self.tail == link_to(self.order@, self.order@.len() - 1)
        &&& forall|i: int| 0 <= i < self.order@.len() ==> self.linked(i)
        &&& forall|i: int, j: int|
            0 <= i < j < self.order@.len() ==> self.order@[i] != self.order@[j]
    }

    /// Whether the free list is a chain of distinct empty nodes from `free`
    /// on.
    spec fn shelf_ok(&self) -> bool {
        &&& self.free == link_to(self.spare@, 0)
        &&& forall|j: int| 0 <= j < self.spare@.len() ==> self.shelved(j)
        &&& forall|i: int, j: int|
            0 <= i < j < self.spare@.len() ==> self.spare@[i] != self.spare@[j]
    }

    /// The representation invariant: the nodes of the list and the nodes of
    /// the free list each form a proper chain.
    pub closed spec fn wf(&self) -> bool {
        self.chain_ok() && self.shelf_ok()
    }

    /// The empty list.
    pub fn new() -> (r: Self)
        ensures
            r.wf(),
            r@ == Seq::<T>::empty(),
    {
        let r = Self {
            nodes: Vec::new(),
            head: None,
            tail: None,
            free: None,
            len: 0,
            order: Ghost(Seq::empty()),
            spare: Ghost(Seq::empty()),
        };
        assert(r@ =~= Seq::<T>::empty());
        r
    }

    /// Finds a node for `data`: the first of the free list, or a new one at
    /// the end of the vector. The node holds `data`, has no neighbours and
    /// belongs to neither chain yet.
    fn place(&mut self, data: T) -> (idx: usize)
        requires
            old(self).wf(),
        ensures
            final(self).chain_ok(),
            final(self).shelf_ok(),
            final(self).order@ == old(self).order@,
            final(self)@ == old(self)@,
            final(self).len < final(self).nodes@.len(),
            idx < final(self).nodes@.len(),
            final(self).nodes@[idx as int].data == Some(data),
            final(self).nodes@[idx as int].next is None,
            final(self).nodes@[idx as int].prev is None,
            forall|i: int| 0 <= i < final(self).order@.len() ==> final(self).order@[i] != idx,
            forall|j: int| 0 <= j < final(self).spare@.len() ==> final(self).spare@[j] != idx,
    {
        proof {
            self.lemma_chain_fits();
        }
        let idx: usize = match self.free {
            Some(first) => {
                assert(self.shelved(0));
                self.free = self.nodes[first].next;
                self.nodes[first] = Node::new(data);
                self.spare = Ghost(self.spare@.drop_first());
                first
            },
            None => {
                self.nodes.push(Node::new(data));
                self.nodes.len() - 1
            },
        };
        proof {
            assert forall|i: int| 0 <= i < self.order@.len() implies self.linked(i)
                && self.order@[i] != idx by {
                assert(old(self).linked(i));
            }
            assert forall|j: int| 0 <= j < self.spare@.len() implies self.shelved(j)
                && self.spare@[j] != idx by {
                if old(self).free is Some {
                    assert(old(self).shelved(j + 1));
                } else {
                    assert(old(self).shelved(j));
                }
            }
            assert(self@ =~= old(self)@);
        }
        idx
    }

    /// The nodes of the list are among the nodes of the vector, so there are
    /// no more of the former than of the latter.
    proof fn lemma_chain_fits(&self)
        requires
            self.wf(),
        ensures
            self.len <= self.nodes@.len(),
            self.spare@.len() > 0 ==> self.len < self.nodes@.len(),
    {
        let order = self.order@;
        let n = self.nodes@.len();
        assert forall|i: int| 0 <= i < order.len() implies 0 <= #[trigger] order[i] < n by {
            assert(self.linked(i));
        }
        lemma_distinct_bounded(order, n as int);
        if self.spare@.len() > 0 {
            let s0 = self.spare@[0];
            assert(self.shelved(0));
            let longer = order.push(s0);
            assert forall|i: int, j: int| 0 <= i < j < longer.len() implies longer[i]
                != longer[j] by {
                assert(self.linked(i));
            }
            assert forall|i: int| 0 <= i < longer.len() implies 0 <= #[trigger] longer[i] < n by {
                if i < order.len() {
                    assert(longer[i] == order[i]);
                }
            }
            lemma_distinct_bounded(longer, n as int);
        }
    }

    /// Puts `val` in front of all others.
    pub fn push_front(&mut self, val: T)
        requires
            old(self).wf(),
        ensures
            final(self).wf(),
            final(self)@ == seq![val] + old(self)@,
    {
        let new_head: usize = self.place(val);
        let ghost placed = *self;
        assert(self.len < self.nodes.len());
        match self.head {
            Some(old_head) => {
                assert(self.linked(0));
                self.nodes[old_head].prev = Some(new_head);
                self.nodes[new_head].next = Some(old_head);
                self.head = Some(new_head);
            },
            None => {
                self.tail = Some(new_head);
                self.head = Some(new_head);
            },
        }
        self.len += 1;
        self.order = Ghost(seq![new_head] + self.order@);
        proof {
            assert forall|i: int| 0 <= i < self.order@.len() implies self.linked(i) by {
                if i > 0 {
                    assert(placed.linked(i - 1));
                }
            }
            assert forall|j: int| 0 <= j < self.spare@.len() implies self.shelved(j) by {
                assert(placed.shelved(j));
            }
            assert forall|i: int| 0 <= i < self@.len() implies self@[i] == (seq![val] + old(
                self,
            )@)[i] by {
                if i > 0 {
                    assert(placed.linked(i - 1));
                }
            }
            assert(self@ =~= seq![val] + old(self)@);
        }
    }

    /// Puts `val` behind all others.
    pub fn push_back(&mut self, val: T)
        requires
            old(self).wf(),
        ensures
            final(self).wf(),
            final(self)@ == old(self)@.push(val),
    {
        let new_tail: usize = self.place(val);
        let ghost placed = *self;
        assert(self.len < self.nodes.len());
        match self.tail {
            Some(old_tail) => {
                assert(self.linked(self.order@.len() - 1));
                self.nodes[old_tail].next = Some(new_tail);
                self.nodes[new_tail].prev = Some(old_tail);
                self.tail = Some(new_tail);
            },
            None => {
                self.head = Some(new_tail);
                self.tail = Some(new_tail);
            },
        }
        self.len += 1;
        self.order = Ghost(self.order@.push(new_tail));
        proof {
            assert forall|i: int| 0 <= i < self.order@.len() implies self.linked(i) by {
                if i < placed.order@.len() {
                    assert(placed.linked(i));
                }
            }
            assert forall|j: int| 0 <= j < self.spare@.len() implies self.shelved(j) by {
                assert(placed.shelved(j));
            }
            assert forall|i: int| 0 <= i < self@.len() implies self@[i] == old(self)@.push(
                val,
            )[i] by {
                if i < placed.order@.len() {
                    assert(placed.linked(i));
                }
            }
            assert(self@ =~= old(self)@.push(val));
        }
    }

    /// Takes out the first item, if there is one.
    pub fn pop_front(&mut self) -> (r: Option<T>)
        requires
            old(self).wf(),
        ensures
            final(self).wf(),
            old(self)@.len() == 0 ==> r is None && final(self)@ == old(self)@,
            old(self)@.len() > 0 ==> r == Some(old(self)@.first()) && final(self)@ == old(
                self,
            )@.drop_first(),
    {
        match self.head {
            Some(old_head) => {
                assert(self.linked(0));
                let item: Option<T> = self.nodes[old_head].data.take();
                match self.nodes[old_head].next {
                    Some(new_head) => {
                        assert(old(self).linked(1));
                        self.nodes[new_head].prev = None;
                        self.head = Some(new_head);
                    },
                    None => {
                        self.head = None;
                        self.tail = None;
                    },
                }
                self.nodes[old_head].next = self.free;
                self.nodes[old_head].prev = None;
                self.free = Some(old_head);
                self.len -= 1;
                self.order = Ghost(self.order@.drop_first());
                self.spare = Ghost(seq![old_head] + self.spare@);
                proof {
                    assert forall|i: int| 0 <= i < self.order@.len() implies self.linked(i) by {
                        assert(old(self).linked(i + 1));
                    }
                    assert forall|j: int| 0 <= j < self.spare@.len() implies self.shelved(j) by {
                        if j > 0 {
                            assert(old(self).shelved(j - 1));
                        }
                    }
                    assert forall|i: int, j: int|
                        0 <= i < j < self.spare@.len() implies self.spare@[i] != self.spare@[j] by {
                        assert(old(self).shelved(j - 1));
                    }
                    assert forall|i: int| 0 <= i < self@.len() implies self@[i] == old(
                        self,
                    )@.drop_first()[i] by {
                        assert(old(self).linked(i + 1));
                    }
                    assert(self@ =~= old(self)@.drop_first());
                }
                item
            },
            None => None,
        }
    }

    /// Takes out the last item, if there is one.
    pub fn pop_back(&mut self) -> (r: Option<T>)
        requires
            old(self).wf(),
        ensures
            final(self).wf(),
            old(self)@.len() == 0 ==> r is None && final(self)@ == old(self)@,
            old(self)@.len() > 0 ==> r == Some(old(self)@.last()) && final(self)@ == old(
                self,
            )@.drop_last(),
    {
        match self.tail {
            Some(old_tail) => {
                let ghost last = self.order@.len() - 1;
                assert(self.linked(last));
                let item: Option<T> = self.nodes[old_tail].data.take();
                match self.nodes[old_tail].prev {
                    Some(new_tail) => {
                        assert(old(self).linked(last - 1));
                        self.nodes[new_tail].next = None;
                        self.tail = Some(new_tail);
                    },
                    None => {
                        self.head = None;
                        self.tail = None;
                    },
                }
                self.nodes[old_tail].next = self.free;
                self.nodes[old_tail].prev = None;
                self.free = Some(old_tail);
                self.len -= 1;
                self.order = Ghost(self.order@.drop_last());
                self.spare = Ghost(seq![old_tail] + self.spare@);
                proof {
                    assert forall|i: int| 0 <= i < self.order@.len() implies self.linked(i) by {
                        assert(old(self).linked(i));
                    }
                    assert forall|j: int| 0 <= j < self.spare@.len() implies self.shelved(j) by {
                        if j > 0 {
                            assert(old(self).shelved(j - 1));
                        }
                    }
                    assert forall|i: int, j: int|
                        0 <= i < j < self.spare@.len() implies self.spare@[i] != self.spare@[j] by {
                        assert(old(self).shelved(j - 1));
                    }
                    assert forall|i: int| 0 <= i < self@.len() implies self@[i] == old(
                        self,
                    )@.drop_last()[i] by {
                        assert(old(self).linked(i));
                    }
                    assert(self@ =~= old(self)@.drop_last());
                }
                item
            },
            None => None,
        }
    }

    /// Takes out every item.
    pub fn clear(&mut self)
        requires
            old(self).wf(),
        ensures
            final(self).wf(),
            final(self)@ == Seq::<T>::empty(),
    {
        loop
            invariant
                self.wf(),
            ensures
                self.wf(),
                self@.len() == 0,
            decreases self@.len(),
        {
            if self.pop_front().is_none() {
                break ;
            }
        }
        assert(self@ =~= Seq::<T>::empty());
    }

    /// A cursor over the items, front to back, standing before the first.
    pub fn iter(&self) -> (r: Iter<'_, T>)
        requires
            self.wf(),
        ensures
            r.wf(),
            r.remaining() == self@,
    {
        let r = Iter { list: self, next: self.head, pos: Ghost(0) };
        assert(r.remaining() =~= self@);
        r
    }

    /// A cursor over the items, front to back, standing before the first.
    pub fn into_iter(&self) -> (r: Iter<'_, T>)
        requires
            self.wf(),
        ensures
            r.wf(),
            r.remaining() == self@,
    {
        self.iter()
    }

    /// Number of items.
    pub fn len(&self) -> (r: usize)
        requires
            self.wf(),
        ensures
            r == self@.len(),
    {
        self.len
    }

    /// Whether the list holds nothing.
    pub fn is_empty(&self) -> (r: bool)
        requires
            self.wf(),
        ensures
            r == (self@.len() == 0),
    {
        self.len == 0
    }

    /// The first item, if there is one.
    pub fn peek_front(&self) -> (r: Option<&T>)
        requires
            self.wf(),
        ensures
            self@.len() == 0 ==> r is None,
            self@.len() > 0 ==> r == Some(&self@.first()),
    {
        match self.head {
            Some(idx) => {
                assert(self.linked(0));
                self.nodes[idx].data.as_ref()
            },
            None => None,
        }
    }

    /// The last item, if there is one.
    pub fn peek_back(&self) -> (r: Option<&T>)
        requires
            self.wf(),
        ensures
            self@.len() == 0 ==> r is None,
            self@.len() > 0 ==> r == Some(&self@.last()),
    {
        match self.tail {
            Some(idx) => {
                assert(self.linked(self.order@.len() - 1));
                self.nodes[idx].data.as_ref()
            },
            None => None,
        }
    }
}

/// A cursor over the items of a list, front to back.
pub struct Iter<'a, T> {
    list: &'a DoublyLinkedList<T>,
    next: Link,
    /// Number of items already handed out.
    pos: Ghost<nat>,
}

impl<'a, T> Iter<'a, T> {
    /// The representation invariant: the cursor stands on the node of the
    /// next item of a well-formed list, or past the last one.
    pub closed spec fn wf(&self) -> bool {
        &&& self.list.wf()
        &&& self.pos@ <= self.list.order@.len()
        &&& self.next == link_to(self.list.order@, self.pos@ as int)
    }

    /// The items still to come, next one first.
    pub closed spec fn remaining(&self) -> Seq<T> {
        self.list@.subrange(self.pos@ as int, self.list@.len() as int)
    }

    /// Hands out the next item and steps past it; at the end of the list
    /// there is none, now and ever after.
    pub fn next(&mut self) -> (r: Option<&'a T>)
        requires
            old(self).wf(),
        ensures
            final(self).wf(),
            old(self).remaining().len() == 0 ==> r is None && final(self).remaining() == old(
                self,
            ).remaining(),
            old(self).remaining().len() > 0 ==> r == Some(&old(self).remaining().first())
                && final(self).remaining() == old(self).remaining().drop_first(),
    {
        match self.next {
            Some(idx) => {
                assert(self.list.linked(self.pos@ as int));
                let node = &self.list.nodes[idx];
                self.next = node.next;
                self.pos = Ghost(self.pos@ + 1);
                assert(self.remaining() =~= old(self).remaining().drop_first());
                node.data.as_ref()
            },
            None => None,
        }
    }
}

} // verus!
