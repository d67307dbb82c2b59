//! The abstract state of a gap buffer and the effect of each edit on it.
//!
//! A gap buffer stands for a text, an edit point inside that text and a
//! number of storage slots. Everything the executable buffer promises is
//! phrased over [`Content`]; the gap itself never shows.

use vstd::prelude::*;

verus! {

/// Smallest storage size a buffer ever has.
pub const MIN_BUF_SIZE: usize = 1024;

/// A buffer is only ever shrunk while its storage is larger than this.
pub const SHRINK_THRESHOLD: usize = MIN_BUF_SIZE;

/// Text, edit point and storage size of a gap buffer.
pub struct Content {
    /// The characters of the text, in reading order.
    pub text: Seq<char>,
    /// Position of the edit point: the number of characters before it.
    pub cursor: nat,
    /// Number of storage slots, used and unused.
    pub capacity: nat,
}

impl Content {
    /// Number of characters held.
    pub open spec fn used_size(self) -> nat {
        self.text.len()
    }

    /// Index one past the last unused slot, when the unused slots sit at the
    /// edit point.
    pub open spec fn gap_end(self) -> int {
        self.cursor + (self.capacity - self.text.len())
    }

    /// The layout invariant: the gap lies inside the storage, starts at the
    /// cursor, and the storage never falls below the minimum size.
    pub open spec fn wf(self) -> bool {
        &&& 0 <= self.cursor <= self.gap_end() <= self.capacity
        &&& self.capacity >= MIN_BUF_SIZE
    }

    /// Storage size of a new buffer asked to hold `requested` slots.
    pub open spec fn initial_capacity(requested: nat) -> nat {
        if requested >= MIN_BUF_SIZE {
            requested
        } else {
            MIN_BUF_SIZE as nat
        }
    }

    /// The empty buffer made for `requested` slots.
    pub open spec fn fresh(requested: nat) -> Content {
        Content { text: Seq::empty(), cursor: 0, capacity: Self::initial_capacity(requested) }
    }

    /// The same text and cursor in storage of `new_capacity` slots.
    pub open spec fn resize(self, new_capacity: nat) -> Content {
        Content { capacity: new_capacity, ..self }
    }

    /// Whether the storage is sparse enough to be shrunk: less than a quarter
    /// in use and larger than the threshold.
    pub open spec fn is_sparse(self) -> bool {
        self.text.len() < self.capacity / 4 && self.capacity > SHRINK_THRESHOLD
    }

    /// Storage size after a shrink: twice the text, but never below the
    /// minimum.
    pub open spec fn shrink_target(self) -> nat {
        if self.text.len() * 2 >= MIN_BUF_SIZE {
            self.text.len() * 2
        } else {
            MIN_BUF_SIZE as nat
        }
    }

    /// Shrinks sparse storage to its target size and leaves other storage
    /// alone.
    pub open spec fn shrink_if_sparse(self) -> Content {
        if self.is_sparse() {
            self.resize(self.shrink_target())
        } else {
            self
        }
    }

    /// Moves the edit point to `pos`, or to the end of the text if `pos`
    /// lies beyond it.
    pub open spec fn move_cursor(self, pos: nat) -> Content {
        Content { cursor: if pos <= self.text.len() { pos } else { self.text.len() }, ..self }
    }

    /// Puts `c` at the edit point and steps past it. Full storage doubles
    /// first.
    pub open spec fn insert(self, c: char) -> Content {
        Content {
            text: self.text.insert(self.cursor as int, c),
            cursor: self.cursor + 1,
            capacity: if self.text.len() == self.capacity {
                2 * self.capacity
            } else {
                self.capacity
            },
        }
    }

    /// Forward deletion: removes the character right of the edit point and
    /// then shrinks sparse storage. At the end of the text nothing happens.
    pub open spec fn delete(self) -> Content {
        if self.cursor < self.text.len() {
            Content { text: self.text.remove(self.cursor as int), ..self }.shrink_if_sparse()
        } else {
            self
        }
    }

    /// Backward deletion: removes the character left of the edit point,
    /// steps the edit point back over its place and then shrinks sparse
    /// storage. At the start of the text nothing happens.
    pub open spec fn backspace(self) -> Content {
        if self.cursor == 0 {
            self
        } else {
            Content {
                text: self.text.remove(self.cursor - 1),
                cursor: (self.cursor - 1) as nat,
                ..self
            }.shrink_if_sparse()
        }
    }

    /// The state after one edit.
    pub open spec fn apply(self, e: Edit) -> Content {
        match e {
            Edit::MoveCursor(pos) => self.move_cursor(pos),
            Edit::Insert(c) => self.insert(c),
            Edit::Delete => self.delete(),
            Edit::Backspace => self.backspace(),
        }
    }

    /// The state after a sequence of edits, first to last.
    pub open spec fn run(self, edits: Seq<Edit>) -> Content
        decreases edits.len(),
    {
        if edits.len() == 0 {
            self
        } else {
            self.run(edits.drop_last()).apply(edits.last())
        }
    }

    /// Whether the edit changes the storage size.
    pub open spec fn resizes(self, e: Edit) -> bool {
        self.apply(e).capacity != self.capacity
    }

    /// Number of characters the edit copies into new storage: the whole text
    /// as it stands at the moment of a resize, and none without one.
    pub open spec fn relocated(self, e: Edit) -> nat {
        if !self.resizes(e) {
            0
        } else if e is Insert {
            self.text.len()
        } else {
            self.apply(e).text.len()
        }
    }

    /// Number of resizes over a sequence of edits.
    pub open spec fn total_resizes(self, edits: Seq<Edit>) -> nat
        decreases edits.len(),
    {
        if edits.len() == 0 {
            0
        } else {
            self.total_resizes(edits.drop_last()) + if self.run(edits.drop_last()).resizes(
                edits.last(),
            ) {
                1nat
            } else {
                0nat
            }
        }
    }

    /// Number of characters copied into new storage over a sequence of
    /// edits.
    pub open spec fn total_relocated(self, edits: Seq<Edit>) -> nat
        decreases edits.len(),
    {
        if edits.len() == 0 {
            0
        } else {
            self.total_relocated(edits.drop_last()) + self.run(edits.drop_last()).relocated(
                edits.last(),
            )
        }
    }

    /// The text and cursor alone.
    pub open spec fn flat(self) -> Flat {
        Flat { text: self.text, cursor: self.cursor }
    }
}

/// One editing step.
pub enum Edit {
    /// Move the edit point to the given position, or to the end of the text.
    MoveCursor(nat),
    /// Type a character at the edit point.
    Insert(char),
    /// Delete forwards.
    Delete,
    /// Delete backwards.
    Backspace,
}

/// A text with an edit point and nothing else: the plain sequence against
/// which a buffer is measured.
pub struct Flat {
    /// The characters of the text, in reading order.
    pub text: Seq<char>,
    /// Position of the edit point.
    pub cursor: nat,
}

impl Flat {
    /// The state after one edit, by splicing the sequence: a character goes
    /// in at the cursor, comes out at the cursor, or comes out just before
    /// it.
    pub open spec fn apply(self, e: Edit) -> Flat {
        match e {
            Edit::MoveCursor(pos) => Flat {
                cursor: if pos <= self.text.len() {
                    pos
                } else {
                    self.text.len()
                },
                ..self
            },
            Edit::Insert(c) => Flat {
                text: self.text.insert(self.cursor as int, c),
                cursor: self.cursor + 1,
            },
            Edit::Delete => if self.cursor < self.text.len() {
                Flat { text: self.text.remove(self.cursor as int), ..self }
            } else {
                self
            },
            Edit::Backspace => if self.cursor > 0 {
                Flat {
                    text: self.text.remove(self.cursor - 1),
                    cursor: (self.cursor - 1) as nat,
                }
            } else {
                self
            },
        }
    }

    /// The state after a sequence of edits, first to last.
    pub open spec fn run(self, edits: Seq<Edit>) -> Flat
        decreases edits.len(),
    {
        if edits.len() == 0 {
            self
        } else {
            self.run(edits.drop_last()).apply(edits.last())
        }
    }
}

/// Whether the edits are insert-and-backspace pairs: a character is typed
/// and taken back at once, again and again.
pub open spec fn alternates(edits: Seq<Edit>) -> bool {
    &&& edits.len() % 2 == 0
    &&& forall|i: int|
        0 <= i < edits.len() ==> if i % 2 == 0 {
            (#[trigger] edits[i]) is Insert
        } else {
            edits[i] is Backspace
        }
}

/// Number of characters out of `n` for which `start` slots have no room.
pub open spec fn shortfall(start: nat, n: nat) -> nat {
    if n > start {
        (n - start) as nat
    } else {
        0
    }
}

/// The storage size that typing arrives at: `start` doubled as few times as
/// it takes to hold `n` characters.
pub open spec fn least_doubling(start: nat, n: nat) -> nat
    decreases shortfall(start, n),
{
    if start == 0 || start >= n {
        start
    } else {
        least_doubling(2 * start, n)
    }
}

/// Number of insertions among the edits.
pub open spec fn count_inserts(edits: Seq<Edit>) -> nat
    decreases edits.len(),
{
    if edits.len() == 0 {
        0
    } else {
        count_inserts(edits.drop_last()) + if edits.last() is Insert {
            1nat
        } else {
            0nat
        }
    }
}

/// Whether the edits only type and move the cursor.
pub open spec fn only_typing(edits: Seq<Edit>) -> bool {
    forall|i: int| 0 <= i < edits.len() ==> (#[trigger] edits[i]) is Insert || edits[i] is MoveCursor
}

} // verus!
