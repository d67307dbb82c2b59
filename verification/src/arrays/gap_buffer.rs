//! A gap buffer: text storage with one movable run of unused slots at the
//! edit point, so that typing and deleting near the cursor touch no other
//! character.

use vstd::prelude::*;
use crate::arrays::gap_laws::lemma_insert;
use crate::arrays::gap_model::{Content, MIN_BUF_SIZE, SHRINK_THRESHOLD};

verus! {

/// Text with a cursor, stored around a gap.
///
/// Slots `[0, cursor)` hold the text before the edit point, slots
/// `[gap_end, capacity)` the text after it; the slots between are unused and
/// never read.
#[derive(Debug)]
pub struct GapBuffer {
    buffer: Vec<char>,
    cursor: usize,
    gap_end: usize,
}

impl View for GapBuffer {
    type V = Content;

    closed spec fn view(&self) -> Content {
        Content {
            text: self.buffer@.subrange(0, self.cursor as int) + self.buffer@.subrange(
                self.gap_end as int,
                self.buffer@.len() as int,
            ),
            cursor: self.cursor as nat,
            capacity: self.buffer@.len(),
        }
    }
}

impl GapBuffer {
    /// The representation invariant: the gap lies inside the storage and the
    /// storage has at least the minimum size.
    pub closed spec fn wf(&self) -> bool {
        &&& self.cursor <= self.gap_end <= self.buffer@.len()
        &&& self.buffer@.len() >= MIN_BUF_SIZE
    }

    /// The storage slots, unused ones included.
    pub closed spec fn storage(&self) -> Seq<char> {
        self.buffer@
    }

    /// A well-formed buffer has a well-formed content, of a size that the
    /// machine can count.
    pub proof fn lemma_wf(&self)
        requires
            self.wf(),
        ensures
            self@.wf(),
            self@.capacity <= usize::MAX,
    {
        assert(self.buffer.len() == self.buffer@.len());
    }

    /// The text is what the slots before the cursor hold, followed by what
    /// the slots from the end of the gap on hold. The slots of the gap take
    /// no part in it.
    pub proof fn lemma_layout(&self)
        requires
            self.wf(),
        ensures
            self.storage().len() == self@.capacity,
            self@.text == self.storage().subrange(0, self@.cursor as int) + self.storage().subrange(
                self@.gap_end(),
                self@.capacity as int,
            ),
    {
    }

    /// Makes an empty buffer with room for `capacity` characters, or for
    /// `MIN_BUF_SIZE` if that is more.
    pub fn new(capacity: usize) -> (r: Self)
        ensures
            r.wf(),
            r@ == Content::fresh(capacity as nat),
    {
        let init_size: usize = if capacity >= MIN_BUF_SIZE {
            capacity
        } else {
            MIN_BUF_SIZE
        };
        let mut buffer: Vec<char> = Vec::with_capacity(init_size);
        buffer.resize(init_size, '\0');
        let r = Self { cursor: 0, gap_end: init_size, buffer };
        assert(r@.text =~= Seq::<char>::empty());
        r
    }

    /// Position of the edit point.
    pub fn cursor(&self) -> (r: usize)
        ensures
            r == self@.cursor,
    {
        self.cursor
    }

    /// Number of storage slots.
    pub fn capacity(&self) -> (r: usize)
        ensures
            r == self@.capacity,
    {
        self.buffer.len()
    }

    /// Slot index one past the gap.
    pub fn gap_end(&self) -> (r: usize)
        requires
            self.wf(),
        ensures
            r == self@.gap_end(),
    {
        self.gap_end
    }

    /// Number of characters held.
    pub fn used_size(&self) -> (r: usize)
        requires
            self.wf(),
        ensures
            r == self@.used_size(),
    {
        self.cursor + (self.buffer.len() - self.gap_end)
    }

    /// Moves the edit point to `pos`; a position beyond the end of the text
    /// means the end of the text. The text itself and the storage size stay
    /// as they are.
    pub fn move_cursor(&mut self, pos: usize)
        requires
            old(self).wf(),
        ensures
            final(self).wf(),
            final(self)@ == old(self)@.move_cursor(pos as nat),
            final(self)@.cursor == if pos <= old(self)@.used_size() {
                pos as nat
            } else {
                old(self)@.used_size()
            },
    {
        let max_pos: usize = self.used_size();
        let new_pos: usize = if pos <= max_pos {
            pos
        } else {
            max_pos
        };

        if new_pos < self.cursor {
            self.move_left(self.cursor - new_pos);
        } else if new_pos > self.cursor {
            self.move_right(new_pos - self.cursor);
        }
    }

    /// Slides the gap `distance` slots towards the start: the characters it
    /// passes over are copied to its far end. A distance of zero, or one
    /// larger than the cursor, leaves everything in place.
    fn move_left(&mut self, distance: usize)
        requires
            old(self).wf(),
        ensures
            final(self).wf(),
            final(self)@.text == old(self)@.text,
            final(self)@.capacity == old(self)@.capacity,
            final(self)@.cursor == if 0 < distance <= old(self)@.cursor {
                (old(self)@.cursor - distance) as nat
            } else {
                old(self)@.cursor
            },
    {
        if distance == 0 || distance > self.cursor {
            return ;
        }
        let ghost before = self.buffer@;
        let cursor: usize = self.cursor;
        let gap_end: usize = self.gap_end;
        let mut k: usize = 0;
        while k < distance
            invariant
                self.buffer@.len() == before.len(),
                self.cursor == cursor,
                self.gap_end == gap_end,
                k <= distance <= cursor <= gap_end <= before.len(),
                forall|i: int| 0 <= i < cursor - k ==> self.buffer@[i] == before[i],
                forall|i: int| gap_end <= i < before.len() ==> self.buffer@[i] == before[i],
                forall|j: int|
                    0 <= j < k ==> #[trigger] self.buffer@[gap_end - 1 - j] == before[cursor - 1
                        - j],
            decreases distance - k,
        {
            let c: char = self.buffer[cursor - 1 - k];
            self.buffer[gap_end - 1 - k] = c;
            k += 1;
        }
        self.cursor -= distance;
        self.gap_end -= distance;
        proof {
            let text = self@.text;
            assert(text.len() == old(self)@.text.len());
            assert forall|i: int| 0 <= i < text.len() implies text[i] == old(self)@.text[i] by {
                if self.cursor <= i < cursor {
                    let j = cursor - 1 - i;
                    assert(self.buffer@[gap_end - 1 - j] == before[cursor - 1 - j]);
                }
            }
            assert(text =~= old(self)@.text);
        }
    }

    /// Slides the gap `distance` slots towards the end: the characters it
    /// passes over are copied to its near end. A distance of zero, or one
    /// larger than the text after the gap, leaves everything in place.
    fn move_right(&mut self, distance: usize)
        requires
            old(self).wf(),
        ensures
            final(self).wf(),
            final(self)@.text == old(self)@.text,
            final(self)@.capacity == old(self)@.capacity,
            final(self)@.cursor == if 0 < distance <= old(self)@.used_size() - old(
                self,
            )@.cursor {
                (old(self)@.cursor + distance) as nat
            } else {
                old(self)@.cursor
            },
    {
        if distance == 0 || distance > self.buffer.len() - self.gap_end {
            return ;
        }
        let ghost before = self.buffer@;
        let cursor: usize = self.cursor;
        let gap_end: usize = self.gap_end;
        let mut k: usize = 0;
        assert(before.len() == self.buffer.len());
        while k < distance
            invariant
                self.buffer@.len() == before.len(),
                self.cursor == cursor,
                self.gap_end == gap_end,
                cursor <= gap_end,
                before.len() <= usize::MAX,
                k <= distance <= before.len() - gap_end,
                forall|i: int| 0 <= i < cursor ==> self.buffer@[i] == before[i],
                forall|i: int| gap_end + k <= i < before.len() ==> self.buffer@[i] == before[i],
                forall|j: int| 0 <= j < k ==> #[trigger] self.buffer@[cursor + j] == before[gap_end + j],
            decreases distance - k,
        {
            let c: char = self.buffer[gap_end + k];
            self.buffer[cursor + k] = c;
            k += 1;
        }
        self.cursor += distance;
        self.gap_end += distance;
        proof {
            let text = self@.text;
            assert(text.len() == old(self)@.text.len());
            assert forall|i: int| 0 <= i < text.len() implies text[i] == old(self)@.text[i] by {
                if cursor <= i < self.cursor {
                    let j = i - cursor;
                    assert(self.buffer@[cursor + j] == before[gap_end + j]);
                }
            }
            assert(text =~= old(self)@.text);
        }
    }

    /// Puts `c` at the edit point and moves the edit point past it. When no
    /// unused slot is left the storage doubles first.
    pub fn insert(&mut self, c: char)
        requires
            old(self).wf(),
            old(self)@.used_size() == old(self)@.capacity ==> 2 * old(self)@.capacity
                <= usize::MAX,
        ensures
            final(self).wf(),
            final(self)@ == old(self)@.insert(c),
            final(self)@.text == old(self)@.text.subrange(0, old(self)@.cursor as int).push(c)
                + old(self)@.text.subrange(
                old(self)@.cursor as int,
                old(self)@.text.len() as int,
            ),
            final(self)@.cursor == old(self)@.cursor + 1,
            final(self)@.used_size() == old(self)@.used_size() + 1,
            final(self)@.capacity == if old(self)@.used_size() < old(self)@.capacity {
                old(self)@.capacity
            } else {
                2 * old(self)@.capacity
            },
            final(self)@.capacity >= final(self)@.used_size(),
    {
        if self.cursor == self.gap_end {
            self.grow();
        }
        self.buffer[self.cursor] = c;
        self.cursor += 1;
        proof {
            assert(self@.text =~= old(self)@.text.insert(old(self)@.cursor as int, c));
            lemma_insert(old(self)@, c);
        }
    }

    /// Forward deletion: drops the character right of the edit point and
    /// shrinks storage that has become sparse. At the end of the text
    /// nothing happens.
    pub fn delete(&mut self)
        requires
            old(self).wf(),
        ensures
            final(self).wf(),
            final(self)@ == old(self)@.delete(),
            final(self)@.cursor == old(self)@.cursor,
            old(self)@.cursor == old(self)@.used_size() ==> final(self)@ == old(self)@,
            old(self)@.cursor < old(self)@.used_size() ==> final(self)@.text == old(
                self,
            )@.text.remove(old(self)@.cursor as int) && final(self)@.used_size() == old(
                self,
            )@.used_size() - 1,
    {
        if self.gap_end < self.buffer.len() {
            self.gap_end += 1;
            assert(self@.text =~= old(self)@.text.remove(old(self)@.cursor as int));
            if self.used_size() < self.buffer.len() / 4 && self.buffer.len() > SHRINK_THRESHOLD {
                self.shrink();
            }
        }
    }

    /// Backward deletion: drops the character left of the edit point, steps
    /// the edit point back over its place and shrinks storage that has
    /// become sparse. At the start of the text nothing happens.
    pub fn backspace(&mut self)
        requires
            old(self).wf(),
        ensures
            final(self).wf(),
            final(self)@ == old(self)@.backspace(),
            old(self)@.cursor == 0 ==> final(self)@ == old(self)@,
            old(self)@.cursor > 0 ==> final(self)@.text == old(self)@.text.remove(
                old(self)@.cursor - 1,
            ) && final(self)@.cursor == old(self)@.cursor - 1 && final(self)@.used_size() == old(
                self,
            )@.used_size() - 1,
    {
        if self.cursor > 0 {
            self.cursor -= 1;
            assert(self@.text =~= old(self)@.text.remove(old(self)@.cursor - 1));

            if self.used_size() < self.buffer.len() / 4 && self.buffer.len() > SHRINK_THRESHOLD {
                self.shrink();
            }
        }
    }

    /// Doubles the storage.
    fn grow(&mut self)
        requires
            old(self).wf(),
            2 * old(self)@.capacity <= usize::MAX,
        ensures
            final(self).wf(),
            final(self)@ == old(self)@.resize(2 * old(self)@.capacity),
    {
        let new_size: usize = self.buffer.len() * 2;
        self.resize_buffer(new_size);
    }

    /// Cuts the storage down to twice the text, or to the minimum size, if
    /// that is less than it has. Text and cursor stay.
    fn shrink(&mut self)
        requires
            old(self).wf(),
            2 * old(self)@.used_size() <= usize::MAX,
        ensures
            final(self).wf(),
            final(self)@ == if old(self)@.shrink_target() < old(self)@.capacity {
                old(self)@.resize(old(self)@.shrink_target())
            } else {
                old(self)@
            },
            final(self)@.capacity <= old(self)@.capacity,
            final(self)@.capacity >= MIN_BUF_SIZE,
            final(self)@.capacity < old(self)@.capacity ==> 2 * final(self)@.text.len()
                <= final(self)@.capacity,
            final(self)@.text == old(self)@.text,
            final(self)@.cursor == old(self)@.cursor,
            final(self)@.used_size() == old(self)@.used_size(),
    {
        let used_size: usize = self.used_size();
        let doubled: usize = used_size * 2;
        let new_size: usize = if doubled >= MIN_BUF_SIZE {
            doubled
        } else {
            MIN_BUF_SIZE
        };
        if new_size < self.buffer.len() {
            self.resize_buffer(new_size);
        }
    }

    /// Moves the text into storage of `new_size` slots: the part before the
    /// cursor stays at the front, the part after it goes to the very end, and
    /// the gap is whatever lies between. No character is lost or repeated,
    /// and the cursor stays.
    fn resize_buffer(&mut self, new_size: usize)
        requires
            old(self).wf(),
            new_size >= old(self)@.used_size(),
            new_size >= MIN_BUF_SIZE,
        ensures
            final(self).wf(),
            final(self)@ == old(self)@.resize(new_size as nat),
            final(self)@.capacity == new_size,
            final(self)@.cursor == old(self)@.cursor,
            final(self)@.gap_end() == old(self)@.cursor + (new_size - old(self)@.used_size()),
            final(self)@.used_size() == old(self)@.used_size(),
            final(self)@.text == old(self)@.text,
    {
        let used_size: usize = self.used_size();
        let mut new_buffer: Vec<char> = Vec::with_capacity(new_size);

        let mut i: usize = 0;
        while i < self.cursor
            invariant
                self.wf(),
                i <= self.cursor,
                new_buffer@ == self.buffer@.subrange(0, i as int),
            decreases self.cursor - i,
        {
            new_buffer.push(self.buffer[i]);
            i += 1;
            assert(new_buffer@ =~= self.buffer@.subrange(0, i as int));
        }

        let filler: usize = new_size - used_size;
        let mut j: usize = 0;
        while j < filler
            invariant
                j <= filler,
                new_buffer@.len() == self.cursor + j,
                new_buffer@.subrange(0, self.cursor as int) == self.buffer@.subrange(
                    0,
                    self.cursor as int,
                ),
            decreases filler - j,
        {
            new_buffer.push('\0');
            j += 1;
            assert(new_buffer@.subrange(0, self.cursor as int) =~= self.buffer@.subrange(
                0,
                self.cursor as int,
            ));
        }

        let new_gap_end: usize = self.cursor + filler;
        let mut t: usize = self.gap_end;
        while t < self.buffer.len()
            invariant
                self.wf(),
                self.gap_end <= t <= self.buffer@.len(),
                new_gap_end == self.cursor + filler,
                new_buffer@.len() == new_gap_end + (t - self.gap_end),
                new_buffer@.subrange(0, self.cursor as int) == self.buffer@.subrange(
                    0,
                    self.cursor as int,
                ),
                new_buffer@.subrange(new_gap_end as int, new_buffer@.len() as int)
                    == self.buffer@.subrange(self.gap_end as int, t as int),
            decreases self.buffer@.len() - t,
        {
            new_buffer.push(self.buffer[t]);
            t += 1;
            assert(new_buffer@.subrange(0, self.cursor as int) =~= self.buffer@.subrange(
                0,
                self.cursor as int,
            ));
            assert(new_buffer@.subrange(new_gap_end as int, new_buffer@.len() as int)
                =~= self.buffer@.subrange(self.gap_end as int, t as int));
        }

        self.buffer = new_buffer;
        let widest: usize = self.cursor + (new_size - used_size);
        self.gap_end = if widest <= new_size {
            widest
        } else {
            new_size
        };
    }

    /// The text, as a string.
    pub fn extract_text(&self) -> (r: String)
        requires
            self.wf(),
        ensures
            r@ == self@.text,
    {
        let mut result: String = String::new();
        let mut i: usize = 0;
        while i < self.cursor
            invariant
                self.wf(),
                i <= self.cursor,
                result@ == self.buffer@.subrange(0, i as int),
            decreases self.cursor - i,
        {
            result.push(self.buffer[i]);
            i += 1;
            assert(result@ =~= self.buffer@.subrange(0, i as int));
        }
        let mut t: usize = self.gap_end;
        while t < self.buffer.len()
            invariant
                self.wf(),
                self.gap_end <= t <= self.buffer@.len(),
                result@ == self.buffer@.subrange(0, self.cursor as int) + self.buffer@.subrange(
                    self.gap_end as int,
                    t as int,
                ),
            decreases self.buffer@.len() - t,
        {
            result.push(self.buffer[t]);
            t += 1;
            assert(result@ =~= self.buffer@.subrange(0, self.cursor as int)
                + self.buffer@.subrange(self.gap_end as int, t as int));
        }
        result
    }
}

/// `String::push` of the standard library appends the given character to the
/// end of the string and changes nothing else.
pub assume_specification[ String::push ](s: &mut String, ch: char)
    ensures
        final(s)@ == old(s)@.push(ch),
;

} // verus!
