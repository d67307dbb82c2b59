//! A fixed-size array of bits, packed sixty-four to a word.

use vstd::prelude::*;

verus! {

/// Bit number `offset` of `word`, counted from the least significant one.
pub open spec fn bit_at(word: u64, offset: u64) -> bool {
    (word >> offset) & 1 == 1
}

proof fn lemma_bit_of_zero(j: u64)
    by (bit_vector)
    requires
        j < 64,
    ensures
        !bit_at(0, j),
{
}

proof fn lemma_bit_tested(w: u64, o: u64)
    by (bit_vector)
    requires
        o < 64,
    ensures
        (w & (1u64 << o) != 0) == bit_at(w, o),
{
}

proof fn lemma_bit_set(w: u64, o: u64, j: u64)
    by (bit_vector)
    requires
        o < 64,
        j < 64,
    ensures
        bit_at(w | (1u64 << o), j) == (j == o || bit_at(w, j)),
{
}

proof fn lemma_bit_cleared(w: u64, o: u64, j: u64)
    by (bit_vector)
    requires
        o < 64,
        j < 64,
    ensures
        bit_at(w & !(1u64 << o), j) == (j != o && bit_at(w, j)),
{
}

proof fn lemma_bit_toggled(w: u64, o: u64, j: u64)
    by (bit_vector)
    requires
        o < 64,
        j < 64,
    ensures
        bit_at(w ^ (1u64 << o), j) == (bit_at(w, j) != (j == o)),
{
}

proof fn lemma_bit_of_not(w: u64, j: u64)
    by (bit_vector)
    requires
        j < 64,
    ensures
        bit_at(!w, j) == !bit_at(w, j),
{
}

proof fn lemma_bit_of_or(a: u64, b: u64, j: u64)
    by (bit_vector)
    requires
        j < 64,
    ensures
        bit_at(a | b, j) == (bit_at(a, j) || bit_at(b, j)),
{
}

proof fn lemma_bit_of_and(a: u64, b: u64, j: u64)
    by (bit_vector)
    requires
        j < 64,
    ensures
        bit_at(a & b, j) == (bit_at(a, j) && bit_at(b, j)),
{
}

proof fn lemma_bit_of_shifted(w: u64, k: u64)
    by (bit_vector)
    requires
        k < 64,
    ensures
        ((w >> k) & 1 != 0) == bit_at(w, k),
        k < 63 ==> (w >> k) >> 1 == w >> ((k + 1) as u64),
        w >> 0 == w,
{
}

/// An array of `size` bits.
#[derive(Debug)]
pub struct BitArray {
    bits: Vec<u64>,
    size: usize,
}

impl View for BitArray {
    type V = Seq<bool>;

    closed spec fn view(&self) -> Seq<bool> {
        Seq::new(self.size as nat, |i: int| bit_at(self.bits@[i / 64], (i % 64) as u64))
    }
}

impl BitArray {
    /// The representation invariant: there is one word for every sixty-four
    /// bits, the last one possibly in part.
    pub closed spec fn wf(&self) -> bool {
        self.bits@.len() == (self.size + 63) / 64
    }

    /// An array of `size` bits, all clear.
    pub fn new(size: usize) -> (r: Self)
        requires
            size + 63 <= usize::MAX,
        ensures
            r.wf(),
            r@ == Seq::new(size as nat, |i: int| false),
    {
        let elem_num: usize = (size + 63) / 64;
        let r = Self { bits: vec![0; elem_num], size };
        proof {
            assert forall|i: int| 0 <= i < size implies !(#[trigger] r@[i]) by {
                lemma_bit_of_zero((i % 64) as u64);
            }
            assert(r@ =~= Seq::new(size as nat, |i: int| false));
        }
        r
    }

    /// Number of bits.
    pub fn size(&self) -> (r: usize)
        ensures
            r == self@.len(),
    {
        self.size
    }

    /// Number of words behind the bits.
    pub fn words(&self) -> (r: usize)
        requires
            self.wf(),
        ensures
            r == (self@.len() + 63) / 64,
    {
        self.bits.len()
    }

    /// The word that holds bit `idx` and the bit's place in that word.
    #[inline(always)]
    fn idx_to_pos(&self, idx: usize) -> (pos: (usize, usize))
        requires
            idx < self@.len(),
        ensures
            pos.0 == idx / 64,
            pos.1 == idx % 64,
    {
        (idx / 64, idx % 64)
    }

    /// Sets bit `idx`.
    pub fn set(&mut self, idx: usize)
        requires
            old(self).wf(),
            idx < old(self)@.len(),
        ensures
            final(self).wf(),
            final(self)@ == old(self)@.update(idx as int, true),
    {
        let (block, offset) = self.idx_to_pos(idx);
        let word: u64 = self.bits[block];
        self.bits[block] = word | (1u64 << offset);
        proof {
            assert forall|i: int| 0 <= i < self.size implies #[trigger] self@[i] == old(
                self,
            )@.update(idx as int, true)[i] by {
                if i / 64 == block as int {
                    lemma_bit_set(word, offset as u64, (i % 64) as u64);
                }
            }
            assert(self@ =~= old(self)@.update(idx as int, true));
        }
    }

    /// Whether bit `idx` is set.
    pub fn get(&self, idx: usize) -> (r: bool)
        requires
            self.wf(),
            idx < self@.len(),
        ensures
            r == self@[idx as int],
    {
        let (block, offset) = self.idx_to_pos(idx);
        proof {
            lemma_bit_tested(self.bits@[block as int], offset as u64);
        }
        (self.bits[block] & (1u64 << offset)) != 0
    }

    /// Clears bit `idx`.
    pub fn clear(&mut self, idx: usize)
        requires
            old(self).wf(),
            idx < old(self)@.len(),
        ensures
            final(self).wf(),
            final(self)@ == old(self)@.update(idx as int, false),
    {
        let (block, offset) = self.idx_to_pos(idx);
        let word: u64 = self.bits[block];
        self.bits[block] = word & !(1u64 << offset);
        proof {
            assert forall|i: int| 0 <= i < self.size implies #[trigger] self@[i] == old(
                self,
            )@.update(idx as int, false)[i] by {
                if i / 64 == block as int {
                    lemma_bit_cleared(word, offset as u64, (i % 64) as u64);
                }
            }
            assert(self@ =~= old(self)@.update(idx as int, false));
        }
    }

    /// Flips bit `idx`.
    pub fn toggle(&mut self, idx: usize)
        requires
            old(self).wf(),
            idx < old(self)@.len(),
        ensures
            final(self).wf(),
            final(self)@ == old(self)@.update(idx as int, !old(self)@[idx as int]),
    {
        let (block, offset) = self.idx_to_pos(idx);
        let word: u64 = self.bits[block];
        self.bits[block] = word ^ (1u64 << offset);
        proof {
            assert forall|i: int| 0 <= i < self.size implies #[trigger] self@[i] == old(
                self,
            )@.update(idx as int, !old(self)@[idx as int])[i] by {
                if i / 64 == block as int {
                    lemma_bit_toggled(word, offset as u64, (i % 64) as u64);
                }
            }
            assert(self@ =~= old(self)@.update(idx as int, !old(self)@[idx as int]));
        }
    }

    /// Flips every bit.
    pub fn invert(&mut self)
        requires
            old(self).wf(),
        ensures
            final(self).wf(),
            final(self)@ == Seq::new(old(self)@.len(), |i: int| !old(self)@[i]),
    {
        let n: usize = self.bits.len();
        let mut k: usize = 0;
        while k < n
            invariant
                k <= n,
                n == self.bits@.len(),
                self.size == old(self).size,
                self.bits@.len() == old(self).bits@.len(),
                forall|b: int| 0 <= b < k ==> #[trigger] self.bits@[b] == !old(self).bits@[b],
                forall|b: int| k <= b < n ==> #[trigger] self.bits@[b] == old(self).bits@[b],
            decreases n - k,
        {
            let word: u64 = self.bits[k];
            self.bits[k] = !word;
            k += 1;
        }
        proof {
            assert forall|i: int| 0 <= i < self.size implies #[trigger] self@[i] == !old(
                self,
            )@[i] by {
                assert(self.bits@[i / 64] == !old(self).bits@[i / 64]);
                lemma_bit_of_not(old(self).bits@[i / 64], (i % 64) as u64);
            }
            assert(self@ =~= Seq::new(old(self)@.len(), |i: int| !old(self)@[i]));
        }
    }

    /// The bits set in `self` or in `other`.
    pub fn union(&self, other: &Self) -> (r: Self)
        requires
            self.wf(),
            other.wf(),
            self@.len() == other@.len(),
        ensures
            r.wf(),
            r@ == Seq::new(self@.len(), |i: int| self@[i] || other@[i]),
    {
        let mut bits: Vec<u64> = Vec::with_capacity(self.bits.len());
        for i in 0..self.bits.len()
            invariant
                self.bits@.len() == other.bits@.len(),
                bits@.len() == i,
                forall|b: int| 0 <= b < i ==> #[trigger] bits@[b] == self.bits@[b] | other.bits@[b],
        {
            bits.push(self.bits[i] | other.bits[i]);
        }
        let r = Self { bits, size: self.size };
        proof {
            assert forall|i: int| 0 <= i < self.size implies #[trigger] r@[i] == (self@[i]
                || other@[i]) by {
                assert(r.bits@[i / 64] == self.bits@[i / 64] | other.bits@[i / 64]);
                lemma_bit_of_or(self.bits@[i / 64], other.bits@[i / 64], (i % 64) as u64);
            }
            assert(r@ =~= Seq::new(self@.len(), |i: int| self@[i] || other@[i]));
        }
        r
    }

    /// The bits set in both `self` and `other`.
    pub fn intersection(&self, other: &Self) -> (r: Self)
        requires
            self.wf(),
            other.wf(),
            self@.len() == other@.len(),
        ensures
            r.wf(),
            r@ == Seq::new(self@.len(), |i: int| self@[i] && other@[i]),
    {
        let mut bits: Vec<u64> = Vec::with_capacity(self.bits.len());
        for i in 0..self.bits.len()
            invariant
                self.bits@.len() == other.bits@.len(),
                bits@.len() == i,
                forall|b: int| 0 <= b < i ==> #[trigger] bits@[b] == self.bits@[b] & other.bits@[b],
        {
            bits.push(self.bits[i] & other.bits[i]);
        }
        let r = Self { bits, size: self.size };
        proof {
            assert forall|i: int| 0 <= i < self.size implies #[trigger] r@[i] == (self@[i]
                && other@[i]) by {
                assert(r.bits@[i / 64] == self.bits@[i / 64] & other.bits@[i / 64]);
                lemma_bit_of_and(self.bits@[i / 64], other.bits@[i / 64], (i % 64) as u64);
            }
            assert(r@ =~= Seq::new(self@.len(), |i: int| self@[i] && other@[i]));
        }
        r
    }

    /// The bits set in `self` and not in `other`.
    pub fn difference(&self, other: &Self) -> (r: Self)
        requires
            self.wf(),
            other.wf(),
            self@.len() == other@.len(),
        ensures
            r.wf(),
            r@ == Seq::new(self@.len(), |i: int| self@[i] && !other@[i]),
    {
        let mut bits: Vec<u64> = Vec::with_capacity(self.bits.len());
        for i in 0..self.bits.len()
            invariant
                self.bits@.len() == other.bits@.len(),
                bits@.len() == i,
                forall|b: int|
                    0 <= b < i ==> #[trigger] bits@[b] == self.bits@[b] & !other.bits@[b],
        {
            bits.push(self.bits[i] & !other.bits[i]);
        }
        let r = Self { bits, size: self.size };
        proof {
            assert forall|i: int| 0 <= i < self.size implies #[trigger] r@[i] == (self@[i]
                && !other@[i]) by {
                assert(r.bits@[i / 64] == self.bits@[i / 64] & !other.bits@[i / 64]);
                lemma_bit_of_not(other.bits@[i / 64], (i % 64) as u64);
                lemma_bit_of_and(self.bits@[i / 64], !other.bits@[i / 64], (i % 64) as u64);
            }
            assert(r@ =~= Seq::new(self@.len(), |i: int| self@[i] && !other@[i]));
        }
        r
    }

    /// The bits not set in `self`.
    pub fn complement(&self) -> (r: Self)
        requires
            self.wf(),
        ensures
            r.wf(),
            r@ == Seq::new(self@.len(), |i: int| !self@[i]),
    {
        let mut bits: Vec<u64> = Vec::with_capacity(self.bits.len());
        for i in 0..self.bits.len()
            invariant
                bits@.len() == i,
                forall|b: int| 0 <= b < i ==> #[trigger] bits@[b] == !self.bits@[b],
        {
            bits.push(!self.bits[i]);
        }
        let r = Self { bits, size: self.size };
        proof {
            assert forall|i: int| 0 <= i < self.size implies #[trigger] r@[i] == !self@[i] by {
                assert(r.bits@[i / 64] == !self.bits@[i / 64]);
                lemma_bit_of_not(self.bits@[i / 64], (i % 64) as u64);
            }
            assert(r@ =~= Seq::new(self@.len(), |i: int| !self@[i]));
        }
        r
    }

    /// Calls `f` with each index and the bit found there, from index zero up.
    /// When it returns, `f` has run on every bit of the array.
    pub fn iter_bits<F>(&self, mut f: F) where F: FnMut(usize, bool)
        requires
            self.wf(),
            forall|i: usize, b: bool| call_requires(f, (i, b)),
        ensures
            forall|i: usize| i < self@.len() ==> call_ensures(f, (i, #[trigger] self@[i as int]), ()),
    {
        let n: usize = self.bits.len();
        let mut i: usize = 0;
        let ghost visitor = f;
        while i < n
            invariant
                self.wf(),
                i <= n,
                n == self.bits@.len(),
                f == visitor,
                forall|k: usize, b: bool| call_requires(f, (k, b)),
                forall|k: usize|
                    k < self.size && k < i * 64 ==> call_ensures(
                        f,
                        (k, #[trigger] self@[k as int]),
                        (),
                    ),
            decreases n - i,
        {
            let mut word: u64 = self.bits[i];
            let base_idx: usize = i * 64;
            let mut bit: usize = 0;
            proof {
                lemma_bit_of_shifted(self.bits@[i as int], 0);
            }
            while bit < 64
                invariant_except_break
                    bit < 64 ==> word == self.bits@[i as int] >> (bit as u64),
                invariant
                    self.wf(),
                    i < n,
                    n == self.bits@.len(),
                    bit <= 64,
                    base_idx == i * 64,
                    f == visitor,
                    forall|k: usize, b: bool| call_requires(f, (k, b)),
                    forall|k: usize|
                        k < self.size && k < base_idx + bit ==> call_ensures(
                            f,
                            (k, #[trigger] self@[k as int]),
                            (),
                        ),
                ensures
                    forall|k: usize|
                        k < self.size && k < base_idx + 64 ==> call_ensures(
                            f,
                            (k, #[trigger] self@[k as int]),
                            (),
                        ),
                decreases 64 - bit,
            {
                let lsb: bool = (word & 1) != 0;
                let bit_idx: usize = base_idx + bit;
                proof {
                    lemma_bit_of_shifted(self.bits@[i as int], bit as u64);
                }
                if bit_idx < self.size {
                    f(bit_idx, lsb);
                } else {
                    break ;
                }

                word = word >> 1;
                bit += 1;
            }
            i += 1;
        }
        assert(self.size <= n * 64);
    }
}

} // verus!
