//! A fixed-length bit vector backed by 32-bit words.
//!
//! The length is fixed at construction. Bits are abstracted as a
//! `Seq<bool>`; every operation states exactly which bits it touches.
//! Binary operations demand operands of equal length: a mismatch is a
//! caller error, ruled out by precondition rather than detected at run
//! time.

use crate::arith::lemma_index_chunk_bound;
use crate::arith::lemma_split_index;
use vstd::assert_seqs_equal;
use vstd::prelude::*;
use vstd::string::StringExecFns;

verus! {

/// Bit `k` of the word `w`.
pub open spec fn word_bit(w: u32, k: u32) -> bool {
    (w >> k) & 1u32 == 1u32
}

/// The zero word has no bit set.
proof fn lemma_word_bit_zero(k: u32)
    requires
        k < 32,
    ensures
        !word_bit(0u32, k),
{
    assert(k < 32 ==> (0u32 >> k) & 1u32 != 1u32) by (bit_vector);
}

/// Or-ing a single-bit mask sets that bit and leaves the others alone.
proof fn lemma_word_bit_or_mask(w: u32, k: u32, j: u32)
    requires
        k < 32,
        j < 32,
    ensures
        word_bit(w | (1u32 << k), j) == (word_bit(w, j) || j == k),
{
    assert(k < 32 && j < 32 ==> (((w | (1u32 << k)) >> j) & 1u32 == 1u32) == ((w >> j) & 1u32
        == 1u32 || j == k)) by (bit_vector);
}

/// And-ing with the complement of a single-bit mask clears that bit only.
proof fn lemma_word_bit_and_not_mask(w: u32, k: u32, j: u32)
    requires
        k < 32,
        j < 32,
    ensures
        word_bit(w & !(1u32 << k), j) == (word_bit(w, j) && j != k),
{
    assert(k < 32 && j < 32 ==> (((w & !(1u32 << k)) >> j) & 1u32 == 1u32) == ((w >> j) & 1u32
        == 1u32 && j != k)) by (bit_vector);
}

/// Xor-ing a single-bit mask toggles that bit and leaves the others alone.
proof fn lemma_word_bit_xor_mask(w: u32, k: u32, j: u32)
    requires
        k < 32,
        j < 32,
    ensures
        word_bit(w ^ (1u32 << k), j) == (word_bit(w, j) != (j == k)),
{
    assert(k < 32 && j < 32 ==> (((w ^ (1u32 << k)) >> j) & 1u32 == 1u32) == (((w >> j) & 1u32
        == 1u32) != (j == k))) by (bit_vector);
}

/// Testing a single-bit mask against a word reads exactly that bit.
proof fn lemma_word_bit_test(w: u32, k: u32)
    requires
        k < 32,
    ensures
        (w & (1u32 << k) != 0) == word_bit(w, k),
{
    assert(k < 32 ==> (w & (1u32 << k) != 0) == ((w >> k) & 1u32 == 1u32)) by (bit_vector);
}

/// Bitwise and of words is the pointwise conjunction of their bits.
proof fn lemma_word_bit_and(a: u32, b: u32, j: u32)
    requires
        j < 32,
    ensures
        word_bit(a & b, j) == (word_bit(a, j) && word_bit(b, j)),
{
    assert(j < 32 ==> (((a & b) >> j) & 1u32 == 1u32) == ((a >> j) & 1u32 == 1u32 && (b >> j)
        & 1u32 == 1u32)) by (bit_vector);
}

/// Bitwise or of words is the pointwise disjunction of their bits.
proof fn lemma_word_bit_or(a: u32, b: u32, j: u32)
    requires
        j < 32,
    ensures
        word_bit(a | b, j) == (word_bit(a, j) || word_bit(b, j)),
{
    assert(j < 32 ==> (((a | b) >> j) & 1u32 == 1u32) == ((a >> j) & 1u32 == 1u32 || (b >> j)
        & 1u32 == 1u32)) by (bit_vector);
}

/// Bitwise xor of words is the pointwise difference of their bits.
proof fn lemma_word_bit_xor(a: u32, b: u32, j: u32)
    requires
        j < 32,
    ensures
        word_bit(a ^ b, j) == (word_bit(a, j) != word_bit(b, j)),
{
    assert(j < 32 ==> (((a ^ b) >> j) & 1u32 == 1u32) == (((a >> j) & 1u32 == 1u32) != ((b >> j)
        & 1u32 == 1u32))) by (bit_vector);
}

/// Complementing a word flips every bit.
proof fn lemma_word_bit_not(w: u32, j: u32)
    requires
        j < 32,
    ensures
        word_bit(!w, j) == !word_bit(w, j),
{
    assert(j < 32 ==> (((!w) >> j) & 1u32 == 1u32) == !((w >> j) & 1u32 == 1u32)) by (bit_vector);
}

/// A fixed-length bit vector over `ceil(len / 32)` words.
#[derive(Debug)]
pub struct Bitset {
    data: Vec<u32>,
    len: usize,
}

impl View for Bitset {
    type V = Seq<bool>;

    closed spec fn view(&self) -> Seq<bool> {
        Seq::new(self.len as nat, |i: int| word_bit(self.data@[i / 32], (i % 32) as u32))
    }
}

impl Bitset {
    /// Number of bits, fixed at construction.
    pub closed spec fn spec_len(self) -> usize {
        self.len
    }

    /// The backing words.
    pub closed spec fn spec_words(self) -> Seq<u32> {
        self.data@
    }

    /// The backing storage holds exactly one word per 32 bits.
    pub closed spec fn wf(self) -> bool {
        self.data@.len() == (self.len + 31) / 32
    }

    /// The abstract bits are one per bit of length.
    pub proof fn lemma_view_len(self)
        ensures
            self@.len() == self.spec_len(),
    {
    }
}

/// A bitset's abstract bits are one per bit of length.
pub broadcast proof fn lemma_bitset_view_len(b: Bitset)
    ensures
        #[trigger] b@.len() == b.spec_len(),
{
}

impl Bitset {

    /// Creates a bitset of `n` bits, all unset.
    pub fn new(n: usize) -> (r: Bitset)
        requires
            n <= usize::MAX - 31,
        ensures
            r.wf(),
            r.spec_len() == n,
            r@.len() == n,
            forall|i: int| 0 <= i < n ==> !r@[i],
    {
        let words: usize = (n + 31) / 32;
        let data: Vec<u32> = vec![0u32; words];
        let r = Bitset { data, len: n };
        proof {
            assert forall|i: int| 0 <= i < n implies !r@[i] by {
                lemma_split_index(i, 32);
                lemma_index_chunk_bound(i, n as int, 32);
                lemma_word_bit_zero((i % 32) as u32);
            }
        }
        r
    }

    /// Sets bit `index` to one.
    pub fn set(&mut self, index: usize)
        requires
            old(self).wf(),
            index < old(self).spec_len(),
        ensures
            final(self).wf(),
            final(self).spec_len() == old(self).spec_len(),
            final(self)@ == old(self)@.update(index as int, true),
    {
        proof {
            lemma_split_index(index as int, 32);
            lemma_index_chunk_bound(index as int, self.len as int, 32);
        }
        let wi: usize = index / 32;
        let bi: u32 = (index % 32) as u32;
        let w: u32 = self.data[wi];
        self.data[wi] = w | (1u32 << bi);
        proof {
            assert forall|j: int| 0 <= j < self.len implies self@[j] == (if j == index {
                true
            } else {
                old(self)@[j]
            }) by {
                lemma_split_index(j, 32);
                lemma_index_chunk_bound(j, self.len as int, 32);
                if j / 32 == wi {
                    lemma_word_bit_or_mask(old(self).data@[j / 32], bi, (j % 32) as u32);
                }
            }
            assert(self@ =~= old(self)@.update(index as int, true));
        }
    }

    /// Clears bit `index` to zero.
    pub fn reset(&mut self, index: usize)
        requires
            old(self).wf(),
            index < old(self).spec_len(),
        ensures
            final(self).wf(),
            final(self).spec_len() == old(self).spec_len(),
            final(self)@ == old(self)@.update(index as int, false),
    {
        proof {
            lemma_split_index(index as int, 32);
            lemma_index_chunk_bound(index as int, self.len as int, 32);
        }
        let wi: usize = index / 32;
        let bi: u32 = (index % 32) as u32;
        let w: u32 = self.data[wi];
        self.data[wi] = w & !(1u32 << bi);
        proof {
            assert forall|j: int| 0 <= j < self.len implies self@[j] == (if j == index {
                false
            } else {
                old(self)@[j]
            }) by {
                lemma_split_index(j, 32);
                lemma_index_chunk_bound(j, self.len as int, 32);
                if j / 32 == wi {
                    lemma_word_bit_and_not_mask(old(self).data@[j / 32], bi, (j % 32) as u32);
                }
            }
            assert(self@ =~= old(self)@.update(index as int, false));
        }
    }

    /// Flips bit `index`.
    pub fn flip(&mut self, index: usize)
        requires
            old(self).wf(),
            index < old(self).spec_len(),
        ensures
            final(self).wf(),
            final(self).spec_len() == old(self).spec_len(),
            final(self)@ == old(self)@.update(index as int, !old(self)@[index as int]),
    {
        proof {
            lemma_split_index(index as int, 32);
            lemma_index_chunk_bound(index as int, self.len as int, 32);
        }
        let wi: usize = index / 32;
        let bi: u32 = (index % 32) as u32;
        let w: u32 = self.data[wi];
        self.data[wi] = w ^ (1u32 << bi);
        proof {
            assert forall|j: int| 0 <= j < self.len implies self@[j] == (if j == index {
                !old(self)@[j]
            } else {
                old(self)@[j]
            }) by {
                lemma_split_index(j, 32);
                lemma_index_chunk_bound(j, self.len as int, 32);
                if j / 32 == wi {
                    lemma_word_bit_xor_mask(old(self).data@[j / 32], bi, (j % 32) as u32);
                }
            }
            assert(self@ =~= old(self)@.update(index as int, !old(self)@[index as int]));
        }
    }

    /// Reads bit `index`.
    pub fn test(&self, index: usize) -> (b: bool)
        requires
            self.wf(),
            index < self.spec_len(),
        ensures
            b == self@[index as int],
    {
        proof {
            lemma_split_index(index as int, 32);
            lemma_index_chunk_bound(index as int, self.len as int, 32);
            lemma_word_bit_test(self.data@[index as int / 32], (index as int % 32) as u32);
        }
        let wi: usize = index / 32;
        let bi: u32 = (index % 32) as u32;
        (self.data[wi] & (1u32 << bi)) != 0
    }

    /// Number of bits.
    pub fn len(&self) -> (n: usize)
        ensures
            n == self.spec_len(),
            n == self@.len(),
    {
        self.len
    }

    /// Renders the bits as a string of `'1'` and `'0'`, highest index first.
    pub fn to_string(&self) -> (s: String)
        requires
            self.wf(),
        ensures
            s@.len() == self.spec_len(),
            forall|k: int|
                0 <= k < self@.len() ==> s@[k] == (if self@[self@.len() - 1 - k] {
                    '1'
                } else {
                    '0'
                }),
    {
        proof {
            reveal_strlit("1");
            reveal_strlit("0");
        }
        let ghost n: int = self.len as int;
        let mut s = String::new();
        let mut i: usize = self.len;
        while i > 0
            invariant
                self.wf(),
                i <= self.len,
                s@.len() == self.len - i,
                forall|k: int|
                    0 <= k < self.len - i ==> s@[k] == (if self@[self.len - 1 - k] {
                        '1'
                    } else {
                        '0'
                    }),
            decreases i,
        {
            proof {
                reveal_strlit("1");
                reveal_strlit("0");
            }
            i = i - 1;
            if self.test(i) {
                s.append("1");
            } else {
                s.append("0");
            }
        }
        s
    }

    /// Bitwise and; both operands must have the same length.
    pub fn bitand(self, rhs: Bitset) -> (r: Bitset)
        requires
            self.wf(),
            rhs.wf(),
            self.spec_len() == rhs.spec_len(),
        ensures
            r.wf(),
            r.spec_len() == self.spec_len(),
            r@.len() == self.spec_len(),
            forall|i: int| 0 <= i < r@.len() ==> r@[i] == (self@[i] && rhs@[i]),
    {
        let n: usize = self.data.len();
        let mut data: Vec<u32> = Vec::new();
        let mut k: usize = 0;
        while k < n
            invariant
                k <= n,
                n == self.data@.len(),
                n == rhs.data@.len(),
                data@.len() == k,
                forall|t: int| 0 <= t < k ==> data@[t] == (self.data@[t] & rhs.data@[t]),
            decreases n - k,
        {
            let w: u32 = self.data[k] & rhs.data[k];
            data.push(w);
            k = k + 1;
        }
        let r = Bitset { data, len: self.len };
        proof {
            assert forall|i: int| 0 <= i < r@.len() implies r@[i] == (self@[i] && rhs@[i]) by {
                lemma_split_index(i, 32);
                lemma_index_chunk_bound(i, self.len as int, 32);
                lemma_word_bit_and(self.data@[i / 32], rhs.data@[i / 32], (i % 32) as u32);
            }
        }
        r
    }

    /// Bitwise or; both operands must have the same length.
    pub fn bitor(self, rhs: Bitset) -> (r: Bitset)
        requires
            self.wf(),
            rhs.wf(),
            self.spec_len() == rhs.spec_len(),
        ensures
            r.wf(),
            r.spec_len() == self.spec_len(),
            r@.len() == self.spec_len(),
            forall|i: int| 0 <= i < r@.len() ==> r@[i] == (self@[i] || rhs@[i]),
    {
        let n: usize = self.data.len();
        let mut data: Vec<u32> = Vec::new();
        let mut k: usize = 0;
        while k < n
            invariant
                k <= n,
                n == self.data@.len(),
                n == rhs.data@.len(),
                data@.len() == k,
                forall|t: int| 0 <= t < k ==> data@[t] == (self.data@[t] | rhs.data@[t]),
            decreases n - k,
        {
            let w: u32 = self.data[k] | rhs.data[k];
            data.push(w);
            k = k + 1;
        }
        let r = Bitset { data, len: self.len };
        proof {
            assert forall|i: int| 0 <= i < r@.len() implies r@[i] == (self@[i] || rhs@[i]) by {
                lemma_split_index(i, 32);
                lemma_index_chunk_bound(i, self.len as int, 32);
                lemma_word_bit_or(self.data@[i / 32], rhs.data@[i / 32], (i % 32) as u32);
            }
        }
        r
    }

    /// Bitwise xor; both operands must have the same length.
    pub fn bitxor(self, rhs: Bitset) -> (r: Bitset)
        requires
            self.wf(),
            rhs.wf(),
            self.spec_len() == rhs.spec_len(),
        ensures
            r.wf(),
            r.spec_len() == self.spec_len(),
            r@.len() == self.spec_len(),
            forall|i: int| 0 <= i < r@.len() ==> r@[i] == (self@[i] != rhs@[i]),
    {
        let n: usize = self.data.len();
        let mut data: Vec<u32> = Vec::new();
        let mut k: usize = 0;
        while k < n
            invariant
                k <= n,
                n == self.data@.len(),
                n == rhs.data@.len(),
                data@.len() == k,
                forall|t: int| 0 <= t < k ==> data@[t] == (self.data@[t] ^ rhs.data@[t]),
            decreases n - k,
        {
            let w: u32 = self.data[k] ^ rhs.data[k];
            data.push(w);
            k = k + 1;
        }
        let r = Bitset { data, len: self.len };
        proof {
            assert forall|i: int| 0 <= i < r@.len() implies r@[i] == (self@[i] != rhs@[i]) by {
                lemma_split_index(i, 32);
                lemma_index_chunk_bound(i, self.len as int, 32);
                lemma_word_bit_xor(self.data@[i / 32], rhs.data@[i / 32], (i % 32) as u32);
            }
        }
        r
    }

    /// Bitwise complement of every bit.
    pub fn not(self) -> (r: Bitset)
        requires
            self.wf(),
        ensures
            r.wf(),
            r.spec_len() == self.spec_len(),
            r@.len() == self.spec_len(),
            forall|i: int| 0 <= i < r@.len() ==> r@[i] == !self@[i],
    {
        let n: usize = self.data.len();
        let mut data: Vec<u32> = Vec::new();
        let mut k: usize = 0;
        while k < n
            invariant
                k <= n,
                n == self.data@.len(),
                data@.len() == k,
                forall|t: int| 0 <= t < k ==> data@[t] == !self.data@[t],
            decreases n - k,
        {
            let w: u32 = !self.data[k];
            data.push(w);
            k = k + 1;
        }
        let r = Bitset { data, len: self.len };
        proof {
            assert forall|i: int| 0 <= i < r@.len() implies r@[i] == !self@[i] by {
                lemma_split_index(i, 32);
                lemma_index_chunk_bound(i, self.len as int, 32);
                lemma_word_bit_not(self.data@[i / 32], (i % 32) as u32);
            }
        }
        r
    }

    /// In-place bitwise and with `rhs`.
    pub fn bitand_assign(&mut self, rhs: Bitset)
        requires
            old(self).wf(),
            rhs.wf(),
            old(self).spec_len() == rhs.spec_len(),
        ensures
            final(self).wf(),
            final(self).spec_len() == old(self).spec_len(),
            final(self)@ == Seq::new(old(self)@.len(), |i: int| old(self)@[i] && rhs@[i]),
    {
        let n: usize = self.data.len();
        let mut data: Vec<u32> = Vec::new();
        let mut k: usize = 0;
        while k < n
            invariant
                k <= n,
                n == self.data@.len(),
                n == rhs.data@.len(),
                *self == *old(self),
                data@.len() == k,
                forall|t: int| 0 <= t < k ==> data@[t] == (self.data@[t] & rhs.data@[t]),
            decreases n - k,
        {
            let w: u32 = self.data[k] & rhs.data[k];
            data.push(w);
            k = k + 1;
        }
        self.data = data;
        proof {
            assert_seqs_equal!(self@ == Seq::new(old(self)@.len(), |i: int| old(self)@[i] && rhs@[i]), i => {
                lemma_split_index(i, 32);
                lemma_index_chunk_bound(i, self.len as int, 32);
                lemma_word_bit_and(old(self).data@[i / 32], rhs.data@[i / 32], (i % 32) as u32);
            });
        }
    }

    /// In-place bitwise or with `rhs`.
    pub fn bitor_assign(&mut self, rhs: Bitset)
        requires
            old(self).wf(),
            rhs.wf(),
            old(self).spec_len() == rhs.spec_len(),
        ensures
            final(self).wf(),
            final(self).spec_len() == old(self).spec_len(),
            final(self)@ == Seq::new(old(self)@.len(), |i: int| old(self)@[i] || rhs@[i]),
    {
        let n: usize = self.data.len();
        let mut data: Vec<u32> = Vec::new();
        let mut k: usize = 0;
        while k < n
            invariant
                k <= n,
                n == self.data@.len(),
                n == rhs.data@.len(),
                *self == *old(self),
                data@.len() == k,
                forall|t: int| 0 <= t < k ==> data@[t] == (self.data@[t] | rhs.data@[t]),
            decreases n - k,
        {
            let w: u32 = self.data[k] | rhs.data[k];
            data.push(w);
            k = k + 1;
        }
        self.data = data;
        proof {
            assert_seqs_equal!(self@ == Seq::new(old(self)@.len(), |i: int| old(self)@[i] || rhs@[i]), i => {
                lemma_split_index(i, 32);
                lemma_index_chunk_bound(i, self.len as int, 32);
                lemma_word_bit_or(old(self).data@[i / 32], rhs.data@[i / 32], (i % 32) as u32);
            });
        }
    }

    /// In-place bitwise xor with `rhs`.
    pub fn bitxor_assign(&mut self, rhs: Bitset)
        requires
            old(self).wf(),
            rhs.wf(),
            old(self).spec_len() == rhs.spec_len(),
        ensures
            final(self).wf(),
            final(self).spec_len() == old(self).spec_len(),
            final(self)@ == Seq::new(old(self)@.len(), |i: int| old(self)@[i] != rhs@[i]),
    {
        let n: usize = self.data.len();
        let mut data: Vec<u32> = Vec::new();
        let mut k: usize = 0;
        while k < n
            invariant
                k <= n,
                n == self.data@.len(),
                n == rhs.data@.len(),
                *self == *old(self),
                data@.len() == k,
                forall|t: int| 0 <= t < k ==> data@[t] == (self.data@[t] ^ rhs.data@[t]),
            decreases n - k,
        {
            let w: u32 = self.data[k] ^ rhs.data[k];
            data.push(w);
            k = k + 1;
        }
        self.data = data;
        proof {
            assert_seqs_equal!(self@ == Seq::new(old(self)@.len(), |i: int| old(self)@[i] != rhs@[i]), i => {
                lemma_split_index(i, 32);
                lemma_index_chunk_bound(i, self.len as int, 32);
                lemma_word_bit_xor(old(self).data@[i / 32], rhs.data@[i / 32], (i % 32) as u32);
            });
        }
    }

}

impl Clone for Bitset {
    /// Clones the bitset; the copy has the same length and the same bits.
    fn clone(&self) -> (r: Bitset)
        ensures
            r.spec_len() == self.spec_len(),
            r.spec_words() == self.spec_words(),
            r@ == self@,
            r.wf() == self.wf(),
    {
        let n: usize = self.data.len();
        let mut data: Vec<u32> = Vec::new();
        let mut k: usize = 0;
        while k < n
            invariant
                k <= n,
                n == self.data@.len(),
                data@.len() == k,
                forall|t: int| 0 <= t < k ==> data@[t] == self.data@[t],
            decreases n - k,
        {
            let w: u32 = self.data[k];
            data.push(w);
            k = k + 1;
        }
        proof {
            assert(data@ =~= self.data@);
        }
        Bitset { data, len: self.len }
    }
}

impl PartialEq for Bitset {
    /// Two bitsets are equal when their lengths and backing words agree.
    fn eq(&self, other: &Bitset) -> (r: bool) {
        if self.len != other.len {
            return false;
        }
        if self.data.len() != other.data.len() {
            return false;
        }
        let n: usize = self.data.len();
        let mut k: usize = 0;
        while k < n
            invariant
                k <= n,
                n == self.data@.len(),
                n == other.data@.len(),
                forall|t: int| 0 <= t < k ==> self.data@[t] == other.data@[t],
            decreases n - k,
        {
            if self.data[k] != other.data[k] {
                return false;
            }
            k = k + 1;
        }
        proof {
            assert(self.data@ =~= other.data@);
        }
        true
    }
}

impl vstd::std_specs::cmp::PartialEqSpecImpl for Bitset {
    open spec fn obeys_eq_spec() -> bool {
        true
    }

    open spec fn eq_spec(&self, other: &Bitset) -> bool {
        self.spec_len() == other.spec_len() && self.spec_words() == other.spec_words()
    }
}

} // verus!
