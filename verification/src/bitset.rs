//! The board itself: a fixed number of boolean flags packed into 64-bit
//! words, created all-zero and mutated in place.

use vstd::prelude::*;
use crate::algebra::diff_bits;
use crate::algebra::empty_bits;
use crate::algebra::line_bits;
use crate::algebra::union_bits;

verus! {

/// True iff bit `k` of the machine word `w` is one.
pub open spec fn word_bit(w: u64, k: u64) -> bool {
    (w >> k) & 1u64 == 1u64
}

/// Number of 64-bit words needed to hold `c` bits, for `c >= 1`.
pub open spec fn word_count(c: nat) -> nat {
    ((c - 1) / 64 + 1) as nat
}

/// The bit at global index `i` of a sequence of words, word 0 first,
/// least-significant bit first within a word.
pub open spec fn seq_bit(ws: Seq<u64>, i: int) -> bool {
    word_bit(ws[i / 64], (i % 64) as u64)
}

/// A bit set of fixed capacity. Bit index `i` is valid iff `i < capacity`;
/// bit `i` is stored at bit `i % 64` of word `i / 64`. The bits of the last
/// word beyond the capacity are padding and stay zero.
pub struct BitboardInternal {
    words: Vec<u64>,
    capacity: usize,
}

impl View for BitboardInternal {
    type V = Seq<bool>;

    closed spec fn view(&self) -> Seq<bool> {
        Seq::new(self.capacity as nat, |i: int| seq_bit(self.words@, i))
    }
}

impl BitboardInternal {
    /// Well-formed: at least one bit, exactly the words the capacity needs,
    /// and every padding bit zero.
    pub closed spec fn wf(&self) -> bool {
        &&& self.capacity >= 1
        &&& self.words@.len() == word_count(self.capacity as nat)
        &&& forall|i: int|
            self.capacity <= i < self.words@.len() * 64 ==> !(#[trigger] seq_bit(self.words@, i))
    }

    /// Creates a new board of `capacity` bits, all zero.
    pub fn new(capacity: usize) -> (r: Self)
        requires
            capacity >= 1,
        ensures
            r.wf(),
            r@ == empty_bits(capacity as nat),
    {
        let word_len = (capacity - 1) / 64 + 1;
        let mut words: Vec<u64> = Vec::new();
        let mut i: usize = 0;
        while i < word_len
            invariant
                i <= word_len,
                words@.len() == i,
                forall|j: int| 0 <= j < i ==> words@[j] == 0u64,
            decreases word_len - i,
        {
            words.push(0u64);
            i += 1;
        }
        let r = BitboardInternal { words, capacity };
        proof {
            lemma_zero_word_bits();
            assert forall|i: int| 0 <= i < r.words@.len() * 64 implies !seq_bit(r.words@, i) by {
                lemma_div64_in_range(i, r.words@.len() as int);
            }
            assert(r@ =~= empty_bits(capacity as nat));
        }
        r
    }

    /// The number of bits this board holds.
    pub fn capacity(&self) -> (r: usize)
        ensures
            r == self@.len(),
    {
        self.capacity
    }

    /// Returns the word holding bit `index` and a mask with the
    /// corresponding bit set.
    fn word_mask(&self, index: usize) -> (r: (u64, u64))
        requires
            index < self.words@.len() * 64,
        ensures
            r.0 == self.words@[index as int / 64],
            r.1 == 1u64 << ((index % 64) as u64),
    {
        proof {
            lemma_div64_in_range(index as int, self.words@.len() as int);
        }
        (self.words[index / 64], 1u64 << ((index % 64) as u64))
    }

    /// ORs a whole word, shifted to bit offset `index % 64`, into the word
    /// holding bit `index`; the bits shifted past the word boundary are
    /// discarded.
    fn set_word(&mut self, index: usize, word: u64)
        requires
            index < old(self).words@.len() * 64,
        ensures
            final(self).capacity == old(self).capacity,
            final(self).words@ == old(self).words@.update(
                index as int / 64,
                (old(self).words@[index as int / 64] | (word << ((index % 64) as u64))) as u64,
            ),
    {
        proof {
            lemma_div64_in_range(index as int, self.words@.len() as int);
        }
        let wi = index / 64;
        let off = (index % 64) as u64;
        let w = self.words[wi];
        self.words[wi] = w | (word << off);
    }

    /// Sets bit `index` to 1.
    pub fn set(&mut self, index: usize)
        requires
            old(self).wf(),
            index < old(self)@.len(),
        ensures
            final(self).wf(),
            final(self)@ == old(self)@.update(index as int, true),
    {
        proof {
            lemma_capacity_fits(self.capacity as nat);
        }
        self.set_word(index, 1);
        proof {
            let ws0 = old(self).words@;
            let ws1 = self.words@;
            let wi = index as int / 64;
            let off = (index % 64) as u64;
            lemma_set_single_bit();
            assert forall|i: int| 0 <= i < ws1.len() * 64 implies seq_bit(ws1, i) == (
                seq_bit(ws0, i) || i == index
            ) by {
                lemma_div64_in_range(i, ws1.len() as int);
                lemma_div64_in_range(index as int, ws1.len() as int);
                if i / 64 == wi {
                    assert(seq_bit(ws1, i) == word_bit((ws0[wi] | (1u64 << off)) as u64,
                        (i % 64) as u64));
                }
            }
            assert(self@ =~= old(self)@.update(index as int, true));
        }
    }

    /// Clears bit `index` to 0.
    pub fn unset(&mut self, index: usize)
        requires
            old(self).wf(),
            index < old(self)@.len(),
        ensures
            final(self).wf(),
            final(self)@ == old(self)@.update(index as int, false),
    {
        proof {
            lemma_capacity_fits(self.capacity as nat);
            lemma_div64_in_range(index as int, self.words@.len() as int);
        }
        let wi = index / 64;
        let off = (index % 64) as u64;
        let w = self.words[wi];
        self.words[wi] = w & !(1u64 << off);
        proof {
            let ws0 = old(self).words@;
            let ws1 = self.words@;
            lemma_unset_single_bit();
            assert forall|i: int| 0 <= i < ws1.len() * 64 implies seq_bit(ws1, i) == (
                seq_bit(ws0, i) && i != index
            ) by {
                lemma_div64_in_range(i, ws1.len() as int);
                if i / 64 == wi {
                    assert(seq_bit(ws1, i) == word_bit((w & !(1u64 << off)) as u64,
                        (i % 64) as u64));
                }
            }
            assert(self@ =~= old(self)@.update(index as int, false));
        }
    }

    /// Returns whether bit `index` is 1.
    pub fn is_set(&self, index: usize) -> (r: bool)
        requires
            self.wf(),
            index < self@.len(),
        ensures
            r == self@[index as int],
    {
        proof {
            lemma_capacity_fits(self.capacity as nat);
        }
        let (word, mask) = self.word_mask(index);
        proof {
            lemma_mask_test();
        }
        word & mask != 0
    }

    /// Returns whether no bit of the board is set.
    pub fn is_empty(&self) -> (r: bool)
        requires
            self.wf(),
        ensures
            r <==> self@ == empty_bits(self@.len()),
    {
        proof {
            lemma_capacity_fits(self.capacity as nat);
        }
        let mut i: usize = 0;
        while i < self.words.len()
            invariant
                i <= self.words@.len(),
                self.wf(),
                forall|j: int| 0 <= j < i ==> self.words@[j] == 0u64,
            decreases self.words@.len() - i,
        {
            if self.words[i] != 0 {
                proof {
                    lemma_capacity_fits(self.capacity as nat);
                    let w = self.words@[i as int];
                    lemma_nonzero_word_has_bit(w);
                    let k = choose|k: u64| k < 64 && word_bit(w, k);
                    let g = i as int * 64 + k as int;
                    lemma_word_offset(i as int, k as int, self.words@.len() as int);
                    assert(seq_bit(self.words@, g));
                    assert(g < self.capacity);
                    assert(self@[g] != empty_bits(self@.len())[g]);
                }
                return false;
            }
            i += 1;
        }
        proof {
            lemma_zero_word_bits();
            assert forall|g: int| 0 <= g < self@.len() implies !self@[g] by {
                lemma_div64_in_range(g, self.words@.len() as int);
            }
            assert(self@ =~= empty_bits(self@.len()));
        }
        true
    }

    /// Adds every bit of `other` to this board, in place: `self |= other`.
    /// Both boards must have the same capacity.
    pub fn union_with(&mut self, other: &Self)
        requires
            old(self).wf(),
            other.wf(),
            old(self)@.len() == other@.len(),
        ensures
            final(self).wf(),
            final(self)@ == union_bits(old(self)@, other@),
    {
        let mut i: usize = 0;
        while i < self.words.len()
            invariant
                i <= self.words@.len(),
                self.capacity == old(self).capacity,
                self.words@.len() == old(self).words@.len(),
                other.words@.len() == self.words@.len(),
                forall|j: int|
                    0 <= j < i ==> self.words@[j] == (old(self).words@[j] | other.words@[j]),
                forall|j: int| i <= j < self.words@.len() ==> self.words@[j] == old(self).words@[j],
            decreases self.words@.len() - i,
        {
            let w = self.words[i];
            let ow = other.words[i];
            self.words[i] = w | ow;
            i += 1;
        }
        proof {
            lemma_or_word_bits();
            let ws0 = old(self).words@;
            let ws1 = self.words@;
            let ows = other.words@;
            assert forall|g: int| 0 <= g < ws1.len() * 64 implies seq_bit(ws1, g) == (
                seq_bit(ws0, g) || seq_bit(ows, g)
            ) by {
                lemma_div64_in_range(g, ws1.len() as int);
                assert(seq_bit(ws1, g) == word_bit((ws0[g / 64] | ows[g / 64]) as u64,
                    (g % 64) as u64));
            }
            assert(self@ =~= union_bits(old(self)@, other@));
        }
    }

    /// Removes every bit of `other` from this board, in place: set
    /// subtraction, not arithmetic. Both boards must have the same capacity.
    pub fn difference_with(&mut self, other: &Self)
        requires
            old(self).wf(),
            other.wf(),
            old(self)@.len() == other@.len(),
        ensures
            final(self).wf(),
            final(self)@ == diff_bits(old(self)@, other@),
    {
        let mut i: usize = 0;
        while i < self.words.len()
            invariant
                i <= self.words@.len(),
                self.capacity == old(self).capacity,
                self.words@.len() == old(self).words@.len(),
                other.words@.len() == self.words@.len(),
                forall|j: int|
                    0 <= j < i ==> self.words@[j] == (old(self).words@[j] & !other.words@[j]),
                forall|j: int| i <= j < self.words@.len() ==> self.words@[j] == old(self).words@[j],
            decreases self.words@.len() - i,
        {
            let w = self.words[i];
            let ow = other.words[i];
            self.words[i] = w & !ow;
            i += 1;
        }
        proof {
            lemma_andnot_word_bits();
            let ws0 = old(self).words@;
            let ws1 = self.words@;
            let ows = other.words@;
            assert forall|g: int| 0 <= g < ws1.len() * 64 implies seq_bit(ws1, g) == (
                seq_bit(ws0, g) && !seq_bit(ows, g)
            ) by {
                lemma_div64_in_range(g, ws1.len() as int);
                assert(seq_bit(ws1, g) == word_bit((ws0[g / 64] & !ows[g / 64]) as u64,
                    (g % 64) as u64));
            }
            assert(self@ =~= diff_bits(old(self)@, other@));
        }
    }

    /// Sets the `line_size` contiguous bits starting at global bit index
    /// `line_no * line_size` — one row of a rectangular board packed into the
    /// flat bit space. The row may straddle two words. Lines as wide as a
    /// machine word or wider are not supported, and the whole row must fit
    /// within the capacity.
    pub fn set_whole_line(&mut self, line_no: usize, line_size: usize)
        requires
            old(self).wf(),
            1 <= line_size < 64,
            line_no * line_size + line_size <= old(self)@.len(),
        ensures
            final(self).wf(),
            final(self)@ == union_bits(
                old(self)@,
                line_bits(old(self)@.len(), line_no * line_size, line_size as int),
            ),
    {
        proof {
            lemma_capacity_fits(self.capacity as nat);
            lemma_one_shift_at_least_one(line_size as u64);
        }
        let start_index = line_no * line_size;
        let start_pos = start_index % 64;
        // A word composed of line_size ones as least-significant bits.
        let ones: u64 = (1u64 << (line_size as u64)) - 1;
        let ghost ws0 = self.words@;
        let ghost start = start_index as int;
        let ghost ls = line_size as int;
        let ghost len = self.words@.len() as int;
        let ghost wi = start / 64;
        let ghost off = start % 64;
        proof {
            lemma_div64_in_range(start, len);
        }
        // if the line fits in a single word
        if start_pos + line_size <= 64 {
            self.set_word(start_index, ones);
            proof {
                let ws1 = self.words@;
                assert forall|g: int| 0 <= g < len * 64 implies #[trigger] seq_bit(ws1, g) == (
                    seq_bit(ws0, g) || (start <= g < start + ls)
                ) by {
                    lemma_div64_in_range(g, len);
                    if g / 64 == wi {
                        lemma_low_mask_bits(ws0[wi], off as u64, line_size as u64, (g % 64) as u64);
                    }
                }
                lemma_line_view(*old(self), *self, start, ls);
            }
        // if it spans two words
        } else {
            // first word: the bits of the mask past the boundary are discarded
            self.set_word(start_index, ones);
            let ghost mid = self.words@;
            // second word: the discarded high part of the mask, brought down
            // to the low end of the next word
            let second_ones = ones >> ((64 - start_pos) as u64);
            let transition_index = start_index + (64 - start_pos);
            let ghost ti = transition_index as int;
            proof {
                lemma_div64_in_range(ti, len);
                assert(ti / 64 == wi + 1 && ti % 64 == 0);
            }
            self.set_word(transition_index, second_ones);
            proof {
                let ws2 = self.words@;
                lemma_shift_by_zero(second_ones);
                assert(ws2[wi + 1] == ws0[wi + 1] | second_ones);
                assert forall|g: int| 0 <= g < len * 64 implies #[trigger] seq_bit(ws2, g) == (
                    seq_bit(ws0, g) || (start <= g < start + ls)
                ) by {
                    lemma_div64_in_range(g, len);
                    if g / 64 == wi {
                        lemma_low_mask_bits(ws0[wi], off as u64, line_size as u64, (g % 64) as u64);
                    } else if g / 64 == wi + 1 {
                        lemma_high_mask_bits(ws0[wi + 1], off as u64, line_size as u64,
                            (g % 64) as u64);
                    }
                }
                lemma_line_view(*old(self), *self, start, ls);
            }
        }
    }

    /// Returns whether bit `index` is 0.
    pub fn is_unset(&self, index: usize) -> (r: bool)
        requires
            self.wf(),
            index < self@.len(),
        ensures
            r == !self@[index as int],
    {
        !self.is_set(index)
    }

    /// Renders the board as `0`/`1` digit bytes, line by line: a newline
    /// every `line_size` bits and one after the last. The full padded word
    /// range is rendered, padding bits included — a debugging aid for the
    /// raw layout, not a data-access guarantee.
    pub fn render_by_line(&self, line_size: usize) -> (r: Vec<u8>)
        requires
            self.wf(),
            line_size >= 1,
            self@.len() + 63 < usize::MAX,
        ensures
            r@ == render_prefix(
                padded_bits(self@, word_count(self@.len()) * 64),
                line_size as int,
                (word_count(self@.len()) * 64) as int,
            ) + seq![10u8],
    {
        proof {
            lemma_capacity_fits(self.capacity as nat);
        }
        let total = self.words.len() * 64;
        let ghost pb = padded_bits(self@, total as nat);
        let mut out: Vec<u8> = Vec::new();
        let mut idx: usize = 0;
        while idx < total
            invariant
                idx <= total,
                total == self.words@.len() * 64,
                self.wf(),
                line_size >= 1,
                pb == padded_bits(self@, total as nat),
                out@ == render_prefix(pb, line_size as int, idx as int),
            decreases total - idx,
        {
            if idx > 0 && idx % line_size == 0 {
                out.push(10u8);
            }
            proof {
                lemma_div64_in_range(idx as int, self.words@.len() as int);
            }
            let w = self.words[idx / 64];
            let k = (idx % 64) as u64;
            let bit = (w >> k) & 1u64 == 1u64;
            proof {
                assert(bit == seq_bit(self.words@, idx as int));
                assert(bit == pb[idx as int]);
            }
            if bit {
                out.push(49u8);
            } else {
                out.push(48u8);
            }
            proof {
                assert(out@ =~= render_prefix(pb, line_size as int, idx as int + 1));
            }
            idx += 1;
        }
        out.push(10u8);
        out
    }
}

/// The byte rendering one bit: the digit `1` (49) or `0` (48).
pub open spec fn bit_byte(b: bool) -> u8 {
    if b {
        49u8
    } else {
        48u8
    }
}

/// `bits` padded with zeros up to length `total`.
pub open spec fn padded_bits(bits: Seq<bool>, total: nat) -> Seq<bool> {
    Seq::new(total as nat, |i: int| 0 <= i < bits.len() && bits[i])
}

/// The first `n` bits rendered as digit bytes, with a newline (10) before
/// every bit whose index starts a new line of `line_size` bits.
pub open spec fn render_prefix(bits: Seq<bool>, line_size: int, n: int) -> Seq<u8>
    decreases n,
{
    if n <= 0 {
        Seq::empty()
    } else {
        render_prefix(bits, line_size, n - 1) + (if n - 1 > 0 && (n - 1) % line_size == 0 {
            seq![10u8]
        } else {
            Seq::empty()
        }) + seq![bit_byte(bits[n - 1])]
    }
}

/// A capacity of `c >= 1` bits fits in `word_count(c)` words: `c` is at most
/// the total bit count, and the rounding wastes less than one word.
proof fn lemma_capacity_fits(c: nat)
    by (nonlinear_arith)
    requires
        c >= 1,
    ensures
        c <= word_count(c) * 64 < c + 64,
{
}

/// ORing in a one-bit mask sets exactly that bit.
proof fn lemma_set_single_bit()
    by (bit_vector)
    ensures
        forall|w: u64, j: u64, k: u64|
            j < 64 && k < 64 ==> #[trigger] word_bit(w | (1u64 << j), k) == (word_bit(w, k) || j
                == k),
{
}

/// ANDing with the complement of a one-bit mask clears exactly that bit.
proof fn lemma_unset_single_bit()
    by (bit_vector)
    ensures
        forall|w: u64, j: u64, k: u64|
            j < 64 && k < 64 ==> #[trigger] word_bit(w & !(1u64 << j), k) == (word_bit(w, k) && j
                != k),
{
}

/// ANDing with a one-bit mask is nonzero exactly when that bit is set.
proof fn lemma_mask_test()
    by (bit_vector)
    ensures
        forall|w: u64, k: u64| k < 64 ==> (#[trigger] (w & (1u64 << k)) != 0) == word_bit(w, k),
{
}

/// A one-bit shifted left by less than the word width is at least one.
proof fn lemma_one_shift_at_least_one(s: u64)
    by (bit_vector)
    requires
        s < 64,
    ensures
        (1u64 << s) >= 1,
{
}

/// Shifting by zero changes nothing.
proof fn lemma_shift_by_zero(w: u64)
    by (bit_vector)
    ensures
        w << 0u64 == w,
{
}

/// ORing in a `size`-wide mask of ones shifted to offset `off` sets exactly
/// the bits of `[off, off + size)` that lie within the word; the rest of the
/// mask is discarded by the shift.
proof fn lemma_low_mask_bits(w: u64, off: u64, size: u64, k: u64)
    by (bit_vector)
    requires
        off < 64,
        1 <= size < 64,
        k < 64,
    ensures
        word_bit(w | ((((1u64 << size) - 1) as u64) << off), k) == (word_bit(w, k) || (off <= k
            && k < off + size)),
{
}

/// When a `size`-wide mask at offset `off` runs past the word boundary, the
/// part for the next word is the mask shifted right by the bits already
/// consumed; it covers the bit offsets below `off + size - 64`.
proof fn lemma_high_mask_bits(w: u64, off: u64, size: u64, k: u64)
    by (bit_vector)
    requires
        off < 64,
        1 <= size < 64,
        off + size > 64,
        k < 64,
    ensures
        word_bit(w | ((((1u64 << size) - 1) as u64) >> ((64 - off) as u64)), k) == (word_bit(w, k)
            || k + 64 < off + size),
{
}

/// From the word-level fact that the new words hold exactly the old bits
/// plus the line `[start, start + size)`, lift to the view and
/// well-formedness.
proof fn lemma_line_view(pre: BitboardInternal, post: BitboardInternal, start: int, size: int)
    requires
        pre.wf(),
        post.capacity == pre.capacity,
        post.words@.len() == pre.words@.len(),
        0 <= start,
        0 < size,
        start + size <= pre.capacity,
        forall|g: int|
            0 <= g < post.words@.len() * 64 ==> #[trigger] seq_bit(post.words@, g) == (seq_bit(
                pre.words@, g) || (start <= g < start + size)),
    ensures
        post.wf(),
        post@ == union_bits(pre@, line_bits(pre@.len(), start, size)),
{
    assert(post@ =~= union_bits(pre@, line_bits(pre@.len(), start, size)));
}

/// A nonzero word has at least one bit set, found by scanning upward from
/// the least-significant bit.
proof fn lemma_nonzero_word_has_bit(w: u64)
    requires
        w != 0,
    ensures
        exists|k: u64| k < 64 && #[trigger] word_bit(w, k),
    decreases w,
{
    if w & 1u64 == 1u64 {
        assert(word_bit(w, 0)) by (bit_vector)
            requires
                w & 1u64 == 1u64,
        ;
    } else {
        assert(w >> 1u64 != 0 && w >> 1u64 < w) by (bit_vector)
            requires
                w != 0 && w & 1u64 != 1u64,
        ;
        lemma_nonzero_word_has_bit(w >> 1u64);
        let k = choose|k: u64| k < 64 && #[trigger] word_bit(w >> 1u64, k);
        assert(!word_bit(w >> 1u64, 63)) by (bit_vector);
        assert(word_bit(w, (k + 1) as u64)) by (bit_vector)
            requires
                k < 63 && word_bit(w >> 1u64, k),
        ;
    }
}

/// Bit `k` of word `wi` sits at global index `wi * 64 + k`.
proof fn lemma_word_offset(wi: int, k: int, n: int)
    by (nonlinear_arith)
    requires
        0 <= wi < n,
        0 <= k < 64,
    ensures
        (wi * 64 + k) / 64 == wi,
        (wi * 64 + k) % 64 == k,
        wi * 64 + k < n * 64,
{
}

/// The bits of an OR of two words are the pointwise disjunction.
proof fn lemma_or_word_bits()
    by (bit_vector)
    ensures
        forall|w1: u64, w2: u64, k: u64|
            k < 64 ==> #[trigger] word_bit(w1 | w2, k) == (word_bit(w1, k) || word_bit(w2, k)),
{
}

/// The bits of `w1 & !w2` are the bits of `w1` that are not in `w2`.
proof fn lemma_andnot_word_bits()
    by (bit_vector)
    ensures
        forall|w1: u64, w2: u64, k: u64|
            k < 64 ==> #[trigger] word_bit(w1 & !w2, k) == (word_bit(w1, k) && !word_bit(w2, k)),
{
}

/// Every bit of the zero word is zero.
proof fn lemma_zero_word_bits()
    by (bit_vector)
    ensures
        forall|k: u64| k < 64 ==> !(#[trigger] word_bit(0u64, k)),
{
}

/// For `0 <= i < n * 64`, global index `i` falls in word `i / 64`, which is a
/// valid word index, at a bit offset below 64.
proof fn lemma_div64_in_range(i: int, n: int)
    by (nonlinear_arith)
    requires
        0 <= i < n * 64,
    ensures
        0 <= i / 64 < n,
        0 <= i % 64 < 64,
        i == 64 * (i / 64) + i % 64,
{
}

} // verus!
