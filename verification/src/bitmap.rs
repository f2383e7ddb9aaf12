//! Dense occupancy bitmap with word-level scans for first/last/next/previous
//! set bit, used to index the occupied price levels of one book side.

use vstd::prelude::*;
use vstd::std_specs::bits::{axiom_u64_leading_zeros, axiom_u64_trailing_zeros, u64_leading_zeros};

verus! {

/// True when bit `j` (counted from the least significant end) of `w` is one.
pub open spec fn word_bit(w: u64, j: int) -> bool {
    (w >> (j as u64)) & 1u64 == 1u64
}

/// Dense bit set over a fixed number of positions, backed by 64-bit words.
pub struct FastBitmap {
    blocks: Vec<u64>,
    len: usize,
}

impl FastBitmap {
    /// The bit stored at position `i`; false outside `[0, len)`.
    pub closed spec fn bit(self, i: int) -> bool {
        0 <= i < self.len && word_bit(self.blocks@[i / 64], i % 64)
    }

    /// Number of addressable positions.
    pub closed spec fn spec_len(self) -> int {
        self.len as int
    }

    /// Well-formed: one word per 64 positions, and no stored one at or above `len`.
    pub closed spec fn wf(self) -> bool {
        &&& self.blocks@.len() == (self.len as int + 63) / 64
        &&& forall|w: int, b: int|
            0 <= w < self.blocks@.len() && 0 <= b < 64 && w * 64 + b >= self.len as int
                ==> !(#[trigger] word_bit(self.blocks@[w], b))
    }

    /// Creates a bitmap of `len` positions, all zero.
    pub fn new(len: usize) -> (r: FastBitmap)
        requires
            len <= usize::MAX - 63,
        ensures
            r.wf(),
            r.spec_len() == len,
            forall|i: int| !r.bit(i),
    {
        let num_blocks = (len + 63) / 64;
        let blocks = vec![0u64; num_blocks];
        let r = FastBitmap { blocks, len };
        proof {
            assert forall|w: int, b: int| 0 <= w < r.blocks@.len() && 0 <= b < 64 implies !word_bit(
                r.blocks@[w],
                b,
            ) by {
                lemma_zero_word_bits(b as u64);
            }
            assert forall|i: int| !r.bit(i) by {
                if 0 <= i < r.len {
                    lemma_div_mod_64(i);
                }
            }
        }
        r
    }

    /// Writes `value` into position `index`.
    pub fn set(&mut self, index: usize, value: bool)
        requires
            old(self).wf(),
            index < old(self).spec_len(),
        ensures
            final(self).wf(),
            final(self).spec_len() == old(self).spec_len(),
            final(self).bit(index as int) == value,
            forall|i: int| i != index ==> final(self).bit(i) == old(self).bit(i),
    {
        let block_idx = index / 64;
        let bit_offset = (index % 64) as u64;
        proof {
            lemma_block_of_index(index as int, self.len as int);
        }
        let w = self.blocks[block_idx];
        let w2 = if value {
            w | (1u64 << bit_offset)
        } else {
            w & !(1u64 << bit_offset)
        };
        self.blocks.set(block_idx, w2);
        proof {
            assert forall|b: int| 0 <= b < 64 implies word_bit(w2, b) == (if b == bit_offset {
                value
            } else {
                word_bit(w, b)
            }) by {
                lemma_word_update(w, bit_offset, value, b as u64);
            }
            lemma_div_mod_64(index as int);
            assert(final(self).bit(index as int) == value);
            assert forall|i: int| i != index implies final(self).bit(i) == old(self).bit(i) by {
                if 0 <= i < self.len {
                    lemma_div_mod_64(i);
                    if i / 64 == block_idx {
                        assert(i % 64 != bit_offset) by {
                            lemma_div_mod_64(i);
                            lemma_div_mod_64(index as int);
                        }
                    }
                }
            }
            assert forall|wi: int, b: int|
                0 <= wi < self.blocks@.len() && 0 <= b < 64 && wi * 64 + b >= self.len as int
                    implies !(#[trigger] word_bit(self.blocks@[wi], b)) by {
                if wi == block_idx && b == bit_offset {
                    lemma_div_mod_64(index as int);
                }
            }
        }
    }

    /// Reads the bit at position `index`.
    pub fn get(&self, index: usize) -> (r: bool)
        requires
            self.wf(),
            index < self.spec_len(),
        ensures
            r == self.bit(index as int),
    {
        let block_idx = index / 64;
        let bit_offset = (index % 64) as u64;
        proof {
            lemma_block_of_index(index as int, self.len as int);
        }
        let w = self.blocks[block_idx];
        let r = (w & (1u64 << bit_offset)) != 0;
        proof {
            lemma_word_test(w, bit_offset);
            lemma_div_mod_64(index as int);
        }
        r
    }

    /// Position of the lowest one, scanning words upward; `None` when all zero.
    pub fn find_first_one(&self) -> (r: Option<usize>)
        requires
            self.wf(),
        ensures
            match r {
                Some(i) => i < self.spec_len() && self.bit(i as int) && forall|j: int|
                    0 <= j < i ==> !self.bit(j),
                None => forall|j: int| !self.bit(j),
            },
    {
        let num_blocks = self.blocks.len();
        let mut block_idx: usize = 0;
        while block_idx < num_blocks
            invariant
                self.wf(),
                num_blocks == self.blocks@.len(),
                block_idx <= num_blocks,
                forall|j: int| 0 <= j < block_idx * 64 ==> !self.bit(j),
            decreases num_blocks - block_idx,
        {
            let block = self.blocks[block_idx];
            if block != 0 {
                let bit_offset = block.trailing_zeros() as usize;
                proof {
                    axiom_u64_trailing_zeros(block);
                    lemma_found_in_word_low(self, block_idx as int, bit_offset as int);
                }
                let index = block_idx * 64 + bit_offset;
                return Some(index);
            }
            proof {
                assert forall|j: int| 0 <= j < (block_idx + 1) * 64 implies !self.bit(j) by {
                    if block_idx * 64 <= j {
                        lemma_in_block(j, block_idx as int);
                        lemma_zero_word_bits((j % 64) as u64);
                    }
                }
            }
            block_idx = block_idx + 1;
        }
        proof {
            assert forall|j: int| !self.bit(j) by {
                if 0 <= j < self.len {
                    lemma_div_mod_64(j);
                    lemma_block_of_index(j, self.len as int);
                }
            }
        }
        None
    }

    /// Position of the highest one, scanning words downward; `None` when all zero.
    pub fn find_last_one(&self) -> (r: Option<usize>)
        requires
            self.wf(),
        ensures
            match r {
                Some(i) => i < self.spec_len() && self.bit(i as int) && forall|j: int|
                    i < j ==> !self.bit(j),
                None => forall|j: int| !self.bit(j),
            },
    {
        let mut block_idx = self.blocks.len();
        while block_idx > 0
            invariant
                self.wf(),
                block_idx <= self.blocks@.len(),
                forall|j: int| block_idx * 64 <= j ==> !self.bit(j),
            decreases block_idx,
        {
            block_idx = block_idx - 1;
            let block = self.blocks[block_idx];
            if block != 0 {
                proof {
                    axiom_u64_leading_zeros(block);
                    lemma_high_bit(block);
                }
                let lz = block.leading_zeros() as usize;
                let bit_offset = 63 - lz;
                proof {
                    lemma_found_in_word_high(self, block_idx as int, bit_offset as int);
                    assert forall|j: int| block_idx * 64 + bit_offset < j implies !self.bit(j) by {
                        if j < (block_idx + 1) * 64 && 0 <= j < self.len {
                            lemma_in_block(j, block_idx as int);
                        }
                    }
                }
                let index = block_idx * 64 + bit_offset;
                return Some(index);
            }
            proof {
                assert forall|j: int| block_idx * 64 <= j implies !self.bit(j) by {
                    if j < (block_idx + 1) * 64 && 0 <= j < self.len {
                        lemma_in_block(j, block_idx as int);
                        lemma_zero_word_bits((j % 64) as u64);
                    }
                }
            }
        }
        proof {
            assert forall|j: int| !self.bit(j) by {
                if 0 <= j < self.len {
                    lemma_div_mod_64(j);
                    lemma_block_of_index(j, self.len as int);
                }
            }
        }
        None
    }

    /// Smallest position strictly above `start` holding a one.
    pub fn find_next_one(&self, start: usize) -> (r: Option<usize>)
        requires
            self.wf(),
        ensures
            match r {
                Some(i) => start < i < self.spec_len() && self.bit(i as int) && forall|j: int|
                    start < j < i ==> !self.bit(j),
                None => forall|j: int| start < j ==> !self.bit(j),
            },
    {
        if self.len == 0 || start >= self.len - 1 {
            return None;
        }
        let next_index = start + 1;
        let start_block = next_index / 64;
        let start_bit = (next_index % 64) as u64;
        proof {
            lemma_block_of_index(next_index as int, self.len as int);
        }
        let mut first_full = start_block;
        if start_bit > 0 {
            first_full = start_block + 1;
            let mask = u64::MAX << start_bit;
            let block = self.blocks[start_block];
            let masked = block & mask;
            proof {
                assert forall|b: int| 0 <= b < 64 implies word_bit(masked, b) == (b >= start_bit
                    && word_bit(block, b)) by {
                    lemma_word_mask_high(block, start_bit, b as u64);
                }
            }
            if masked != 0 {
                let bit_offset = masked.trailing_zeros() as usize;
                proof {
                    axiom_u64_trailing_zeros(masked);
                    lemma_found_in_word_low(self, start_block as int, bit_offset as int);
                    assert(bit_offset >= start_bit);
                }
                let index = start_block * 64 + bit_offset;
                proof {
                    lemma_div_mod_64(next_index as int);
                    assert forall|j: int| start < j < index implies !self.bit(j) by {
                        lemma_in_block(j, start_block as int);
                    }
                }
                return Some(index);
            }
        }
        let num_blocks = self.blocks.len();
        let mut block_idx = first_full;
        proof {
            lemma_div_mod_64(next_index as int);
            assert forall|j: int| start < j < first_full * 64 implies !self.bit(j) by {
                if 0 <= j < self.len {
                    lemma_in_block(j, start_block as int);
                    lemma_zero_word_bits((j % 64) as u64);
                }
            }
        }
        while block_idx < num_blocks
            invariant
                self.wf(),
                num_blocks == self.blocks@.len(),
                block_idx <= num_blocks,
                start < block_idx * 64,
                forall|j: int| start < j < block_idx * 64 ==> !self.bit(j),
            decreases num_blocks - block_idx,
        {
            let block = self.blocks[block_idx];
            if block != 0 {
                let bit_offset = block.trailing_zeros() as usize;
                proof {
                    axiom_u64_trailing_zeros(block);
                    lemma_found_in_word_low(self, block_idx as int, bit_offset as int);
                    assert forall|j: int| start < j < block_idx * 64 + bit_offset implies !self.bit(
                        j,
                    ) by {
                        if block_idx * 64 <= j {
                            lemma_in_block(j, block_idx as int);
                        }
                    }
                }
                let index = block_idx * 64 + bit_offset;
                return Some(index);
            }
            proof {
                assert forall|j: int| start < j < (block_idx + 1) * 64 implies !self.bit(j) by {
                    if block_idx * 64 <= j && 0 <= j < self.len {
                        lemma_in_block(j, block_idx as int);
                        lemma_zero_word_bits((j % 64) as u64);
                    }
                }
            }
            block_idx = block_idx + 1;
        }
        proof {
            assert forall|j: int| start < j implies !self.bit(j) by {
                if 0 <= j < self.len {
                    lemma_div_mod_64(j);
                    lemma_block_of_index(j, self.len as int);
                }
            }
        }
        None
    }

    /// Largest position strictly below `start` holding a one.
    pub fn find_prev_one(&self, start: usize) -> (r: Option<usize>)
        requires
            self.wf(),
        ensures
            match r {
                Some(i) => i < start && self.bit(i as int) && forall|j: int|
                    i < j < start ==> !self.bit(j),
                None => forall|j: int| j < start ==> !self.bit(j),
            },
    {
        let s = if start > self.len {
            self.len
        } else {
            start
        };
        if s == 0 {
            return None;
        }
        let prev_index = s - 1;
        let start_block = prev_index / 64;
        let start_bit = (prev_index % 64) as u64;
        proof {
            lemma_block_of_index(prev_index as int, self.len as int);
        }
        let block = self.blocks[start_block];
        let mask = if start_bit == 63 {
            u64::MAX
        } else {
            !(u64::MAX << (start_bit + 1))
        };
        let masked = block & mask;
        proof {
            assert forall|b: int| 0 <= b < 64 implies word_bit(masked, b) == (b <= start_bit
                && word_bit(block, b)) by {
                if start_bit == 63 {
                    let bb = b as u64;
                    assert(((block & 0xffff_ffff_ffff_ffffu64) >> bb) & 1u64 == (block >> bb)
                        & 1u64) by (bit_vector);
                } else {
                    lemma_word_mask_low(block, (start_bit + 1) as u64, b as u64);
                }
            }
        }
        if masked != 0 {
            proof {
                axiom_u64_leading_zeros(masked);
                lemma_high_bit(masked);
            }
            let lz = masked.leading_zeros() as usize;
            let bit_offset = 63 - lz;
            proof {
                lemma_found_in_word_high(self, start_block as int, bit_offset as int);
                assert(bit_offset <= start_bit);
                lemma_div_mod_64(prev_index as int);
                assert forall|j: int| start_block * 64 + bit_offset < j < start implies !self.bit(
                    j,
                ) by {
                    if 0 <= j < self.len {
                        lemma_in_block(j, start_block as int);
                    }
                }
            }
            let index = start_block * 64 + bit_offset;
            return Some(index);
        }
        let mut block_idx = start_block;
        proof {
            lemma_div_mod_64(prev_index as int);
            assert forall|j: int| start_block * 64 <= j < start implies !self.bit(j) by {
                if 0 <= j < self.len {
                    lemma_in_block(j, start_block as int);
                }
            }
        }
        while block_idx > 0
            invariant
                self.wf(),
                block_idx <= self.blocks@.len(),
                block_idx * 64 < start,
                forall|j: int| block_idx * 64 <= j < start ==> !self.bit(j),
            decreases block_idx,
        {
            block_idx = block_idx - 1;
            let block = self.blocks[block_idx];
            if block != 0 {
                proof {
                    axiom_u64_leading_zeros(block);
                    lemma_high_bit(block);
                }
                let lz = block.leading_zeros() as usize;
                let bit_offset = 63 - lz;
                proof {
                    lemma_found_in_word_high(self, block_idx as int, bit_offset as int);
                    assert forall|j: int| block_idx * 64 + bit_offset < j < start implies !self.bit(
                        j,
                    ) by {
                        if j < (block_idx + 1) * 64 && 0 <= j < self.len {
                            lemma_in_block(j, block_idx as int);
                        }
                    }
                }
                proof {
                    assert(block_idx * 64 + bit_offset < start);
                }
                let index = block_idx * 64 + bit_offset;
                return Some(index);
            }
            proof {
                assert forall|j: int| block_idx * 64 <= j < start implies !self.bit(j) by {
                    if j < (block_idx + 1) * 64 && 0 <= j < self.len {
                        lemma_in_block(j, block_idx as int);
                        lemma_zero_word_bits((j % 64) as u64);
                    }
                }
            }
        }
        None
    }

    /// Total number of addressable positions.
    pub fn len(&self) -> (n: usize)
        ensures
            n == self.spec_len(),
    {
        self.len
    }

    /// True when every position holds zero.
    pub fn is_empty(&self) -> (r: bool)
        requires
            self.wf(),
        ensures
            r <==> forall|j: int| !self.bit(j),
    {
        match self.find_first_one() {
            Some(_) => false,
            None => true,
        }
    }

    /// Resets every position to zero.
    pub fn clear(&mut self)
        requires
            old(self).wf(),
        ensures
            final(self).wf(),
            final(self).spec_len() == old(self).spec_len(),
            forall|i: int| !final(self).bit(i),
    {
        let num_blocks = self.blocks.len();
        let mut block_idx: usize = 0;
        while block_idx < num_blocks
            invariant
                num_blocks == self.blocks@.len(),
                block_idx <= num_blocks,
                self.len == old(self).len,
                self.blocks@.len() == old(self).blocks@.len(),
                forall|w: int| 0 <= w < block_idx ==> self.blocks@[w] == 0u64,
            decreases num_blocks - block_idx,
        {
            self.blocks.set(block_idx, 0u64);
            block_idx = block_idx + 1;
        }
        proof {
            assert forall|w: int, b: int|
                0 <= w < self.blocks@.len() && 0 <= b < 64 implies !(#[trigger] word_bit(
                self.blocks@[w],
                b,
            )) by {
                lemma_zero_word_bits(b as u64);
            }
            assert forall|i: int| !final(self).bit(i) by {
                if 0 <= i < self.len {
                    lemma_div_mod_64(i);
                    lemma_block_of_index(i, self.len as int);
                }
            }
        }
    }

    /// Counts the positions in `[0, n)` that hold a one.
    pub closed spec fn count_up_to(self, n: int) -> nat
        decreases n,
    {
        if n <= 0 {
            0
        } else {
            self.count_up_to(n - 1) + if self.bit(n - 1) {
                1nat
            } else {
                0nat
            }
        }
    }

    /// Number of ones stored in the bitmap.
    pub fn count_ones(&self) -> (r: usize)
        requires
            self.wf(),
        ensures
            r == self.count_up_to(self.spec_len()),
    {
        let mut count: usize = 0;
        let mut i: usize = 0;
        while i < self.len
            invariant
                self.wf(),
                i <= self.len,
                count == self.count_up_to(i as int),
                count <= i,
            decreases self.len - i,
        {
            if self.get(i) {
                count = count + 1;
            }
            i = i + 1;
        }
        count
    }
}

/// Bit `b` of the zero word is zero.
proof fn lemma_zero_word_bits(b: u64)
    requires
        b < 64,
    ensures
        !word_bit(0u64, b as int),
{
    assert((0u64 >> b) & 1u64 == 0u64) by (bit_vector);
}

/// `i == 64 * (i / 64) + i % 64` with the usual bounds, spelled out for the solver.
proof fn lemma_div_mod_64(i: int)
    requires
        i >= 0,
    ensures
        i == 64 * (i / 64) + i % 64,
        0 <= i % 64 < 64,
        i / 64 >= 0,
{
}

/// A position below `len` lies in a word index below `(len + 63) / 64`.
proof fn lemma_block_of_index(i: int, len: int)
    requires
        0 <= i < len,
    ensures
        0 <= i / 64 < (len + 63) / 64,
        0 <= i % 64 < 64,
{
    assert(i / 64 < (len + 63) / 64) by (nonlinear_arith)
        requires
            0 <= i < len,
    ;
}

/// Positions inside word `w` have that word index and the expected offsets.
proof fn lemma_in_block(j: int, w: int)
    requires
        w >= 0,
        w * 64 <= j < (w + 1) * 64,
    ensures
        j / 64 == w,
        j % 64 == j - w * 64,
{
    assert(j / 64 == w && j % 64 == j - w * 64) by (nonlinear_arith)
        requires
            w >= 0 && w * 64 <= j < (w + 1) * 64,
    ;
}

/// Setting or clearing one bit of a word leaves every other bit unchanged.
proof fn lemma_word_update(w: u64, j: u64, value: bool, b: u64)
    requires
        j < 64,
        b < 64,
    ensures
        word_bit(
            if value {
                w | (1u64 << j)
            } else {
                w & !(1u64 << j)
            },
            b as int,
        ) == (if b == j {
            value
        } else {
            word_bit(w, b as int)
        }),
{
    assert(b == j ==> ((w | (1u64 << j)) >> b) & 1u64 == 1u64) by (bit_vector)
        requires
            j < 64 && b < 64,
    ;
    assert(b != j ==> ((w | (1u64 << j)) >> b) & 1u64 == (w >> b) & 1u64) by (bit_vector)
        requires
            j < 64 && b < 64,
    ;
    assert(b == j ==> ((w & !(1u64 << j)) >> b) & 1u64 == 0u64) by (bit_vector)
        requires
            j < 64 && b < 64,
    ;
    assert(b != j ==> ((w & !(1u64 << j)) >> b) & 1u64 == (w >> b) & 1u64) by (bit_vector)
        requires
            j < 64 && b < 64,
    ;
    assert(((w | (1u64 << j)) >> b) & 1u64 == 0u64 || ((w | (1u64 << j)) >> b) & 1u64 == 1u64)
        by (bit_vector);
    assert(((w & !(1u64 << j)) >> b) & 1u64 == 0u64 || ((w & !(1u64 << j)) >> b) & 1u64 == 1u64)
        by (bit_vector);
    assert((w >> b) & 1u64 == 0u64 || (w >> b) & 1u64 == 1u64) by (bit_vector);
}

/// Testing a word against a one-bit mask reads exactly that bit.
proof fn lemma_word_test(w: u64, j: u64)
    requires
        j < 64,
    ensures
        (w & (1u64 << j) != 0) == word_bit(w, j as int),
{
    assert((w & (1u64 << j) != 0) == ((w >> j) & 1u64 == 1u64)) by (bit_vector)
        requires
            j < 64,
    ;
}

/// Masking off the bits below `j` keeps exactly the bits at or above `j`.
proof fn lemma_word_mask_high(w: u64, j: u64, b: u64)
    requires
        j < 64,
        b < 64,
    ensures
        word_bit(w & (u64::MAX << j), b as int) == (b >= j && word_bit(w, b as int)),
{
    assert(((w & (0xffff_ffff_ffff_ffffu64 << j)) >> b) & 1u64 == (if b >= j {
        (w >> b) & 1u64
    } else {
        0u64
    })) by (bit_vector)
        requires
            j < 64 && b < 64,
    ;
    assert((w >> b) & 1u64 == 0u64 || (w >> b) & 1u64 == 1u64) by (bit_vector);
}

/// Masking off the bits at or above `jp1` keeps exactly the bits below `jp1`.
proof fn lemma_word_mask_low(w: u64, jp1: u64, b: u64)
    requires
        0 < jp1 < 64,
        b < 64,
    ensures
        word_bit(w & !(u64::MAX << jp1), b as int) == (b < jp1 && word_bit(w, b as int)),
{
    assert(((w & !(0xffff_ffff_ffff_ffffu64 << jp1)) >> b) & 1u64 == (if b < jp1 {
        (w >> b) & 1u64
    } else {
        0u64
    })) by (bit_vector)
        requires
            0 < jp1 < 64 && b < 64,
    ;
    assert((w >> b) & 1u64 == 0u64 || (w >> b) & 1u64 == 1u64) by (bit_vector);
}

/// A one found at offset `b` of word `w` (with lower offsets zero there) is a
/// one of the bitmap, lies below `len`, and the found position fits in `usize`.
proof fn lemma_found_in_word_low(bm: &FastBitmap, w: int, b: int)
    requires
        bm.wf(),
        0 <= w < bm.blocks@.len(),
        0 <= b < 64,
        word_bit(bm.blocks@[w], b),
    ensures
        w * 64 + b < bm.spec_len(),
        bm.bit(w * 64 + b),
{
    let i = w * 64 + b;
    assert(w * 64 + b >= 0) by (nonlinear_arith)
        requires
            w >= 0 && b >= 0,
    ;
    if i >= bm.len {
        assert(!word_bit(bm.blocks@[w], b));
    }
    lemma_in_block(i, w);
}

/// Same fact for a one found from the high end of a word.
proof fn lemma_found_in_word_high(bm: &FastBitmap, w: int, b: int)
    requires
        bm.wf(),
        0 <= w < bm.blocks@.len(),
        0 <= b < 64,
        word_bit(bm.blocks@[w], b),
    ensures
        w * 64 + b < bm.spec_len(),
        bm.bit(w * 64 + b),
{
    lemma_found_in_word_low(bm, w, b);
}

/// `63 - leading_zeros` names the highest one of a non-zero word: that bit is
/// set and everything above it is clear.
proof fn lemma_high_bit(w: u64)
    requires
        w != 0,
    ensures
        0 <= 63 - u64_leading_zeros(w) < 64,
        word_bit(w, 63 - u64_leading_zeros(w)),
        forall|b: int| 63 - u64_leading_zeros(w) < b < 64 ==> !word_bit(w, b),
{
    axiom_u64_leading_zeros(w);
    let lz = u64_leading_zeros(w);
    let p = 63 - lz;
    let pk = p as u64;
    assert((w >> pk) & 1u64 == 0u64 || (w >> pk) & 1u64 == 1u64) by (bit_vector);
    assert(word_bit(w, p));
    assert forall|b: int| p < b < 64 implies !word_bit(w, b) by {
        let bu = b as u64;
        assert(64 - lz <= bu < 64);
        assert((w >> bu) & 1u64 == 0u64);
    }
}

} // verus!
