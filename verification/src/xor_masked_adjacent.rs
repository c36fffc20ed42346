use vstd::prelude::*;
use crate::structural::{bit, lemma_bit_ops};
use crate::ranges::{carry_in, lemma_carry, wrapped_sum};

verus! {

/// The bits of a word, as a function of the position.
pub open spec fn bits_of(x: u64) -> spec_fn(int) -> bool {
    |k: int| bit(x, k)
}

/// The value of `f` at the highest set bit of `mask` below position `j`,
/// or `fill` when `mask` has no set bit below `j`.
pub open spec fn prev_marked(f: spec_fn(int) -> bool, mask: u64, fill: bool, j: int) -> bool
    decreases j,
{
    if j <= 0 {
        fill
    } else if bit(mask, j - 1) {
        f(j - 1)
    } else {
        prev_marked(f, mask, fill, j - 1)
    }
}

/// Whether `mask` has a set bit below position `j`.
pub open spec fn any_marked_below(mask: u64, j: int) -> bool
    decreases j,
{
    j > 0 && (bit(mask, j - 1) || any_marked_below(mask, j - 1))
}

/// Over the positions of `mask`, taken in order, each bit of `bitstring`
/// exclusive-or the one before it (`lo_fill` before the first); the other
/// positions are clear.
pub trait XorMaskedAdjacent {
    fn xor_masked_adjacent(&self, bitstring: u64, mask: u64, lo_fill: bool) -> (r: u64)
        ensures
            forall|j: int| 0 <= j < 64 ==> #[trigger] bit(r, j) == (bit(mask, j) && (bit(bitstring, j)
                != prev_marked(bits_of(bitstring), mask, lo_fill, j))),
    ;
}

/// `a - b`, wrapped around at 2^64.
pub open spec fn wrapped_diff(a: u64, b: u64) -> u64 {
    if a - b < 0 {
        (a - b + 0x1_0000_0000_0000_0000int) as u64
    } else {
        (a - b) as u64
    }
}

/// The borrow into bit `j` when subtracting `b` from `a`.
pub open spec fn borrow_in(a: u64, b: u64, j: int) -> bool {
    bit(wrapped_diff(a, b), j) != (bit(a, j) != bit(b, j))
}

proof fn lemma_sub_bits(a: u64, b: u64, d: u64, j: u64)
    requires
        j < 64,
        d == (if a - b < 0 {
            (a - b + 0x1_0000_0000_0000_0000int) as u64
        } else {
            (a - b) as u64
        }),
    ensures
        ({
            let a0 = (a >> j) & 1 == 1;
            let b0 = (b >> j) & 1 == 1;
            let c0 = ((d >> j) & 1 == 1) != (a0 != b0);
            &&& j == 0 ==> !c0
            &&& j < 63 ==> ((((d >> ((j + 1) as u64)) & 1 == 1) != (((a >> ((j + 1) as u64)) & 1 == 1)
                != ((b >> ((j + 1) as u64)) & 1 == 1))) == ((!a0 && b0) || ((!a0 || b0) && c0)))
        }),
{
    assert({
        let a0 = (a >> j) & 1 == 1;
        let b0 = (b >> j) & 1 == 1;
        let c0 = ((d >> j) & 1 == 1) != (a0 != b0);
        &&& j == 0 ==> !c0
        &&& j < 63 ==> ((((d >> ((j + 1) as u64)) & 1 == 1) != (((a >> ((j + 1) as u64)) & 1 == 1)
            != ((b >> ((j + 1) as u64)) & 1 == 1))) == ((!a0 && b0) || ((!a0 || b0) && c0)))
    }) by (bit_vector)
        requires
            j < 64,
            d == (if a - b < 0 {
                (a - b + 0x1_0000_0000_0000_0000int) as u64
            } else {
                (a - b) as u64
            }),
    ;
}

/// How the borrows of a subtraction go from one bit to the next.
pub proof fn lemma_borrow(a: u64, b: u64, j: int)
    requires
        0 <= j < 64,
    ensures
        j == 0 ==> !borrow_in(a, b, 0),
        j < 63 ==> borrow_in(a, b, j + 1) == ((!bit(a, j) && bit(b, j)) || ((!bit(a, j) || bit(b, j))
            && borrow_in(a, b, j))),
{
    lemma_sub_bits(a, b, wrapped_diff(a, b), j as u64);
}

/// Subtracting from `mask` the masked bits moved up by one: what is taken
/// away at each position is the masked bit just below it in `mask`'s
/// order, and never both a bit of `t` and a borrow.
proof fn lemma_masked_borrows(bs: u64, mask: u64, t: u64, j: int)
    requires
        0 <= j < 64,
        forall|k: int| 0 <= k < 64 ==> #[trigger] bit(t, k) == (k > 0 && bit(bs, k - 1)),
        forall|k: int| 0 <= k < 64 ==> #[trigger] bit(bs, k) ==> bit(mask, k),
    ensures
        !(bit(t, j) && borrow_in(mask, t, j)),
        (bit(t, j) || borrow_in(mask, t, j)) == prev_marked(bits_of(bs), mask, false, j),
    decreases j,
{
    if j == 0 {
        lemma_borrow(mask, t, 0);
    } else {
        lemma_masked_borrows(bs, mask, t, j - 1);
        lemma_borrow(mask, t, j - 1);
        assert(bit(t, j) == bit(bs, j - 1));
        assert(bit(bs, j - 1) ==> bit(mask, j - 1));
        assert(bits_of(bs)(j - 1) == bit(bs, j - 1));
    }
}

/// Adding one to the complement of `mask` carries up to its lowest set bit.
proof fn lemma_lowest_carry(mask: u64, j: int)
    requires
        0 <= j < 64,
    ensures
        j > 0 ==> carry_in(!mask, 1, j) == !any_marked_below(mask, j),
    decreases j,
{
    lemma_carry(!mask, 1, j);
    if j > 1 {
        lemma_lowest_carry(mask, j - 1);
    }
    if j > 0 {
        lemma_carry(!mask, 1, j - 1);
        lemma_bit_ops(mask, 1, (j - 1) as u64);
        assert(bit(!mask, j - 1) == !bit(mask, j - 1));
        assert(bit(1u64, j - 1) == (j == 1));
        assert(carry_in(!mask, 1, j) == ((bit(!mask, j - 1) && bit(1u64, j - 1)) || ((bit(!mask, j - 1) || bit(1u64, j - 1)) && carry_in(!mask, 1, j - 1))));
        assert(any_marked_below(mask, j) == (bit(mask, j - 1) || any_marked_below(mask, j - 1)));
        if j == 1 {
            assert(!carry_in(!mask, 1, 0));
            assert(!any_marked_below(mask, 0));
        }
    }
}

/// Below the lowest set bit of `mask`, the marked bit before is the fill;
/// above it, the fill does not matter.
proof fn lemma_prev_marked_fill(f: spec_fn(int) -> bool, mask: u64, fill: bool, j: int)
    requires
        0 <= j,
    ensures
        prev_marked(f, mask, fill, j) == if any_marked_below(mask, j) {
            prev_marked(f, mask, false, j)
        } else {
            fill
        },
    decreases j,
{
    if j > 0 {
        lemma_prev_marked_fill(f, mask, fill, j - 1);
    }
}

/// Works on all 64 bits at once with a subtraction whose borrows run
/// between the positions of `mask`.
#[derive(Copy, Clone, Debug)]
pub struct Generic {}

impl Generic {
    pub fn new() -> Self {
        Generic {}
    }
}

impl XorMaskedAdjacent for Generic {
    fn xor_masked_adjacent(&self, bitstring: u64, mask: u64, lo_fill: bool) -> (r: u64) {
        let ghost orig = bitstring;
        let bitstring = bitstring & mask;
        let t = bitstring << 1u64;
        let i1 = mask.wrapping_sub(t);
        let neg = (!mask).wrapping_add(1);
        let lsb = mask & neg;
        let fill = if lo_fill {
            lsb
        } else {
            0
        };
        let i2 = i1 & !fill;
        let r = (!i2 ^ bitstring) & mask;
        proof {
            assert(i1 == wrapped_diff(mask, t));
            assert(neg == wrapped_sum(!mask, 1));
            assert forall|k: int| 0 <= k < 64 implies #[trigger] bit(bitstring, k) == (bit(orig, k)
                && bit(mask, k)) by {
                lemma_bit_ops(orig, mask, k as u64);
            }
            assert forall|k: int| 0 <= k < 64 implies #[trigger] bit(t, k) == (k > 0 && bit(bitstring, k - 1)) by {
                lemma_bit_ops(bitstring, 0, k as u64);
            }
            assert forall|j: int| 0 <= j < 64 implies #[trigger] bit(r, j) == (bit(mask, j) && (bit(orig, j)
                != prev_marked(bits_of(orig), mask, lo_fill, j))) by {
                lemma_masked_borrows(bitstring, mask, t, j);
                lemma_lowest_carry(mask, j);
                lemma_carry(!mask, 1, j);
                lemma_bit_ops(!i2, bitstring, j as u64);
                lemma_bit_ops(!i2 ^ bitstring, mask, j as u64);
                lemma_bit_ops(i2, 0, j as u64);
                lemma_bit_ops(i1, !fill, j as u64);
                lemma_bit_ops(fill, 0, j as u64);
                lemma_bit_ops(mask, neg, j as u64);
                lemma_bit_ops(mask, 1, j as u64);
                lemma_bit_ops(!mask, 0, j as u64);
                lemma_bit_ops(0, 0, j as u64);
                lemma_prev_marked_fill(bits_of(orig), mask, lo_fill, j);
                lemma_prev_marked_fill(bits_of(bitstring), mask, false, j);
                lemma_prev_marked_masked(orig, bitstring, mask, j);
            }
        }
        r
    }
}

/// Only the masked bits are read, so masking first changes nothing.
proof fn lemma_prev_marked_masked(orig: u64, masked: u64, mask: u64, j: int)
    requires
        0 <= j <= 64,
        forall|k: int| 0 <= k < 64 ==> #[trigger] bit(masked, k) == (bit(orig, k) && bit(mask, k)),
    ensures
        prev_marked(bits_of(orig), mask, false, j) == prev_marked(bits_of(masked), mask, false, j),
    decreases j,
{
    if j > 0 {
        lemma_prev_marked_masked(orig, masked, mask, j - 1);
        assert(bit(masked, j - 1) == (bit(orig, j - 1) && bit(mask, j - 1)));
    }
}

/// The implementation to use on this machine.
pub fn runtime_detect() -> Generic {
    Generic::new()
}

} // verus!
