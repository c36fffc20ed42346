use vstd::prelude::*;
use crate::structural::{bit, lemma_bit_ops};
use crate::clmul::{Clmul, prefix_xor, lemma_popcount_parity, lemma_prefix_xor_ext};
use crate::xor_masked_adjacent::{
    XorMaskedAdjacent, bits_of, prev_marked, wrapped_diff, borrow_in, lemma_borrow,
};
use crate::extract::{popcount, count_ones};

verus! {

/// The state before position `j` of a block whose positions are marked as
/// starts or stops: whether the last mark below `j` is a start
/// (`prev_state` when there is none).
pub open spec fn state_before(start: u64, stop: u64, prev_state: bool, j: int) -> bool {
    prev_marked(bits_of(start), start | stop, prev_state, j)
}

/// Marks the starts and stops at which the state changes: a start after a
/// stop, a stop after a start. The second result is the state at the end of
/// the block, which is also the state before it flipped once per mark.
pub trait StartStopTransitions {
    fn start_stop_transitions(&self, start: u64, stop: u64, prev_state: bool) -> (r: (u64, bool))
        requires
            start & stop == 0,
        ensures
            forall|j: int| 0 <= j < 64 ==> #[trigger] bit(r.0, j) == (bit(start | stop, j) && (bit(start, j)
                != state_before(start, stop, prev_state, j))),
            r.1 == state_before(start, stop, prev_state, 64),
            r.1 == (prev_state != (popcount(r.0) % 2 == 1)),
    ;
}

/// Finds the transitions with two subtractions, then passes them through a
/// prefix parity and a masked exclusive or.
#[derive(Copy, Clone, Debug)]
pub struct Generic<ClmulT, XorMaskedAdjacentT> {
    clmul: ClmulT,
    xor_masked_adjacent: XorMaskedAdjacentT,
}

impl<ClmulT, XorMaskedAdjacentT> Generic<ClmulT, XorMaskedAdjacentT> {
    /// The prefix parity that it works with.
    pub closed spec fn used_clmul(&self) -> ClmulT {
        self.clmul
    }

    /// The masked exclusive or that it works with.
    pub closed spec fn used_xor_masked_adjacent(&self) -> XorMaskedAdjacentT {
        self.xor_masked_adjacent
    }

    pub fn new(clmul: ClmulT, xor_masked_adjacent: XorMaskedAdjacentT) -> (r: Self)
        ensures
            r.used_clmul() == clmul,
            r.used_xor_masked_adjacent() == xor_masked_adjacent,
    {
        Generic { clmul, xor_masked_adjacent }
    }
}

/// Subtracting `sub` (and `low` at the bottom) from the marks `a`: the
/// borrow into each position above the bottom says whether the last mark
/// below it is one of `sub` (or, when there is none, whether `low` is set).
proof fn lemma_mark_borrows(a: u64, b: u64, low: u64, sub: u64, j: int)
    requires
        1 <= j < 64,
        low == 0 || low == 1,
        a & b == 0,
        forall|k: int| 0 <= k < 64 ==> #[trigger] bit(sub, k) == (bit(b, k) || (k == 0 && low == 1)),
    ensures
        borrow_in(a, sub, j) == !prev_marked(bits_of(a), a | b, low == 0, j),
    decreases j,
{
    lemma_borrow(a, sub, j - 1);
    lemma_bit_ops(a, b, (j - 1) as u64);
    lemma_bit_ops(0, 0, (j - 1) as u64);
    assert(bits_of(a)(j - 1) == bit(a, j - 1));
    assert(!(bit(a, j - 1) && bit(b, j - 1)));
    assert(bit(a | b, j - 1) == (bit(a, j - 1) || bit(b, j - 1)));
    assert(prev_marked(bits_of(a), a | b, low == 0, j) == if bit(a | b, j - 1) {
        bit(a, j - 1)
    } else {
        prev_marked(bits_of(a), a | b, low == 0, j - 1)
    });
    assert(borrow_in(a, sub, j) == ((!bit(a, j - 1) && bit(sub, j - 1)) || ((!bit(a, j - 1) || bit(sub, j - 1))
        && borrow_in(a, sub, j - 1))));
    if j > 1 {
        lemma_mark_borrows(a, b, low, sub, j - 1);
    } else {
        lemma_borrow(a, sub, 0);
        assert(!borrow_in(a, sub, 0));
        assert(prev_marked(bits_of(a), a | b, low == 0, 0) == (low == 0));
        assert(bit(sub, 0) == (bit(b, 0) || low == 1));
    }
}

/// The marks of `a` at which the last mark below is not one of `a`.
proof fn lemma_first_of_kind(a: u64, b: u64, low: u64, sub: u64, x: u64, j: int)
    requires
        0 <= j < 64,
        low == 0 || low == 1,
        a & b == 0,
        forall|k: int| 0 <= k < 64 ==> #[trigger] bit(sub, k) == (bit(b, k) || (k == 0 && low == 1)),
        x == !wrapped_diff(a, sub) & a,
    ensures
        bit(x, j) == (bit(a, j) && !prev_marked(bits_of(a), a | b, low == 0, j)),
{
    lemma_bit_ops(!wrapped_diff(a, sub), a, j as u64);
    lemma_bit_ops(wrapped_diff(a, sub), 0, j as u64);
    lemma_bit_ops(a, b, j as u64);
    lemma_bit_ops(0, 0, j as u64);
    if j > 0 {
        lemma_mark_borrows(a, b, low, sub, j);
    } else {
        lemma_borrow(a, sub, 0);
    }
}

/// The state flips at each transition, so the prefix parity of the
/// transitions says whether the state differs from the one at the bottom.
proof fn lemma_transition_parity(start: u64, stop: u64, prev: bool, t: u64, j: int)
    requires
        0 <= j <= 64,
        forall|k: int| 0 <= k < 64 ==> #[trigger] bit(t, k) == (bit(start | stop, k) && (bit(start, k)
            != state_before(start, stop, prev, k))),
    ensures
        prefix_xor(t, j - 1) == (state_before(start, stop, prev, j) != prev),
    decreases j,
{
    if j > 0 {
        lemma_transition_parity(start, stop, prev, t, j - 1);
        assert(bits_of(start)(j - 1) == bit(start, j - 1));
    }
}

/// The masked bit before each position of the prefix parity of the
/// transitions is the state before it, relative to the bottom.
proof fn lemma_ranges_before(start: u64, stop: u64, prev: bool, t: u64, ranges: u64, j: int)
    requires
        0 <= j <= 64,
        forall|k: int| 0 <= k < 64 ==> #[trigger] bit(t, k) == (bit(start | stop, k) && (bit(start, k)
            != state_before(start, stop, prev, k))),
        forall|k: int| 0 <= k < 64 ==> #[trigger] bit(ranges, k) == prefix_xor(t, k),
    ensures
        prev_marked(bits_of(ranges), start | stop, false, j) == (state_before(start, stop, prev, j) != prev),
    decreases j,
{
    if j > 0 {
        lemma_ranges_before(start, stop, prev, t, ranges, j - 1);
        lemma_transition_parity(start, stop, prev, t, j);
        assert(bits_of(ranges)(j - 1) == bit(ranges, j - 1));
        assert(bits_of(start)(j - 1) == bit(start, j - 1));
    }
}

impl<ClmulT: Clmul, XorMaskedAdjacentT: XorMaskedAdjacent> StartStopTransitions for Generic<
    ClmulT,
    XorMaskedAdjacentT,
> {
    fn start_stop_transitions(&self, start: u64, stop: u64, prev_state: bool) -> (r: (u64, bool)) {
        let not_prev: u64 = if prev_state {
            0
        } else {
            1
        };
        let prev: u64 = if prev_state {
            1
        } else {
            0
        };
        let starts = !start.wrapping_sub(stop | not_prev) & start;
        let stops = !stop.wrapping_sub(start | prev) & stop;
        let transitions = starts ^ stops;
        let ranges = self.clmul.clmul(transitions);
        let next_transitions = self.xor_masked_adjacent.xor_masked_adjacent(ranges, start | stop, false);
        let ones = count_ones(next_transitions);
        let next_state = prev_state != (ones % 2 == 1);
        proof {
            let mask = start | stop;
            assert(start.wrapping_sub(stop | not_prev) == wrapped_diff(start, stop | not_prev));
            assert(stop.wrapping_sub(start | prev) == wrapped_diff(stop, start | prev));
            assert(stop & start == 0) by (bit_vector)
                requires
                    start & stop == 0,
            ;
            assert forall|k: int| 0 <= k < 64 implies #[trigger] bit(stop | not_prev, k) == (bit(stop, k) || (k
                == 0 && not_prev == 1)) by {
                lemma_bit_ops(stop, not_prev, k as u64);
                lemma_bit_ops(not_prev, 0, k as u64);
                lemma_bit_ops(0, 0, k as u64);
            }
            assert forall|k: int| 0 <= k < 64 implies #[trigger] bit(start | prev, k) == (bit(start, k) || (k
                == 0 && prev == 1)) by {
                lemma_bit_ops(start, prev, k as u64);
                lemma_bit_ops(prev, 0, k as u64);
                lemma_bit_ops(0, 0, k as u64);
            }
            assert forall|k: int| 0 <= k < 64 implies #[trigger] bit(transitions, k) == (bit(mask, k) && (bit(
                start, k) != state_before(start, stop, prev_state, k))) by {
                lemma_first_of_kind(start, stop, not_prev, stop | not_prev, starts, k);
                lemma_first_of_kind(stop, start, prev, start | prev, stops, k);
                lemma_bit_ops(starts, stops, k as u64);
                lemma_bit_ops(start, stop, k as u64);
                lemma_bit_ops(0, 0, k as u64);
                lemma_marks_complement(start, stop, prev_state, k);
                assert(start | stop == stop | start) by (bit_vector);
            }
            assert forall|k: int| 0 <= k < 64 implies #[trigger] bit(next_transitions, k) == bit(transitions, k) by {
                lemma_ranges_before(start, stop, prev_state, transitions, ranges, k);
                lemma_transition_parity(start, stop, prev_state, transitions, k + 1);
                assert(bits_of(start)(k) == bit(start, k));
            }
            lemma_transition_parity(start, stop, prev_state, transitions, 64);
            lemma_prefix_xor_ext(next_transitions, transitions, 63);
            lemma_popcount_parity(next_transitions, 63);
        }
        (next_transitions, next_state)
    }
}

/// Seen from the stops, the state is the opposite: the last mark below is
/// a stop exactly when it is not a start.
proof fn lemma_marks_complement(start: u64, stop: u64, prev: bool, j: int)
    requires
        0 <= j <= 64,
        start & stop == 0,
    ensures
        prev_marked(bits_of(stop), stop | start, !prev, j) == !prev_marked(bits_of(start), start | stop, prev, j),
    decreases j,
{
    if j > 0 {
        lemma_marks_complement(start, stop, prev, j - 1);
        lemma_bit_ops(start, stop, (j - 1) as u64);
        lemma_bit_ops(stop, start, (j - 1) as u64);
        lemma_bit_ops(0, 0, (j - 1) as u64);
        assert(bits_of(start)(j - 1) == bit(start, j - 1));
        assert(bits_of(stop)(j - 1) == bit(stop, j - 1));
    }
}

/// The implementation to use on this machine.
pub fn runtime_detect() -> Generic<crate::clmul::Generic, crate::xor_masked_adjacent::Generic> {
    Generic::new(crate::clmul::runtime_detect(), crate::xor_masked_adjacent::runtime_detect())
}

} // verus!
