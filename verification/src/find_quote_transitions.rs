use vstd::prelude::*;
use crate::structural::{bit, lemma_bit_ops};
use crate::clmul::{Clmul, prefix_xor, lemma_popcount_parity};
use crate::xor_masked_adjacent::{XorMaskedAdjacent, bits_of, prev_marked};
use crate::extract::{popcount, count_ones};

verus! {

/// Whether position `j` of a block lies inside a quoted string: the state
/// is `prev_state` at the bottom and flips at every unescaped quote, and at
/// an escaped quote that stands outside a string.
pub open spec fn in_quotes(unescaped: u64, escaped: u64, prev_state: bool, j: int) -> bool
    decreases j,
{
    if j <= 0 {
        prev_state
    } else {
        let q = in_quotes(unescaped, escaped, prev_state, j - 1);
        q != (bit(unescaped, j - 1) || (bit(escaped, j - 1) && !q))
    }
}

/// The masked bit before each escaped quote, read from the prefix parity of
/// the unescaped quotes, tells whether that parity agrees with the state.
proof fn lemma_escaped_before(unescaped: u64, escaped: u64, prev: bool, c: u64, j: int)
    requires
        0 <= j <= 64,
        unescaped & escaped == 0,
        forall|k: int| 0 <= k < 64 ==> #[trigger] bit(c, k) == prefix_xor(unescaped, k),
    ensures
        prev_marked(bits_of(c), escaped, !prev, j) == (prefix_xor(unescaped, j - 1) == in_quotes(
            unescaped,
            escaped,
            prev,
            j,
        )),
    decreases j,
{
    if j > 0 {
        lemma_escaped_before(unescaped, escaped, prev, c, j - 1);
        lemma_bit_ops(unescaped, escaped, (j - 1) as u64);
        lemma_bit_ops(0, 0, (j - 1) as u64);
        assert(bits_of(c)(j - 1) == bit(c, j - 1));
    }
}

/// The transitions flip the state, so their prefix parity says whether the
/// state differs from the one at the bottom.
proof fn lemma_quote_parity(unescaped: u64, escaped: u64, prev: bool, t: u64, j: int)
    requires
        0 <= j <= 64,
        forall|k: int| 0 <= k < 64 ==> #[trigger] bit(t, k) == (bit(unescaped, k) || (bit(escaped, k)
            && !in_quotes(unescaped, escaped, prev, k))),
    ensures
        prefix_xor(t, j - 1) == (in_quotes(unescaped, escaped, prev, j) != prev),
    decreases j,
{
    if j > 0 {
        lemma_quote_parity(unescaped, escaped, prev, t, j - 1);
    }
}

/// Marks the quotes at which the quoted-string state flips: every unescaped
/// quote, and the escaped quotes that stand outside a string. The second
/// result is the state at the end of the block, which is also the state
/// before it flipped once per mark.
pub fn find_quote_transitions<ClmulT: Clmul, XorMaskedAdjacentT: XorMaskedAdjacent>(
    clmul: &ClmulT,
    xor_masked_adjacent: &XorMaskedAdjacentT,
    unescaped: u64,
    escaped: u64,
    prev_state: bool,
) -> (r: (u64, bool))
    requires
        unescaped & escaped == 0,
    ensures
        forall|j: int| 0 <= j < 64 ==> #[trigger] bit(r.0, j) == (bit(unescaped, j) || (bit(escaped, j)
            && !in_quotes(unescaped, escaped, prev_state, j))),
        r.1 == in_quotes(unescaped, escaped, prev_state, 64),
        r.1 == (prev_state != (popcount(r.0) % 2 == 1)),
{
    let c = clmul.clmul(unescaped);
    let d = xor_masked_adjacent.xor_masked_adjacent(c, escaped, !prev_state);
    let next_transitions = unescaped | d;
    let ones = count_ones(next_transitions);
    let next_state = prev_state != (ones % 2 == 1);
    proof {
        assert forall|j: int| 0 <= j < 64 implies #[trigger] bit(next_transitions, j) == (bit(unescaped, j)
            || (bit(escaped, j) && !in_quotes(unescaped, escaped, prev_state, j))) by {
            lemma_escaped_before(unescaped, escaped, prev_state, c, j);
            lemma_bit_ops(unescaped, d, j as u64);
            lemma_bit_ops(unescaped, escaped, j as u64);
            lemma_bit_ops(0, 0, j as u64);
            assert(bit(d, j) == (bit(escaped, j) && (bit(c, j) != prev_marked(bits_of(c), escaped, !prev_state, j))));
        }
        lemma_quote_parity(unescaped, escaped, prev_state, next_transitions, 64);
        lemma_popcount_parity(next_transitions, 63);
    }
    (next_transitions, next_state)
}

} // verus!
