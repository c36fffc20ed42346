use vstd::prelude::*;
use crate::structural::{bit, lemma_bit_or_single, lemma_bit_zero};

verus! {

/// Whether an odd number of the bits of `x` at positions `0..=j` are set.
pub open spec fn prefix_xor(x: u64, j: int) -> bool
    decreases j + 1,
{
    if j < 0 {
        false
    } else {
        prefix_xor(x, j - 1) != bit(x, j)
    }
}

/// Carry-less multiplication of a word by all ones: bit `j` of the result
/// is the exclusive or of the bits `0..=j` of the input.
pub trait Clmul {
    fn clmul(&self, input: u64) -> (r: u64)
        ensures
            forall|j: int| 0 <= j < 64 ==> #[trigger] bit(r, j) == prefix_xor(input, j),
    ;
}

/// Computes the prefix parity one bit at a time.
#[derive(Copy, Clone, Debug)]
pub struct Generic {}

impl Generic {
    pub fn new() -> Self {
        Generic {}
    }
}

impl Clmul for Generic {
    fn clmul(&self, input: u64) -> (r: u64) {
        broadcast use lemma_bit_or_single;

        let mut output: u64 = 0;
        let mut cur_state: bool = false;
        let mut bit_index: u64 = 0;
        proof {
            assert forall|j: int| 0 <= j < 64 implies !bit(output, j) by {
                lemma_bit_zero(j as u64);
            }
        }
        while bit_index < 64
            invariant
                bit_index <= 64,
                cur_state == prefix_xor(input, bit_index - 1),
                forall|j: int| 0 <= j < bit_index ==> #[trigger] bit(output, j) == prefix_xor(input, j),
                forall|j: int| bit_index <= j < 64 ==> !#[trigger] bit(output, j),
            decreases 64 - bit_index,
        {
            if (input >> bit_index) & 1 == 1 {
                cur_state = !cur_state;
            }
            assert(cur_state == prefix_xor(input, bit_index as int));
            let ghost before = output;
            if cur_state {
                output = output | (1u64 << bit_index);
                proof {
                    assert forall|j: int| 0 <= j < 64 implies bit(output, j) == (j == bit_index || bit(before, j)) by {
                        lemma_bit_or_single(before, bit_index, j as u64);
                    }
                }
            }
            bit_index += 1;
        }
        output
    }
}

/// The carry-less multiplier to use on this machine.
pub fn runtime_detect() -> Generic {
    Generic::new()
}


/// The parity of the set bits of `x` at positions `0..=j` is the prefix
/// exclusive or.
pub proof fn lemma_popcount_parity(x: u64, j: int)
    requires
        -1 <= j < 64,
    ensures
        (crate::extract::popcount_below(x, j + 1) % 2 == 1) == prefix_xor(x, j),
    decreases j + 1,
{
    if j >= 0 {
        lemma_popcount_parity(x, j - 1);
    }
}

/// Words with the same bits have the same prefix exclusive or.
pub proof fn lemma_prefix_xor_ext(x: u64, y: u64, j: int)
    requires
        j < 64,
        forall|k: int| 0 <= k < 64 ==> #[trigger] bit(x, k) == bit(y, k),
    ensures
        prefix_xor(x, j) == prefix_xor(y, j),
    decreases j + 1,
{
    if j >= 0 {
        lemma_prefix_xor_ext(x, y, j - 1);
    }
}

} // verus!
