use vstd::prelude::*;
use crate::structural::{bit, lemma_bit_ops};

verus! {

/// The bit just below position `j` of `bm`; below position 0 it is `prev`,
/// the top bit of the block before.
pub open spec fn bit_before(bm: u64, prev: bool, j: int) -> bool {
    if j == 0 {
        prev
    } else {
        bit(bm, j - 1)
    }
}

/// Whether the run of set bits of `bm` that ends just below position `j`
/// has odd length. Below position 0, `prev` says whether the block before
/// ended in a run of odd length.
pub open spec fn odd_run_before(bm: u64, prev: bool, j: int) -> bool
    decreases j,
{
    if j <= 0 {
        prev
    } else {
        bit(bm, j - 1) && !odd_run_before(bm, prev, j - 1)
    }
}

/// Marks the first bit of every run of set bits.
pub fn range_starts_single(bm: u64) -> (r: u64)
    ensures
        forall|j: int| 0 <= j < 64 ==> #[trigger] bit(r, j) == (bit(bm, j) && !bit_before(bm, false, j)),
{
    let r = bm & !(bm << 1u64);
    proof {
        assert forall|j: int| 0 <= j < 64 implies #[trigger] bit(r, j) == (bit(bm, j) && !bit_before(bm, false, j)) by {
            lemma_bit_ops(bm, !(bm << 1u64), j as u64);
            lemma_bit_ops(bm << 1u64, 0, j as u64);
            lemma_bit_ops(bm, 0, j as u64);
        }
    }
    r
}

/// Marks the first bit of every run of set bits; a run at the bottom does
/// not start here when `prev` says that the block before ended in a set bit.
pub fn range_starts(bm: u64, prev: bool) -> (r: u64)
    ensures
        forall|j: int| 0 <= j < 64 ==> #[trigger] bit(r, j) == (bit(bm, j) && !bit_before(bm, prev, j)),
{
    let p: u64 = if prev {
        1
    } else {
        0
    };
    let r = bm & !(bm << 1u64 | p);
    proof {
        assert forall|j: int| 0 <= j < 64 implies #[trigger] bit(r, j) == (bit(bm, j) && !bit_before(bm, prev, j)) by {
            lemma_bit_ops(bm, !(bm << 1u64 | p), j as u64);
            lemma_bit_ops(bm << 1u64 | p, 0, j as u64);
            lemma_bit_ops(bm << 1u64, p, j as u64);
            lemma_bit_ops(bm, 0, j as u64);
        }
    }
    r
}

/// Marks every bit that differs from the bit below it (from `prev` at the
/// bottom): the starts of the runs of set bits and of the runs of clear
/// bits.
pub fn range_transitions(bm: u64, prev: bool) -> (r: u64)
    ensures
        forall|j: int| 0 <= j < 64 ==> #[trigger] bit(r, j) == (bit(bm, j) != bit_before(bm, prev, j)),
{
    let a = range_starts(bm, prev);
    let b = range_starts(!bm, !prev);
    let r = a | b;
    proof {
        assert forall|j: int| 0 <= j < 64 implies #[trigger] bit(r, j) == (bit(bm, j) != bit_before(bm, prev, j)) by {
            lemma_bit_ops(a, b, j as u64);
            lemma_bit_ops(bm, 0, j as u64);
            assert(bit(a, j) == (bit(bm, j) && !bit_before(bm, prev, j)));
            assert(bit(b, j) == (bit(!bm, j) && !bit_before(!bm, !prev, j)));
            if j > 0 {
                lemma_bit_ops(bm, 0, (j - 1) as u64);
            }
        }
    }
    r
}

/// Marks every set bit of `bm` whose bit below is set too; below position
/// 0 that is the top bit of `prev_bm`, the block before.
pub fn range_tails(bm: u64, prev_bm: u64) -> (r: u64)
    ensures
        forall|j: int| 0 <= j < 64 ==> #[trigger] bit(r, j) == (bit(bm, j) && bit_before(bm, bit(prev_bm, 63), j)),
{
    let r = bm & (bm << 1u64 | prev_bm >> 63u64);
    proof {
        assert forall|j: int| 0 <= j < 64 implies #[trigger] bit(r, j) == (bit(bm, j) && bit_before(bm, bit(prev_bm, 63), j)) by {
            lemma_bit_ops(bm, bm << 1u64 | prev_bm >> 63u64, j as u64);
            lemma_bit_ops(bm << 1u64, prev_bm >> 63u64, j as u64);
            lemma_bit_ops(prev_bm, 0, j as u64);
            assert(bit(prev_bm >> 63u64, j) == (j == 0 && bit(prev_bm, 63)));
            lemma_bit_ops(bm, 0, j as u64);
            assert(bit(bm << 1u64, j) == (j > 0 && bit(bm, j - 1)));
        }
    }
    r
}


proof fn lemma_add_bits(a: u64, b: u64, s: u64, j: u64)
    requires
        j < 64,
        s == (if a + b > 0xFFFF_FFFF_FFFF_FFFFu64 {
            (a + b - 0x1_0000_0000_0000_0000int) as u64
        } else {
            (a + b) as u64
        }),
    ensures
        ({
            let a0 = (a >> j) & 1 == 1;
            let b0 = (b >> j) & 1 == 1;
            let c0 = ((s >> j) & 1 == 1) != (a0 != b0);
            &&& j == 0 ==> !c0
            &&& j < 63 ==> ((((s >> ((j + 1) as u64)) & 1 == 1) != (((a >> ((j + 1) as u64)) & 1 == 1) != ((b >> ((j + 1) as u64)) & 1 == 1))) == ((a0 && b0) || ((a0 || b0) && c0)))
            &&& j == 63 ==> ((a + b > 0xFFFF_FFFF_FFFF_FFFFu64) == ((a0 && b0) || ((a0 || b0) && c0)))
        }),
{
    assert({
        let a0 = (a >> j) & 1 == 1;
        let b0 = (b >> j) & 1 == 1;
        let c0 = ((s >> j) & 1 == 1) != (a0 != b0);
        &&& j == 0 ==> !c0
        &&& j < 63 ==> ((((s >> ((j + 1) as u64)) & 1 == 1) != (((a >> ((j + 1) as u64)) & 1 == 1) != ((b >> ((j + 1) as u64)) & 1 == 1))) == ((a0 && b0) || ((a0 || b0) && c0)))
        &&& j == 63 ==> ((a + b > 0xFFFF_FFFF_FFFF_FFFFu64) == ((a0 && b0) || ((a0 || b0) && c0)))
    }) by (bit_vector)
        requires
            j < 64,
            s == (if a + b > 0xFFFF_FFFF_FFFF_FFFFu64 {
                (a + b - 0x1_0000_0000_0000_0000int) as u64
            } else {
                (a + b) as u64
            }),
    ;
}


/// `a + b`, wrapped around at 2^64.
pub open spec fn wrapped_sum(a: u64, b: u64) -> u64 {
    if a + b > 0xFFFF_FFFF_FFFF_FFFFu64 {
        (a + b - 0x1_0000_0000_0000_0000int) as u64
    } else {
        (a + b) as u64
    }
}

/// The carry into bit `j` when adding `a` and `b`.
pub open spec fn carry_in(a: u64, b: u64, j: int) -> bool {
    bit(wrapped_sum(a, b), j) != (bit(a, j) != bit(b, j))
}

/// How the carries of an addition go from one bit to the next.
pub proof fn lemma_carry(a: u64, b: u64, j: int)
    requires
        0 <= j < 64,
    ensures
        j == 0 ==> !carry_in(a, b, 0),
        j < 63 ==> carry_in(a, b, j + 1) == ((bit(a, j) && bit(b, j)) || ((bit(a, j) || bit(b, j))
            && carry_in(a, b, j))),
        j == 63 ==> (a + b > 0xFFFF_FFFF_FFFF_FFFFu64) == ((bit(a, 63) && bit(b, 63)) || ((bit(a, 63)
            || bit(b, 63)) && carry_in(a, b, 63))),
{
    lemma_add_bits(a, b, wrapped_sum(a, b), j as u64);
}

/// Adding to `bm` the starts of its runs that begin at an odd position
/// (`e`, with the bottom one when the run continues an odd run of the block
/// before), or at an even one (`o`), carries to the bit after each such run.
proof fn lemma_run_carries(bm: u64, ovf: bool, e: u64, o: u64, j: int)
    requires
        0 <= j <= 63,
        forall|k: int| 0 <= k < 64 ==> #[trigger] bit(e, k) == if k == 0 {
            ovf
        } else {
            bit(bm, k) && !bit(bm, k - 1) && k % 2 == 1
        },
        forall|k: int| 0 <= k < 64 ==> #[trigger] bit(o, k) == if k == 0 {
            bit(bm, 0) && !ovf
        } else {
            bit(bm, k) && !bit(bm, k - 1) && k % 2 == 0
        },
    ensures
        carry_in(e, bm, j) == (j > 0 && bit(bm, j - 1) && (odd_run_before(bm, ovf, j) == (j % 2 == 0))),
        carry_in(o, bm, j) == (j > 0 && bit(bm, j - 1) && (odd_run_before(bm, ovf, j) != (j % 2 == 0))),
    decreases j,
{
    if j == 0 {
        lemma_carry(e, bm, 0);
        lemma_carry(o, bm, 0);
    } else {
        lemma_run_carries(bm, ovf, e, o, j - 1);
        lemma_carry(e, bm, j - 1);
        lemma_carry(o, bm, j - 1);
        assert(bit(e, j - 1) == if j - 1 == 0 {
            ovf
        } else {
            bit(bm, j - 1) && !bit(bm, j - 2) && (j - 1) % 2 == 1
        });
        assert(bit(o, j - 1) == if j - 1 == 0 {
            bit(bm, 0) && !ovf
        } else {
            bit(bm, j - 1) && !bit(bm, j - 2) && (j - 1) % 2 == 0
        });
        assert(odd_run_before(bm, ovf, j) == (bit(bm, j - 1) && !odd_run_before(bm, ovf, j - 1)));
        if j - 1 > 0 {
            assert(odd_run_before(bm, ovf, j - 1) ==> bit(bm, j - 2));
        }
    }
}

const BM_EVEN: u64 = 0xAAAA_AAAA_AAAA_AAAAu64;

const BM_ODD: u64 = 0x5555_5555_5555_5555u64;

/// Marks the bit just after every run of set bits of odd length (the end is
/// exclusive). `prev_overflow` says whether the block before ended in a run
/// of odd length, which a run at the bottom continues; the second result
/// says the same of this block.
pub fn odd_range_ends(bm: u64, prev_overflow: bool) -> (r: (u64, bool))
    ensures
        forall|j: int| 0 <= j < 64 ==> #[trigger] bit(r.0, j) == (!bit(bm, j) && odd_run_before(bm, prev_overflow, j)),
        r.1 == odd_run_before(bm, prev_overflow, 64),
{
    let p: u64 = if prev_overflow {
        1
    } else {
        0
    };
    let single = range_starts_single(bm & !(bm << 1u64));
    let bm_start = single | p;
    let bm_start_even = bm_start & (BM_EVEN ^ p);
    let sum_even = bm_start_even.wrapping_add(bm);
    let next_overflow = sum_even < bm;
    let bm_end_1 = sum_even & !bm;
    let bm_end_oddlen_1 = bm_end_1 & BM_ODD;
    let bm_start_odd = bm_start & (BM_ODD ^ p);
    let sum_odd = bm_start_odd.wrapping_add(bm);
    let bm_end_2 = sum_odd & !bm;
    let bm_end_oddlen_2 = bm_end_2 & BM_EVEN;
    let bm_end_oddlen = bm_end_oddlen_1 | bm_end_oddlen_2;
    proof {
        let ovf = prev_overflow;
        assert(sum_even == wrapped_sum(bm_start_even, bm));
        assert(sum_odd == wrapped_sum(bm_start_odd, bm));
        assert forall|k: int| 0 <= k < 64 implies #[trigger] bit(bm_start, k) == if k == 0 {
            bit(bm, 0) || ovf
        } else {
            bit(bm, k) && !bit(bm, k - 1)
        } by {
            let x = bm & !(bm << 1u64);
            lemma_bit_ops(single, p, k as u64);
            lemma_bit_ops(bm, !(bm << 1u64), k as u64);
            lemma_bit_ops(bm << 1u64, 0, k as u64);
            lemma_bit_ops(bm, 0, k as u64);
            lemma_bit_ops(p, 0, k as u64);
            if k > 0 {
                lemma_bit_ops(bm, !(bm << 1u64), (k - 1) as u64);
            }
            assert(bit(single, k) == (bit(x, k) && !bit_before(x, false, k)));
        }
        assert forall|k: int| 0 <= k < 64 implies #[trigger] bit(bm_start_even, k) == if k == 0 {
            ovf
        } else {
            bit(bm, k) && !bit(bm, k - 1) && k % 2 == 1
        } by {
            lemma_bit_ops(bm_start, BM_EVEN ^ p, k as u64);
            lemma_bit_ops(BM_EVEN, p, k as u64);
            lemma_bit_ops(p, 0, k as u64);
        }
        assert forall|k: int| 0 <= k < 64 implies #[trigger] bit(bm_start_odd, k) == if k == 0 {
            bit(bm, 0) && !ovf
        } else {
            bit(bm, k) && !bit(bm, k - 1) && k % 2 == 0
        } by {
            lemma_bit_ops(bm_start, BM_ODD ^ p, k as u64);
            lemma_bit_ops(BM_ODD, p, k as u64);
            lemma_bit_ops(p, 0, k as u64);
        }
        assert forall|j: int| 0 <= j < 64 implies #[trigger] bit(bm_end_oddlen, j) == (!bit(bm, j)
            && odd_run_before(bm, ovf, j)) by {
            lemma_run_carries(bm, ovf, bm_start_even, bm_start_odd, j);
            lemma_bit_ops(bm_end_oddlen_1, bm_end_oddlen_2, j as u64);
            lemma_bit_ops(bm_end_1, BM_ODD, j as u64);
            lemma_bit_ops(bm_end_2, BM_EVEN, j as u64);
            lemma_bit_ops(sum_even, !bm, j as u64);
            lemma_bit_ops(sum_odd, !bm, j as u64);
            lemma_bit_ops(bm, 0, j as u64);
            if j > 0 {
                assert(odd_run_before(bm, ovf, j) ==> bit(bm, j - 1));
            }
        }
        lemma_run_carries(bm, ovf, bm_start_even, bm_start_odd, 63);
        lemma_carry(bm_start_even, bm, 63);
        assert(odd_run_before(bm, ovf, 64) == (bit(bm, 63) && !odd_run_before(bm, ovf, 63)));
        assert(odd_run_before(bm, ovf, 63) ==> bit(bm, 62));
        assert(next_overflow == (bm_start_even + bm > 0xFFFF_FFFF_FFFF_FFFFu64));
    }
    (bm_end_oddlen, next_overflow)
}

} // verus!
