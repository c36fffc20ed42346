use vstd::prelude::*;
use crate::structural::bit;

verus! {

/// The positions of the set bits of `bitmask` below `n`, in increasing
/// order, each moved up by `start_offset`.
pub open spec fn bit_positions(bitmask: u64, start_offset: usize, n: int) -> Seq<usize>
    decreases n,
{
    if n <= 0 {
        seq![]
    } else {
        bit_positions(bitmask, start_offset, n - 1) + if bit(bitmask, n - 1) {
            seq![(start_offset + n - 1) as usize]
        } else {
            seq![]
        }
    }
}

/// Appends to `out` the position (moved up by `start_offset`) of every set
/// bit of `bitmask`, in increasing order.
pub fn safe_generic(out: &mut Vec<usize>, start_offset: usize, bitmask: u64)
    requires
        forall|i: int| 0 <= i < 64 && bit(bitmask, i) ==> start_offset + i <= usize::MAX,
    ensures
        final(out)@ == old(out)@ + bit_positions(bitmask, start_offset, 64),
{
    let mut i: u64 = 0;
    while i < 64
        invariant
            i <= 64,
            forall|i: int| 0 <= i < 64 && bit(bitmask, i) ==> start_offset + i <= usize::MAX,
            out@ == old(out)@ + bit_positions(bitmask, start_offset, i as int),
        decreases 64 - i,
    {
        let ghost before = out@;
        if (bitmask >> i) & 1 == 1 {
            assert(bit(bitmask, i as int));
            out.push(start_offset + i as usize);
            assert(out@ =~= before + seq![(start_offset + i) as usize]);
        } else {
            assert(before + Seq::<usize>::empty() =~= before);
        }
        proof {
            assert(old(out)@ + bit_positions(bitmask, start_offset, i + 1) =~= old(out)@
                + bit_positions(bitmask, start_offset, i as int) + (if bit(bitmask, i as int) {
                seq![(start_offset + i) as usize]
            } else {
                seq![]
            }));
        }
        i += 1;
    }
}

/// The number of set bits of `bitmask` below `n`.
pub open spec fn popcount_below(bitmask: u64, n: int) -> int
    decreases n,
{
    if n <= 0 {
        0
    } else {
        popcount_below(bitmask, n - 1) + if bit(bitmask, n - 1) {
            1int
        } else {
            0
        }
    }
}

/// The number of set bits of `bitmask`.
pub open spec fn popcount(bitmask: u64) -> int {
    popcount_below(bitmask, 64)
}

/// The number of set bits of `x`, counted one bit at a time.
pub(crate) fn count_ones(x: u64) -> (r: u32)
    ensures
        r == popcount(x),
{
    let mut n: u32 = 0;
    let mut i: u64 = 0;
    while i < 64
        invariant
            i <= 64,
            n <= i,
            n == popcount_below(x, i as int),
        decreases 64 - i,
    {
        if (x >> i) & 1 == 1 {
            assert(bit(x, i as int));
            n += 1;
        } else {
            assert(!bit(x, i as int));
        }
        i += 1;
    }
    n
}

proof fn lemma_bit_positions_len_exact(bm: u64, start: usize, n: int)
    requires
        0 <= n,
    ensures
        bit_positions(bm, start, n).len() == popcount_below(bm, n),
    decreases n,
{
    if n > 0 {
        lemma_bit_positions_len_exact(bm, start, n - 1);
    }
}

/// Clearing the lowest set bit `t` of `b` keeps every other bit.
proof fn lemma_clear_lowest(b: u64, t: u64, j: u64)
    requires
        t < 64,
        j < 64,
        (b >> t) & 1 == 1,
        (b << ((64 - t) as u64)) == 0,
    ensures
        bit(b & sub_one(b), j as int) == (j != t && bit(b, j as int)),
{
    let c = b & sub_one(b);
    assert(((c >> j) & 1 == 1) == (j != t && (b >> j) & 1 == 1)) by (bit_vector)
        requires
            t < 64,
            j < 64,
            (b >> t) & 1 == 1,
            (b << ((64 - t) as u64)) == 0,
            c == b & ((b - 1) as u64),
    ;
}

/// `b - 1`, for a non-zero `b`.
pub open spec fn sub_one(b: u64) -> u64 {
    (b - 1) as u64
}

/// No set bits in `n..m`: the positions below `m` are those below `n`.
pub proof fn lemma_bit_positions_gap(bm: u64, start: usize, n: int, m: int)
    requires
        0 <= n <= m,
        forall|j: int| n <= j < m ==> !bit(bm, j),
    ensures
        bit_positions(bm, start, m) == bit_positions(bm, start, n),
        popcount_below(bm, m) == popcount_below(bm, n),
    decreases m,
{
    if m > n {
        lemma_bit_positions_gap(bm, start, n, m - 1);
        assert(bit_positions(bm, start, m - 1) + Seq::<usize>::empty() =~= bit_positions(bm, start, m - 1));
    }
}

proof fn lemma_popcount_mono(bm: u64, a: int, b: int)
    requires
        0 <= a <= b,
    ensures
        popcount_below(bm, a) <= popcount_below(bm, b),
    decreases b,
{
    if b > a {
        lemma_popcount_mono(bm, a, b - 1);
    }
}

/// One step of reading out set bits: `t` is the lowest set bit of `b`,
/// whose set bits are those of `orig` from `p` on.
proof fn lemma_extract_step(orig: u64, b: u64, p: int, t: u32, start: usize)
    requires
        0 <= p <= 64,
        b != 0,
        t == b.trailing_zeros(),
        forall|j: int| 0 <= j < 64 ==> (bit(b, j) <==> (j >= p && bit(orig, j))),
    ensures
        p <= t < 64,
        bit(orig, t as int),
        bit_positions(orig, start, t + 1) == bit_positions(orig, start, p).push((start + t) as usize),
        popcount_below(orig, t + 1) == popcount_below(orig, p) + 1,
        forall|j: int| 0 <= j < 64 ==> (#[trigger] bit(b & sub_one(b), j) <==> (j >= t + 1 && bit(orig, j))),
{
    vstd::std_specs::bits::axiom_u64_trailing_zeros(b);
    let tt = t as u64;
    assert(tt < 64);
    assert(bit(b, tt as int));
    assert((b << ((64 - tt) as u64)) == 0);
    assert forall|j: int| 0 <= j < t implies !bit(b, j) by {
        assert(((b >> (j as u64)) & 1u64) == 0u64);
    }
    assert(p <= t);
    assert forall|j: int| p <= j < t implies !bit(orig, j) by {
        assert(!bit(b, j));
    }
    lemma_bit_positions_gap(orig, start, p, t as int);
    assert forall|j: int| 0 <= j < 64 implies (#[trigger] bit(b & sub_one(b), j) <==> (j >= t + 1 && bit(orig, j))) by {
        lemma_clear_lowest(b, tt, j as u64);
        assert(bit(b, j) <==> (j >= p && bit(orig, j)));
    }
}

/// Writes, from the front of `out`, the position (moved up by
/// `start_offset`) of every set bit of `bitmask`, in increasing order, and
/// returns how many there are.
pub fn safe(out: &mut [usize], start_offset: usize, bitmask: u64) -> (r: usize)
    requires
        old(out)@.len() >= popcount(bitmask),
        forall|i: int| 0 <= i < 64 && bit(bitmask, i) ==> start_offset + i <= usize::MAX,
    ensures
        r == popcount(bitmask),
        final(out)@.len() == old(out)@.len(),
        final(out)@.take(r as int) == bit_positions(bitmask, start_offset, 64),
        final(out)@.skip(r as int) == old(out)@.skip(r as int),
{
    let ghost orig = bitmask;
    let mut bitmask = bitmask;
    let mut out_idx: usize = 0;
    let ghost mut p: int = 0;
    proof {
        assert(out@.take(0) =~= Seq::<usize>::empty());
    }
    while bitmask != 0
        invariant
            0 <= p <= 64,
            out@.len() == old(out)@.len(),
            old(out)@.len() >= popcount(orig),
            forall|i: int| 0 <= i < 64 && bit(orig, i) ==> start_offset + i <= usize::MAX,
            out_idx == popcount_below(orig, p),
            out@.take(out_idx as int) == bit_positions(orig, start_offset, p),
            forall|j: int| 0 <= j < 64 ==> (bit(bitmask, j) <==> (j >= p && bit(orig, j))),
            out@.skip(out_idx as int) == old(out)@.skip(out_idx as int),
        decreases 64 - p,
    {
        let t = bitmask.trailing_zeros();
        proof {
            lemma_extract_step(orig, bitmask, p, t, start_offset);
            lemma_popcount_mono(orig, t + 1, 64);
        }
        let ghost before = out@;
        out[out_idx] = start_offset + t as usize;
        proof {
            assert(out@.take(out_idx + 1) =~= before.take(out_idx as int).push((start_offset + t) as usize));
            let a = out@.skip(out_idx + 1);
            let b = old(out)@.skip(out_idx + 1);
            assert forall|k: int| 0 <= k < a.len() implies #[trigger] a[k] == b[k] by {
                assert(before.skip(out_idx as int)[k + 1] == old(out)@.skip(out_idx as int)[k + 1]);
            }
            assert(a =~= b);
        }
        out_idx += 1;
        let ghost old_b = bitmask;
        bitmask = bitmask & (bitmask - 1);
        proof {
            assert(bitmask == old_b & sub_one(old_b));
            p = t + 1;
            assert forall|j: int| 0 <= j < 64 implies (bit(bitmask, j) <==> (j >= p && bit(orig, j))) by {
                assert(bit(old_b & sub_one(old_b), j) <==> (j >= t + 1 && bit(orig, j)));
            }
        }
    }
    proof {
        assert forall|j: int| p <= j < 64 implies !bit(orig, j) by {
            if bit(orig, j) {
                assert(bit(bitmask, j));
                crate::structural::lemma_bit_zero(j as u64);
            }
        }
        lemma_bit_positions_gap(orig, start_offset, p, 64);
    }
    out_idx
}

/// How far reading out the set bits of `orig` into `out` has come: the
/// positions of its set bits below `p` are at the front of `out`, then come
/// entries of `start + 64` for the steps taken after the bits ran out, and
/// `b` holds the set bits of `orig` not read yet.
pub open spec fn extract_progress(
    out: Seq<usize>,
    old_out: Seq<usize>,
    idx: int,
    b: u64,
    orig: u64,
    start: usize,
    p: int,
) -> bool {
    let pc = popcount_below(orig, p);
    &&& 0 <= p <= 64
    &&& pc <= idx <= out.len()
    &&& out.len() == old_out.len()
    &&& out.take(pc) == bit_positions(orig, start, p)
    &&& forall|k: int| pc <= k < idx ==> out[k] == start + 64
    &&& idx > pc ==> b == 0 && p == 64
    &&& forall|j: int| 0 <= j < 64 ==> (bit(b, j) <==> (j >= p && bit(orig, j)))
    &&& out.skip(idx) == old_out.skip(idx)
}

/// Reads out the lowest set bit of `bitmask` into `out[out_idx]`
/// (`start_offset + 64` when there is none) and clears it.
fn extract_step(
    out: &mut [usize],
    out_idx: usize,
    start_offset: usize,
    bitmask: u64,
    Ghost(orig): Ghost<u64>,
    Ghost(old_out): Ghost<Seq<usize>>,
    Ghost(p): Ghost<int>,
) -> (r: (u64, Ghost<int>))
    requires
        extract_progress(old(out)@, old_out, out_idx as int, bitmask, orig, start_offset, p),
        out_idx < old(out)@.len(),
        start_offset + 64 <= usize::MAX,
    ensures
        extract_progress(final(out)@, old_out, out_idx + 1, r.0, orig, start_offset, r.1@),
        bitmask != 0 ==> r.1@ > p,
        bitmask == 0 ==> r.0 == 0,
{
    let t = bitmask.trailing_zeros();
    let ghost before = out@;
    out[out_idx] = start_offset + t as usize;
    let ghost mut p2: int = p;
    proof {
        let a = out@.skip(out_idx + 1);
        let b = old_out.skip(out_idx + 1);
        assert forall|k: int| 0 <= k < a.len() implies #[trigger] a[k] == b[k] by {
            assert(before.skip(out_idx as int)[k + 1] == old_out.skip(out_idx as int)[k + 1]);
        }
        assert(a =~= b);
    }
    let next = bitmask & bitmask.wrapping_sub(1);
    proof {
        if bitmask != 0 {
            lemma_extract_step(orig, bitmask, p, t, start_offset);
            assert(next == bitmask & sub_one(bitmask));
            assert(out@.take(out_idx + 1) =~= before.take(out_idx as int).push((start_offset + t) as usize));
            p2 = t + 1;
            assert forall|j: int| 0 <= j < 64 implies (bit(next, j) <==> (j >= p2 && bit(orig, j))) by {
                assert(bit(bitmask & sub_one(bitmask), j) <==> (j >= t + 1 && bit(orig, j)));
            }
        } else {
            vstd::std_specs::bits::axiom_u64_trailing_zeros(bitmask);
            assert(next == 0) by (bit_vector)
                requires
                    bitmask == 0,
                    next == bitmask & bitmask.wrapping_sub(1),
            ;
            assert forall|j: int| p <= j < 64 implies !bit(orig, j) by {
                if bit(orig, j) {
                    assert(bit(bitmask, j));
                    crate::structural::lemma_bit_zero(j as u64);
                }
            }
            lemma_bit_positions_gap(orig, start_offset, p, 64);
            p2 = 64;
            assert forall|j: int| 0 <= j < 64 implies !bit(next, j) by {
                crate::structural::lemma_bit_zero(j as u64);
            }
            assert(t == 64);
            let pc = popcount_below(orig, p);
            lemma_popcount_mono(orig, 0, p);
            assert(0 <= pc <= out_idx);
            assert(out@ == before.update(out_idx as int, (start_offset + t) as usize));
            assert forall|k: int| 0 <= k < pc implies #[trigger] out@[k] == before[k] by {}
            assert(out@.take(pc) =~= before.take(pc));
            assert forall|k: int| pc <= k < out_idx + 1 implies #[trigger] out@[k] == start_offset + 64 by {
                if k < out_idx {
                    assert(before[k] == start_offset + 64);
                }
            }
        }
    }
    (next, Ghost(p2))
}

/// How many entries `fast` writes for `n` set bits: it works in rounds of
/// eight for the first two rounds.
pub open spec fn fast_written(n: int) -> int {
    if n <= 8 {
        8
    } else if n <= 16 {
        16
    } else {
        n
    }
}

proof fn lemma_progress_facts(
    out: Seq<usize>,
    old_out: Seq<usize>,
    idx: int,
    b: u64,
    orig: u64,
    start: usize,
    p: int,
)
    requires
        extract_progress(out, old_out, idx, b, orig, start, p),
    ensures
        b == 0 ==> popcount_below(orig, p) == popcount(orig) && bit_positions(orig, start, p)
            == bit_positions(orig, start, 64),
        b != 0 ==> popcount_below(orig, p) < popcount(orig) && idx == popcount_below(orig, p),
{
    if b == 0 {
        assert forall|j: int| p <= j < 64 implies !bit(orig, j) by {
            if bit(orig, j) {
                assert(bit(b, j));
                crate::structural::lemma_bit_zero(j as u64);
            }
        }
        lemma_bit_positions_gap(orig, start, p, 64);
    } else {
        vstd::std_specs::bits::axiom_u64_trailing_zeros(b);
        let j = b.trailing_zeros() as int;
        assert(bit(b, j));
        assert(j >= p && bit(orig, j));
        lemma_popcount_mono(orig, p, j);
        lemma_popcount_mono(orig, j + 1, 64);
    }
}

/// Writes, from the front of `out`, the position (moved up by
/// `start_offset`) of every set bit of `bitmask`, in increasing order, and
/// returns how many there are. It works in rounds of eight: the entries of
/// the last round after the set bits hold `start_offset + 64`.
pub fn fast(out: &mut [usize], start_offset: usize, bitmask: u64) -> (r: usize)
    requires
        old(out)@.len() >= fast_written(popcount(bitmask)),
        start_offset + 64 <= usize::MAX,
    ensures
        r == popcount(bitmask),
        final(out)@.len() == old(out)@.len(),
        final(out)@.take(r as int) == bit_positions(bitmask, start_offset, 64),
        forall|k: int| r <= k < fast_written(r as int) ==> final(out)@[k] == start_offset + 64,
        final(out)@.skip(fast_written(r as int)) == old(out)@.skip(fast_written(r as int)),
{
    let ghost orig = bitmask;
    let ghost old_out = out@;
    let ghost n = popcount(orig);
    let len = out.len();
    assert(old_out.len() == len);
    let end = count_ones(bitmask) as usize;
    let mut bitmask = bitmask;
    let mut out_idx: usize = 0;
    let ghost mut p: int = 0;
    proof {
        assert(out@.take(0) =~= Seq::<usize>::empty());
        assert(out@.skip(0) =~= old_out.skip(0));
        lemma_popcount_mono(orig, 0, 64);
    }
    let mut round: usize = 0;
    while round < 8
        invariant
            round <= 8,
            out_idx == round,
            extract_progress(out@, old_out, out_idx as int, bitmask, orig, start_offset, p),
            old_out.len() >= fast_written(n),
            n == popcount(orig),
            start_offset + 64 <= usize::MAX,
            popcount_below(orig, p) == if out_idx <= n {
                out_idx as int
            } else {
                n
            },
        decreases 8 - round,
    {
        proof {
            lemma_progress_facts(out@, old_out, out_idx as int, bitmask, orig, start_offset, p);
        }
        let (b, gp) = extract_step(out, out_idx, start_offset, bitmask, Ghost(orig), Ghost(old_out), Ghost(p));
        proof {
            if bitmask != 0 {
                lemma_extract_step(orig, bitmask, p, bitmask.trailing_zeros(), start_offset);
            }
        }
        bitmask = b;
        proof {
            p = gp@;
            lemma_progress_facts(out@, old_out, out_idx + 1, bitmask, orig, start_offset, p);
        }
        out_idx += 1;
        round += 1;
    }
    proof {
        lemma_progress_facts(out@, old_out, out_idx as int, bitmask, orig, start_offset, p);
    }
    if bitmask != 0 {
        let mut round: usize = 0;
        while round < 8
            invariant
                round <= 8,
                out_idx == 8 + round,
                extract_progress(out@, old_out, out_idx as int, bitmask, orig, start_offset, p),
                old_out.len() >= fast_written(n),
                n == popcount(orig),
                n > 8,
                start_offset + 64 <= usize::MAX,
                popcount_below(orig, p) == if out_idx <= n {
                    out_idx as int
                } else {
                    n
                },
            decreases 8 - round,
        {
            proof {
                lemma_progress_facts(out@, old_out, out_idx as int, bitmask, orig, start_offset, p);
            }
            let (b, gp) = extract_step(out, out_idx, start_offset, bitmask, Ghost(orig), Ghost(old_out), Ghost(p));
            proof {
                if bitmask != 0 {
                    lemma_extract_step(orig, bitmask, p, bitmask.trailing_zeros(), start_offset);
                }
            }
            bitmask = b;
            proof {
                p = gp@;
                lemma_progress_facts(out@, old_out, out_idx + 1, bitmask, orig, start_offset, p);
            }
            out_idx += 1;
            round += 1;
        }
    }
    proof {
        lemma_progress_facts(out@, old_out, out_idx as int, bitmask, orig, start_offset, p);
        assert(out_idx == fast_written(popcount_below(orig, p)));
    }
    while bitmask != 0
        invariant
            extract_progress(out@, old_out, out_idx as int, bitmask, orig, start_offset, p),
            old_out.len() >= fast_written(n),
            old_out.len() <= usize::MAX,
            out_idx == fast_written(popcount_below(orig, p)),
            n == popcount(orig),
            start_offset + 64 <= usize::MAX,
            out_idx >= 8,
            bitmask != 0 ==> out_idx >= 16,
            bitmask != 0 ==> out_idx == popcount_below(orig, p),
            popcount_below(orig, p) == if out_idx <= n {
                out_idx as int
            } else {
                n
            },
        decreases 64 - p,
    {
        proof {
            lemma_progress_facts(out@, old_out, out_idx as int, bitmask, orig, start_offset, p);
        }
        let (b, gp) = extract_step(out, out_idx, start_offset, bitmask, Ghost(orig), Ghost(old_out), Ghost(p));
        proof {
            lemma_extract_step(orig, bitmask, p, bitmask.trailing_zeros(), start_offset);
        }
        bitmask = b;
        proof {
            p = gp@;
            lemma_progress_facts(out@, old_out, out_idx + 1, bitmask, orig, start_offset, p);
        }
        out_idx += 1;
    }
    proof {
        lemma_progress_facts(out@, old_out, out_idx as int, bitmask, orig, start_offset, p);
        assert(out_idx == fast_written(n));
    }
    end
}

} // verus!
