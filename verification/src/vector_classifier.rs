use vstd::prelude::*;

verus! {

/// Whether bit `i` of a 16-bit pattern is set.
pub open spec fn bit16(x: u16, i: int) -> bool {
    (x >> (i as u16)) & 1 == 1
}

/// Whether bit `i` of a byte is set.
pub open spec fn bit8(x: u8, i: int) -> bool {
    (x >> (i as u8)) & 1 == 1
}

proof fn lemma_bit16_or(x: u16, i: u16, j: u16)
    requires
        i < 16,
        j < 16,
    ensures
        bit16(x | (1u16 << i), j as int) == (bit16(x, j as int) || i == j),
{
    assert(((x | (1u16 << i)) >> j) & 1 == 1 <==> ((x >> j) & 1 == 1 || i == j)) by (bit_vector)
        requires
            i < 16,
            j < 16,
    ;
}

proof fn lemma_bit8_or(x: u8, i: u8, j: u8)
    requires
        i < 8,
        j < 8,
    ensures
        bit8(x | (1u8 << i), j as int) == (bit8(x, j as int) || i == j),
{
    assert(((x | (1u8 << i)) >> j) & 1 == 1 <==> ((x >> j) & 1 == 1 || i == j)) by (bit_vector)
        requires
            i < 8,
            j < 8,
    ;
}

proof fn lemma_bit8_single_and(v: u8, c: u8)
    requires
        c < 8,
    ensures
        ((1u8 << c) & v != 0) == bit8(v, c as int),
{
    assert(((1u8 << c) & v != 0) == ((v >> c) & 1 == 1)) by (bit_vector)
        requires
            c < 8,
    ;
}

pub proof fn lemma_bit16_zero(j: u16)
    requires
        j < 16,
    ensures
        !bit16(0u16, j as int),
{
    assert((0u16 >> j) & 1 == 0) by (bit_vector);
}

proof fn lemma_bit8_zero(j: u8)
    requires
        j < 8,
    ensures
        !bit8(0u8, j as int),
{
    assert((0u8 >> j) & 1 == 0) by (bit_vector);
}

/// The distinct non-zero values of `p`, in order of first occurrence.
pub open spec fn distinct_nonzero(p: Seq<u16>) -> Seq<u16>
    decreases p.len(),
{
    if p.len() == 0 {
        seq![]
    } else {
        let d = distinct_nonzero(p.drop_last());
        if p.last() != 0 && !d.contains(p.last()) {
            d.push(p.last())
        } else {
            d
        }
    }
}

proof fn lemma_distinct_nonzero(p: Seq<u16>)
    ensures
        forall|i: int, j: int|
            0 <= i < j < distinct_nonzero(p).len() ==> distinct_nonzero(p)[i] != distinct_nonzero(p)[j],
        forall|i: int| 0 <= i < distinct_nonzero(p).len() ==> distinct_nonzero(p)[i] != 0,
        forall|k: int| 0 <= k < p.len() && p[k] != 0 ==> distinct_nonzero(p).contains(p[k]),
        distinct_nonzero(p).len() <= p.len(),
    decreases p.len(),
{
    if p.len() > 0 {
        let q = p.drop_last();
        lemma_distinct_nonzero(q);
        assert forall|k: int| 0 <= k < p.len() && p[k] != 0 implies distinct_nonzero(p).contains(p[k]) by {
            if k < p.len() - 1 {
                assert(q[k] == p[k]);
                let d = distinct_nonzero(q);
                let w = choose|w: int| 0 <= w < d.len() && d[w] == p[k];
                assert(distinct_nonzero(p)[w] == p[k]);
            } else {
                if !distinct_nonzero(q).contains(p.last()) {
                    assert(distinct_nonzero(p)[distinct_nonzero(q).len() as int] == p.last());
                }
            }
        }
    }
}

/// A pattern list that is zero from index `k` on has at most `k` distinct
/// non-zero patterns.
pub proof fn lemma_distinct_nonzero_bound(p: Seq<u16>, k: int)
    requires
        0 <= k,
        forall|i: int| k <= i < p.len() ==> p[i] == 0,
    ensures
        distinct_nonzero(p).len() <= k,
    decreases p.len(),
{
    lemma_distinct_nonzero(p);
    if p.len() > k {
        lemma_distinct_nonzero_bound(p.drop_last(), k);
    }
}

/// The bit patterns of accepted bytes grouped by their high nibble: bit `l`
/// of `hi[h]` is whether byte `16 * h + l` is accepted.
pub open spec fn hi_patterns_of(accept: Seq<bool>, hi: Seq<u16>) -> bool {
    &&& hi.len() == 16
    &&& forall|h: int, l: int| 0 <= h < 16 && 0 <= l < 16 ==> bit16(hi[h], l) == accept[16 * h + l]
}

/// The bit patterns of accepted bytes grouped by their low nibble: bit `h`
/// of `lo[l]` is whether byte `16 * h + l` is accepted.
pub open spec fn lo_patterns_of(accept: Seq<bool>, lo: Seq<u16>) -> bool {
    &&& lo.len() == 16
    &&& forall|h: int, l: int| 0 <= h < 16 && 0 <= l < 16 ==> bit16(lo[l], h) == accept[16 * h + l]
}

#[derive(Clone, Copy, Debug)]
pub struct LookupTables {
    pub shuffle_table_lo: [u8; 16],
    pub shuffle_table_hi: [u8; 16],
}

/// What the tables give for byte `c`: the entry for its low nibble and-ed
/// with the entry for its high nibble.
pub open spec fn lookup_byte(t: LookupTables, c: u8) -> u8 {
    t.shuffle_table_lo@[(c % 16) as int] & t.shuffle_table_hi@[(c / 16) as int]
}

/// Whether the tables accept byte `c`.
pub open spec fn classifies(t: LookupTables, c: u8) -> bool {
    lookup_byte(t, c) != 0
}

pub proof fn lemma_bit16_ext(x: u16, y: u16)
    requires
        forall|j: int| 0 <= j < 16 ==> bit16(x, j) == bit16(y, j),
    ensures
        x == y,
{
    assert(bit16(x, 0) == bit16(y, 0) && bit16(x, 1) == bit16(y, 1) && bit16(x, 2) == bit16(y, 2));
    assert(bit16(x, 3) == bit16(y, 3) && bit16(x, 4) == bit16(y, 4) && bit16(x, 5) == bit16(y, 5));
    assert(bit16(x, 6) == bit16(y, 6) && bit16(x, 7) == bit16(y, 7) && bit16(x, 8) == bit16(y, 8));
    assert(bit16(x, 9) == bit16(y, 9) && bit16(x, 10) == bit16(y, 10) && bit16(x, 11) == bit16(y, 11));
    assert(bit16(x, 12) == bit16(y, 12) && bit16(x, 13) == bit16(y, 13) && bit16(x, 14) == bit16(y, 14));
    assert(bit16(x, 15) == bit16(y, 15));
    assert(x == y) by (bit_vector)
        requires
            ((x >> 0u16) & 1 == 1) == ((y >> 0u16) & 1 == 1), ((x >> 1u16) & 1 == 1) == ((y >> 1u16) & 1 == 1),
            ((x >> 2u16) & 1 == 1) == ((y >> 2u16) & 1 == 1), ((x >> 3u16) & 1 == 1) == ((y >> 3u16) & 1 == 1),
            ((x >> 4u16) & 1 == 1) == ((y >> 4u16) & 1 == 1), ((x >> 5u16) & 1 == 1) == ((y >> 5u16) & 1 == 1),
            ((x >> 6u16) & 1 == 1) == ((y >> 6u16) & 1 == 1), ((x >> 7u16) & 1 == 1) == ((y >> 7u16) & 1 == 1),
            ((x >> 8u16) & 1 == 1) == ((y >> 8u16) & 1 == 1), ((x >> 9u16) & 1 == 1) == ((y >> 9u16) & 1 == 1),
            ((x >> 10u16) & 1 == 1) == ((y >> 10u16) & 1 == 1), ((x >> 11u16) & 1 == 1) == ((y >> 11u16) & 1 == 1),
            ((x >> 12u16) & 1 == 1) == ((y >> 12u16) & 1 == 1), ((x >> 13u16) & 1 == 1) == ((y >> 13u16) & 1 == 1),
            ((x >> 14u16) & 1 == 1) == ((y >> 14u16) & 1 == 1), ((x >> 15u16) & 1 == 1) == ((y >> 15u16) & 1 == 1),
    ;
}

proof fn lemma_patterns_unique(a: Seq<u16>, b: Seq<u16>)
    requires
        a.len() == 16,
        b.len() == 16,
        forall|h: int, l: int| 0 <= h < 16 && 0 <= l < 16 ==> bit16(a[h], l) == bit16(b[h], l),
    ensures
        a == b,
{
    assert forall|h: int| 0 <= h < 16 implies a[h] == b[h] by {
        assert forall|j: int| 0 <= j < 16 implies bit16(a[h], j) == bit16(b[h], j) by {}
        lemma_bit16_ext(a[h], b[h]);
    }
    assert(a =~= b);
}

fn vec_contains(v: &Vec<u16>, x: u16) -> (r: bool)
    ensures
        r == v@.contains(x),
{
    let mut i: usize = 0;
    while i < v.len()
        invariant
            i <= v@.len(),
            forall|k: int| 0 <= k < i ==> v@[k] != x,
        decreases v@.len() - i,
    {
        if v[i] == x {
            return true;
        }
        i += 1;
    }
    false
}

/// The distinct non-zero patterns of `p`, in order of first occurrence.
/// Each pattern gets the class of its place in this sequence. A hash map
/// from pattern to class would hand out the classes in an order that
/// differs from one process to the next; a short sequence, searched
/// linearly, fixes that order, so the tables built are a function of
/// `accept` alone, and there are at most sixteen patterns to search.
fn distinct_nonzero_of(p: &[u16; 16]) -> (d: Vec<u16>)
    ensures
        d@ == distinct_nonzero(p@),
{
    let mut d: Vec<u16> = Vec::new();
    let mut idx: usize = 0;
    assert(p@.take(0) =~= Seq::<u16>::empty());
    while idx < 16
        invariant
            idx <= 16,
            p@.len() == 16,
            d@ == distinct_nonzero(p@.take(idx as int)),
        decreases 16 - idx,
    {
        let x = p[idx];
        assert(p@.take(idx + 1).drop_last() =~= p@.take(idx as int));
        if x != 0 && !vec_contains(&d, x) {
            d.push(x);
        }
        idx += 1;
    }
    assert(p@.take(16) =~= p@);
    d
}

/// The and of two table entries is non-zero exactly when pattern `p` has bit `y`.
spec fn entry_ok(a: u8, b: u8, p: u16, y: int) -> bool {
    (a & b != 0) <==> (p != 0 && bit16(p, y))
}

/// Splits the bytes that `accept` marks into at most eight classes of
/// high (or low) nibbles with the same pattern, and builds tables whose `and`
/// is non-zero exactly for accepted bytes.
fn build_tables(xp: &[u16; 16], d: &Vec<u16>) -> (r: ([u8; 16], [u8; 16]))
    requires
        d@.len() <= 8,
        forall|i: int, j: int| 0 <= i < j < d@.len() ==> d@[i] != d@[j],
        forall|i: int| 0 <= i < d@.len() ==> d@[i] != 0,
        forall|x: int| 0 <= x < 16 && xp@[x] != 0 ==> d@.contains(xp@[x]),
    ensures
        forall|x: int, y: int|
            0 <= x < 16 && 0 <= y < 16 ==> #[trigger] entry_ok(r.0@[x], r.1@[y], xp@[x], y),
{
    let mut tx: [u8; 16] = [0u8; 16];
    let mut ty: [u8; 16] = [0u8; 16];
    let mut b: usize = 0;
    proof {
        assert forall|y: int, j: int| 0 <= y < 16 && 0 <= j < 8 implies bit8(ty@[y], j) == false by {
            lemma_bit8_zero(j as u8);
        }
    }
    while b < d.len()
        invariant
            b <= d@.len(),
            d@.len() <= 8,
            tx@.len() == 16,
            ty@.len() == 16,
            forall|i: int, j: int| 0 <= i < j < d@.len() ==> d@[i] != d@[j],
            forall|x: int, c: int| 0 <= x < 16 && 0 <= c < b && d@[c] == xp@[x] ==> tx@[x] == (1u8 << (c as u8)),
            forall|x: int| 0 <= x < 16 && (forall|c: int| 0 <= c < b ==> d@[c] != xp@[x]) ==> tx@[x] == 0,
            forall|y: int, j: int| 0 <= y < 16 && 0 <= j < 8 ==> bit8(ty@[y], j) == (j < b && bit16(d@[j], y)),
        decreases d@.len() - b,
    {
        let u = d[b];
        let bitv: u8 = 1u8 << (b as u8);
        let mut x: usize = 0;
        while x < 16
            invariant
                b < d@.len(),
                d@.len() <= 8,
                u == d@[b as int],
                bitv == 1u8 << (b as u8),
                x <= 16,
                tx@.len() == 16,
                forall|i: int, j: int| 0 <= i < j < d@.len() ==> d@[i] != d@[j],
                forall|x2: int, c: int| 0 <= x2 < 16 && 0 <= c < b && d@[c] == xp@[x2] ==> tx@[x2] == (1u8 << (c as u8)),
                forall|x2: int, c: int| 0 <= x2 < x && c == b && d@[c] == xp@[x2] ==> tx@[x2] == (1u8 << (c as u8)),
                forall|x2: int| 0 <= x2 < 16 && (forall|c: int| 0 <= c < b ==> d@[c] != xp@[x2]) && !(x2 < x && xp@[x2] == u) ==> tx@[x2] == 0,
            decreases 16 - x,
        {
            if xp[x] == u {
                tx[x] = bitv;
            }
            x += 1;
        }
        let mut y: usize = 0;
        while y < 16
            invariant
                b < d@.len(),
                d@.len() <= 8,
                u == d@[b as int],
                bitv == 1u8 << (b as u8),
                y <= 16,
                ty@.len() == 16,
                forall|y2: int, j: int| 0 <= y2 < 16 && 0 <= j < 8 ==> bit8(ty@[y2], j) == ((j < b && bit16(d@[j], y2)) || (j == b && y2 < y && bit16(u, y2))),
            decreases 16 - y,
        {
            let ghost old_tys = ty@;
            if (u >> (y as u16)) & 1 == 1 {
                assert(bit16(u, y as int));
                ty[y] = ty[y] | bitv;
                proof {
                    assert forall|y2: int, j: int| 0 <= y2 < 16 && 0 <= j < 8 implies #[trigger] bit8(ty@[y2], j) == ((j < b && bit16(d@[j], y2)) || (j == b && y2 < y + 1 && bit16(u, y2))) by {
                        if y2 == y {
                            lemma_bit8_or(old_tys[y2], b as u8, j as u8);
                        } else {
                            assert(ty@[y2] == old_tys[y2]);
                        }
                    }
                }
            } else {
                assert(!bit16(u, y as int));
                assert forall|y2: int, j: int| 0 <= y2 < 16 && 0 <= j < 8 implies #[trigger] bit8(ty@[y2], j) == ((j < b && bit16(d@[j], y2)) || (j == b && y2 < y + 1 && bit16(u, y2))) by {
                    assert(ty@[y2] == old_tys[y2]);
                }
            }
            y += 1;
        }
        b += 1;
    }
    let r = (tx, ty);
    proof {
        assert forall|x: int, y: int| 0 <= x < 16 && 0 <= y < 16 implies #[trigger] entry_ok(r.0@[x], r.1@[y], xp@[x], y) by {
            let v = ty@[y];
            let w = tx@[x];
            if xp@[x] != 0 {
                let c = choose|c: int| 0 <= c < d@.len() && d@[c] == xp@[x];
                assert(w == (1u8 << (c as u8)));
                lemma_bit8_single_and(v, c as u8);
                assert(bit8(v, c) == bit16(d@[c], y));
            } else {
                assert forall|c: int| 0 <= c < b implies d@[c] != xp@[x] by {}
                assert(w == 0);
                assert(w & v == 0) by (bit_vector)
                    requires
                        w == 0,
                ;
            }
        }
    }
    r
}

/// Which byte values `chars` holds, as a table over all 256 of them.
pub open spec fn accept_of(chars: Seq<u8>) -> Seq<bool> {
    Seq::new(256, |i: int| chars.contains(i as u8))
}

impl LookupTables {
    pub fn empty() -> (r: Self)
        ensures
            forall|i: int| 0 <= i < 16 ==> r.shuffle_table_lo@[i] == 0 && r.shuffle_table_hi@[i] == 0,
    {
        Self { shuffle_table_lo: [0u8; 16], shuffle_table_hi: [0u8; 16] }
    }

    /// Tables for the bytes that `accept` marks, when their high nibbles or
    /// their low nibbles fall into at most eight classes of equal patterns;
    /// `None` otherwise.
    pub fn new(accept: &[bool; 256]) -> (r: Option<Self>)
        ensures
            r matches Some(t) ==> forall|c: u8| #[trigger] classifies(t, c) == accept@[c as int],
            exists|hi: Seq<u16>, lo: Seq<u16>|
                hi_patterns_of(accept@, hi) && lo_patterns_of(accept@, lo),
            forall|hi: Seq<u16>, lo: Seq<u16>|
                hi_patterns_of(accept@, hi) && lo_patterns_of(accept@, lo) ==> (r is None <==> (
                distinct_nonzero(hi).len() > 8 && distinct_nonzero(lo).len() > 8)),
    {
        let mut hi: [u16; 16] = [0u16; 16];
        let mut lo: [u16; 16] = [0u16; 16];
        proof {
            assert forall|h: int, l: int| 0 <= h < 16 && 0 <= l < 16 implies !bit16(hi@[h], l) && !bit16(lo@[l], h) by {
                lemma_bit16_zero(l as u16);
                lemma_bit16_zero(h as u16);
            }
        }
        let mut h: usize = 0;
        while h < 16
            invariant
                h <= 16,
                hi@.len() == 16,
                lo@.len() == 16,
                accept@.len() == 256,
                forall|h2: int, l2: int| 0 <= h2 < 16 && 0 <= l2 < 16 ==> bit16(hi@[h2], l2) == (h2 < h && accept@[16 * h2 + l2]),
                forall|h2: int, l2: int| 0 <= h2 < 16 && 0 <= l2 < 16 ==> bit16(lo@[l2], h2) == (h2 < h && accept@[16 * h2 + l2]),
            decreases 16 - h,
        {
            let mut l: usize = 0;
            while l < 16
                invariant
                    h < 16,
                    l <= 16,
                    hi@.len() == 16,
                    lo@.len() == 16,
                    accept@.len() == 256,
                    forall|h2: int, l2: int| 0 <= h2 < 16 && 0 <= l2 < 16 ==> bit16(hi@[h2], l2) == ((h2 < h || (h2 == h && l2 < l)) && accept@[16 * h2 + l2]),
                    forall|h2: int, l2: int| 0 <= h2 < 16 && 0 <= l2 < 16 ==> bit16(lo@[l2], h2) == ((h2 < h || (h2 == h && l2 < l)) && accept@[16 * h2 + l2]),
                decreases 16 - l,
            {
                let ghost old_hi = hi@;
                let ghost old_lo = lo@;
                if accept[16 * h + l] {
                    hi[h] = hi[h] | (1u16 << (l as u16));
                    lo[l] = lo[l] | (1u16 << (h as u16));
                    proof {
                        assert forall|h2: int, l2: int| 0 <= h2 < 16 && 0 <= l2 < 16 implies #[trigger] bit16(hi@[h2], l2) == ((h2 < h || (h2 == h && l2 < l + 1)) && accept@[16 * h2 + l2]) by {
                            if h2 == h {
                                lemma_bit16_or(old_hi[h2], l as u16, l2 as u16);
                            }
                        }
                        assert forall|h2: int, l2: int| 0 <= h2 < 16 && 0 <= l2 < 16 implies #[trigger] bit16(lo@[l2], h2) == ((h2 < h || (h2 == h && l2 < l + 1)) && accept@[16 * h2 + l2]) by {
                            if l2 == l {
                                lemma_bit16_or(old_lo[l2], h as u16, h2 as u16);
                            }
                        }
                    }
                }
                l += 1;
            }
            h += 1;
        }
        assert(hi_patterns_of(accept@, hi@));
        assert(lo_patterns_of(accept@, lo@));
        assert(exists|hi2: Seq<u16>, lo2: Seq<u16>| hi_patterns_of(accept@, hi2) && lo_patterns_of(accept@, lo2));
        let unique_hi = distinct_nonzero_of(&hi);
        let unique_lo = distinct_nonzero_of(&lo);
        proof {
            lemma_distinct_nonzero(hi@);
            lemma_distinct_nonzero(lo@);
            assert forall|hi2: Seq<u16>, lo2: Seq<u16>| hi_patterns_of(accept@, hi2) && lo_patterns_of(accept@, lo2) implies hi2 == hi@ && lo2 == lo@ by {
                lemma_patterns_unique(hi2, hi@);
                lemma_patterns_unique(lo2, lo@);
            }
        }
        if unique_hi.len() <= 8 {
            let (tx, ty) = build_tables(&hi, &unique_hi);
            let t = Self { shuffle_table_lo: ty, shuffle_table_hi: tx };
            proof {
                assert forall|c: u8| #[trigger] classifies(t, c) == accept@[c as int] by {
                    let h = (c / 16) as int;
                    let l = (c % 16) as int;
                    assert(16 * h + l == c);
                    assert(t.shuffle_table_lo@[l] & t.shuffle_table_hi@[h] == t.shuffle_table_hi@[h] & t.shuffle_table_lo@[l]) by {
                        let a = t.shuffle_table_lo@[l];
                        let b = t.shuffle_table_hi@[h];
                        assert(a & b == b & a) by (bit_vector);
                    }
                    assert(entry_ok(tx@[h], ty@[l], hi@[h], l));
                    if hi@[h] == 0 {
                        lemma_bit16_zero(l as u16);
                    }
                }
            }
            Some(t)
        } else if unique_lo.len() <= 8 {
            let (tx, ty) = build_tables(&lo, &unique_lo);
            let t = Self { shuffle_table_lo: tx, shuffle_table_hi: ty };
            proof {
                assert forall|c: u8| #[trigger] classifies(t, c) == accept@[c as int] by {
                    let h = (c / 16) as int;
                    let l = (c % 16) as int;
                    assert(16 * h + l == c);
                    assert(entry_ok(tx@[l], ty@[h], lo@[l], h));
                    if lo@[l] == 0 {
                        lemma_bit16_zero(h as u16);
                    }
                }
            }
            Some(t)
        } else {
            None
        }
    }

    /// Tables that accept exactly the bytes in `chars`, under the same
    /// condition as [`LookupTables::new`].
    pub fn from_accepting_chars(chars: &[u8]) -> (r: Option<Self>)
        ensures
            r matches Some(t) ==> forall|c: u8| #[trigger] classifies(t, c) == chars@.contains(c),
            exists|hi: Seq<u16>, lo: Seq<u16>|
                hi_patterns_of(accept_of(chars@), hi) && lo_patterns_of(accept_of(chars@), lo),
            forall|hi: Seq<u16>, lo: Seq<u16>|
                hi_patterns_of(accept_of(chars@), hi) && lo_patterns_of(accept_of(chars@), lo) ==> (
                r is None <==> (distinct_nonzero(hi).len() > 8 && distinct_nonzero(lo).len() > 8)),
    {
        let mut accept: [bool; 256] = [false; 256];
        let mut k: usize = 0;
        while k < chars.len()
            invariant
                k <= chars@.len(),
                accept@.len() == 256,
                forall|i: int| 0 <= i < 256 ==> accept@[i] == chars@.take(k as int).contains(i as u8),
            decreases chars@.len() - k,
        {
            let c = chars[k];
            let ghost before = accept@;
            accept[c as usize] = true;
            proof {
                let prefix = chars@.take(k as int);
                let longer = chars@.take(k + 1);
                assert(longer =~= prefix.push(c));
                assert forall|i: int| 0 <= i < 256 implies accept@[i] == longer.contains(i as u8) by {
                    if i == c as int {
                        assert(longer[k as int] == c);
                    } else {
                        assert(accept@[i] == before[i]);
                        if longer.contains(i as u8) {
                            let w = choose|w: int| 0 <= w < longer.len() && longer[w] == i as u8;
                            assert(prefix[w] == i as u8);
                        }
                        if prefix.contains(i as u8) {
                            let w = choose|w: int| 0 <= w < prefix.len() && prefix[w] == i as u8;
                            assert(longer[w] == i as u8);
                        }
                    }
                }
            }
            k += 1;
        }
        proof {
            assert(chars@.take(chars@.len() as int) =~= chars@);
            assert(accept@ =~= accept_of(chars@));
        }
        let r = Self::new(&accept);
        proof {
            if let Some(t) = r {
                assert forall|c: u8| #[trigger] classifies(t, c) == chars@.contains(c) by {
                    assert(classifies(t, c) == accept@[c as int]);
                    assert((c as int) as u8 == c);
                }
            }
        }
        r
    }
}


/// Something that marks which bytes of a buffer belong to the set its lookup
/// tables describe.
pub trait Classifier {
    /// The tables this classifier applies.
    spec fn lookup_tables(&self) -> LookupTables;

    /// Transforms the bytes in `in_out` so that each is non-zero exactly when
    /// the byte it replaces is accepted by the lookup tables.
    fn classify(&self, in_out: &mut [u8])
        ensures
            final(in_out)@.len() == old(in_out)@.len(),
            forall|i: int|
                0 <= i < old(in_out)@.len() ==> final(in_out)@[i] == lookup_byte(
                    self.lookup_tables(),
                    #[trigger] old(in_out)@[i],
                ),
    ;
}

/// A classifier that looks up each byte on its own.
#[derive(Clone, Debug)]
pub struct GenericClassifier {
    lookup_tables: LookupTables,
}

impl GenericClassifier {
    fn new(lookup_tables: &LookupTables) -> (r: Self)
        ensures
            r.lookup_tables == *lookup_tables,
    {
        Self { lookup_tables: *lookup_tables }
    }
}

proof fn lemma_nibbles(b: u8)
    ensures
        b & 0xF == b % 16,
        (b >> 4) & 0xF == b / 16,
{
    assert(b & 0xF == b % 16) by (bit_vector);
    assert((b >> 4) & 0xF == b / 16) by (bit_vector);
}

impl Classifier for GenericClassifier {
    closed spec fn lookup_tables(&self) -> LookupTables {
        self.lookup_tables
    }

    fn classify(&self, in_out: &mut [u8]) {
        let n = in_out.len();
        let mut i: usize = 0;
        while i < n
            invariant
                n == old(in_out)@.len(),
                i <= n,
                in_out@.len() == n,
                forall|j: int| 0 <= j < i ==> in_out@[j] == lookup_byte(self.lookup_tables, old(in_out)@[j]),
                forall|j: int| i <= j < n ==> in_out@[j] == old(in_out)@[j],
            decreases n - i,
        {
            let b = in_out[i];
            proof {
                lemma_nibbles(b);
            }
            let v = self.lookup_tables.shuffle_table_lo[(b & 0xF) as usize]
                & self.lookup_tables.shuffle_table_hi[((b >> 4) & 0xF) as usize];
            in_out[i] = v;
            i += 1;
        }
    }
}

/// Something that builds a classifier from lookup tables.
pub trait ClassifierBuilder {
    type Classifier: Classifier;

    fn build(&self, lookup_tables: &LookupTables) -> (r: Self::Classifier)
        ensures
            r.lookup_tables() == *lookup_tables,
    ;
}

/// Builds [`GenericClassifier`]s.
pub struct GenericBuilder {}

impl GenericBuilder {
    pub fn new() -> Self {
        GenericBuilder {}
    }
}

impl ClassifierBuilder for GenericBuilder {
    type Classifier = GenericClassifier;

    fn build(&self, lookup_tables: &LookupTables) -> (r: GenericClassifier) {
        GenericClassifier::new(lookup_tables)
    }
}

/// Builds the best classifier that this library has for the machine it runs
/// on; every machine gets the byte-by-byte [`GenericClassifier`].
pub struct RuntimeDetectBuilder {}

impl RuntimeDetectBuilder {
    pub fn new() -> Self {
        RuntimeDetectBuilder {}
    }
}

impl ClassifierBuilder for RuntimeDetectBuilder {
    type Classifier = GenericClassifier;

    fn build(&self, lookup_tables: &LookupTables) -> (r: GenericClassifier) {
        GenericBuilder::new().build(lookup_tables)
    }
}

pub fn runtime_detect() -> RuntimeDetectBuilder {
    RuntimeDetectBuilder::new()
}

} // verus!
