use vstd::prelude::*;
use crate::structural::bit;

verus! {

/// The bitmask of 64 bytes that are each all zeros or all ones: bit `i`
/// is set when byte `i` is all ones.
pub fn make_bitmask_generic(input: &[u8]) -> (r: u64)
    requires
        input@.len() >= 64,
        forall|i: int| 0 <= i < 64 ==> input@[i] == 0x00u8 || input@[i] == 0xFFu8,
    ensures
        forall|i: int| 0 <= i < 64 ==> (bit(r, i) <==> input@[i] == 0xFFu8),
{
    broadcast use crate::structural::lemma_bit_or_single;

    let mut result: u64 = 0;
    let mut i: u64 = 0;
    proof {
        assert forall|j: int| 0 <= j < 64 implies !bit(result, j) by {
            crate::structural::lemma_bit_zero(j as u64);
        }
    }
    while i < 64
        invariant
            i <= 64,
            input@.len() >= 64,
            forall|j: int| 0 <= j < i ==> (bit(result, j) <==> input@[j] == 0xFFu8),
            forall|j: int| i <= j < 64 ==> !bit(result, j),
        decreases 64 - i,
    {
        let ghost prev = result;
        if input[i as usize] == 0xFFu8 {
            result = result | (1u64 << i);
            proof {
                assert forall|j: int| 0 <= j < 64 implies bit(result, j) == (j == i || bit(prev, j)) by {
                    crate::structural::lemma_bit_or_single(prev, i, j as u64);
                }
            }
        }
        i += 1;
    }
    result
}

/// The bytes of `x` in the opposite order.
fn swap_bytes(x: u64) -> (r: u64)
    ensures
        forall|k: u64| k < 8 ==> #[trigger] ((r >> (8 * k)) & 0xff) == (x >> (8 * ((7 - k) as u64))) & 0xff,
{
    let r = ((x & 0xff) << 56) | (((x >> 8) & 0xff) << 48) | (((x >> 16) & 0xff) << 40) | (((x >> 24)
        & 0xff) << 32) | (((x >> 32) & 0xff) << 24) | (((x >> 40) & 0xff) << 16) | (((x >> 48) & 0xff)
        << 8) | ((x >> 56) & 0xff);
    assert(forall|k: u64| k < 8 ==> #[trigger] ((r >> (8 * k)) & 0xff) == (x >> (8 * ((7 - k) as u64))) & 0xff)
        by (bit_vector)
        requires
            r == ((x & 0xff) << 56) | (((x >> 8) & 0xff) << 48) | (((x >> 16) & 0xff) << 40) | (((x
                >> 24) & 0xff) << 32) | (((x >> 32) & 0xff) << 24) | (((x >> 40) & 0xff) << 16) | (((x
                >> 48) & 0xff) << 8) | ((x >> 56) & 0xff),
    ;
    r
}

/// The bits of `x` in the opposite order.
pub fn bitrev64(x: u64) -> (r: u64)
    ensures
        forall|i: int| 0 <= i < 64 ==> (bit(r, i) <==> bit(x, 63 - i)),
{
    let y = swap_bytes(x);
    let y1 = ((y & 0xF0F0F0F0F0F0F0F0u64) >> 4) | ((y & 0x0F0F0F0F0F0F0F0Fu64) << 4);
    let y2 = ((y1 & 0xCCCCCCCCCCCCCCCCu64) >> 2) | ((y1 & 0x3333333333333333u64) << 2);
    let r = ((y2 & 0xAAAAAAAAAAAAAAAAu64) >> 1) | ((y2 & 0x5555555555555555u64) << 1);
    proof {
        assert forall|i: int| 0 <= i < 64 implies (bit(r, i) <==> bit(x, 63 - i)) by {
            let iu = i as u64;
            let k = iu / 8;
            assert(k < 8);
            assert(((y >> (8 * k)) & 0xff) == (x >> (8 * ((7 - k) as u64))) & 0xff);
            assert(((r >> iu) & 1 == 1) <==> ((x >> ((63 - iu) as u64)) & 1 == 1)) by (bit_vector)
                requires
                    iu < 64,
                    k == iu / 8,
                    ((y >> (8 * k)) & 0xff) == (x >> (8 * ((7 - k) as u64))) & 0xff,
                    y1 == ((y & 0xF0F0F0F0F0F0F0F0u64) >> 4) | ((y & 0x0F0F0F0F0F0F0F0Fu64) << 4),
                    y2 == ((y1 & 0xCCCCCCCCCCCCCCCCu64) >> 2) | ((y1 & 0x3333333333333333u64) << 2),
                    r == ((y2 & 0xAAAAAAAAAAAAAAAAu64) >> 1) | ((y2 & 0x5555555555555555u64) << 1),
            ;
        }
    }
    r
}

/// Marks a path as unlikely to be taken.
pub fn cold() {
}

/// `b`, expected to be true.
pub fn likely(b: bool) -> (r: bool)
    ensures
        r == b,
{
    if !b {
        cold();
    }
    b
}

/// `b`, expected to be false.
pub fn unlikely(b: bool) -> (r: bool)
    ensures
        r == b,
{
    if b {
        cold();
    }
    b
}

/// The little-endian `u32` in the first four bytes of `buf`.
pub fn read_u32(buf: &[u8]) -> (r: u32)
    requires
        buf@.len() >= 4,
    ensures
        r == crate::rust_parser::word_of(buf@[0], buf@[1], buf@[2], buf@[3]),
{
    (buf[0] as u32) | ((buf[1] as u32) << 8u32) | ((buf[2] as u32) << 16u32) | ((buf[3] as u32) << 24u32)
}


/// The picture of the low `n_bits` bits of `m` that the bit mask printers
/// show: `x` for a set bit, a space for a clear one, lowest bit first when
/// `little_endian`, highest first otherwise.
pub open spec fn bitmask_picture(m: u64, n_bits: int, little_endian: bool) -> Seq<u8> {
    Seq::new(
        n_bits as nat,
        |k: int|
            if bit(
                m,
                if little_endian {
                    k
                } else {
                    n_bits - 1 - k
                },
            ) {
                0x78u8
            } else {
                0x20u8
            },
    )
}

/// Draws the low `n_bits` bits of `m`, as `bitmask_picture` says.
pub fn bitmask_chars(m: u64, n_bits: usize, little_endian: bool) -> (r: Vec<u8>)
    requires
        n_bits <= 64,
    ensures
        r@ == bitmask_picture(m, n_bits as int, little_endian),
{
    let mut out: Vec<u8> = Vec::new();
    let mut k: usize = 0;
    while k < n_bits
        invariant
            k <= n_bits <= 64,
            out@ == bitmask_picture(m, n_bits as int, little_endian).take(k as int),
        decreases n_bits - k,
    {
        let i: u64 = if little_endian {
            k as u64
        } else {
            (n_bits - 1 - k) as u64
        };
        let c: u8 = if (m >> i) & 1 == 1 {
            0x78u8
        } else {
            0x20u8
        };
        out.push(c);
        assert(out@ =~= bitmask_picture(m, n_bits as int, little_endian).take(k + 1));
        k += 1;
    }
    out
}

/// Draws a sequence of flags: `x` for true, a space for false.
pub fn bool_chars(m: &[bool]) -> (r: Vec<u8>)
    ensures
        r@ == m@.map_values(|b: bool| if b {
            0x78u8
        } else {
            0x20u8
        }),
{
    let mut out: Vec<u8> = Vec::new();
    let mut k: usize = 0;
    while k < m.len()
        invariant
            k <= m@.len(),
            out@ == m@.take(k as int).map_values(|b: bool| if b {
                0x78u8
            } else {
                0x20u8
            }),
        decreases m@.len() - k,
    {
        out.push(if m[k] {
            0x78u8
        } else {
            0x20u8
        });
        assert(m@.take(k + 1) =~= m@.take(k as int).push(m@[k as int]));
        assert(out@ =~= m@.take(k + 1).map_values(|b: bool| if b {
            0x78u8
        } else {
            0x20u8
        }));
        k += 1;
    }
    assert(m@.take(m@.len() as int) =~= m@);
    out
}

} // verus!
