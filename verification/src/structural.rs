use vstd::prelude::*;
use crate::vector_classifier::{
    LookupTables, accept_of, bit16, classifies, distinct_nonzero, hi_patterns_of,
    lemma_bit16_ext, lemma_bit16_zero, lemma_distinct_nonzero_bound, lo_patterns_of,
};

verus! {

/// Whether bit `i` of `x` is set.
pub open spec fn bit(x: u64, i: int) -> bool {
    (x >> (i as u64)) & 1 == 1
}

pub broadcast proof fn lemma_bit_or_single(r: u64, i: u64, j: u64)
    requires
        i < 64,
        j < 64,
    ensures
        #[trigger] bit(r | (1u64 << i), j as int) == (j == i || bit(r, j as int)),
{
    assert(((r | (1u64 << i)) >> j) & 1 == 1 <==> (j == i || (r >> j) & 1 == 1)) by (bit_vector)
        requires
            i < 64,
            j < 64,
    ;
}

/// What the bitwise operators, a shift by one and a few constants do to
/// one bit.
pub proof fn lemma_bit_ops(a: u64, b: u64, j: u64)
    requires
        j < 64,
    ensures
        bit(a & b, j as int) == (bit(a, j as int) && bit(b, j as int)),
        bit(a | b, j as int) == (bit(a, j as int) || bit(b, j as int)),
        bit(a ^ b, j as int) == (bit(a, j as int) != bit(b, j as int)),
        bit(!a, j as int) == !bit(a, j as int),
        bit(a << 1u64, j as int) == (j > 0 && bit(a, j - 1)),
        bit(a >> 63u64, j as int) == (j == 0 && bit(a, 63)),
        !bit(0u64, j as int),
        bit(1u64, j as int) == (j == 0),
        bit(0xAAAA_AAAA_AAAA_AAAAu64, j as int) == (j % 2 == 1),
        bit(0x5555_5555_5555_5555u64, j as int) == (j % 2 == 0),
{
    assert({
        &&& (((a & b) >> j) & 1 == 1) == (((a >> j) & 1 == 1) && ((b >> j) & 1 == 1))
        &&& (((a | b) >> j) & 1 == 1) == (((a >> j) & 1 == 1) || ((b >> j) & 1 == 1))
        &&& (((a ^ b) >> j) & 1 == 1) == (((a >> j) & 1 == 1) != ((b >> j) & 1 == 1))
        &&& (((!a) >> j) & 1 == 1) == !((a >> j) & 1 == 1)
        &&& (((a << 1u64) >> j) & 1 == 1) == (j > 0 && (a >> ((j - 1) as u64)) & 1 == 1)
        &&& (((a >> 63u64) >> j) & 1 == 1) == (j == 0 && (a >> 63u64) & 1 == 1)
        &&& (0u64 >> j) & 1 == 0
        &&& ((1u64 >> j) & 1 == 1) == (j == 0)
        &&& ((0xAAAA_AAAA_AAAA_AAAAu64 >> j) & 1 == 1) == (j % 2 == 1)
        &&& ((0x5555_5555_5555_5555u64 >> j) & 1 == 1) == (j % 2 == 0)
    }) by (bit_vector)
        requires
            j < 64,
    ;
}

pub proof fn lemma_bit_zero(j: u64)
    requires
        j < 64,
    ensures
        !bit(0u64, j as int),
{
    assert((0u64 >> j) & 1 == 0) by (bit_vector);
}

pub enum CallbackResult {
    Continue,
    Finish,
}

/// The state that scanning carries from one byte to the next: whether the
/// previous byte escapes this one, whether we are inside a quoted atom, and
/// whether the previous byte belongs to an unquoted atom.
#[derive(Copy, Clone, Debug, PartialEq, Eq, Structural)]
pub struct ScanState {
    pub escape: bool,
    pub quote_state: bool,
    pub atom_like: bool,
}

pub open spec fn initial_scan_state() -> ScanState {
    ScanState { escape: false, quote_state: false, atom_like: false }
}

/// Whether a byte ends an unquoted atom: space, tab, newline, parens and
/// double quote.
pub open spec fn is_atom_terminator(ch: u8) -> bool {
    ch == 0x22u8 || ch == 0x20u8 || ch == 0x0au8 || ch == 0x09u8 || ch == 0x28u8 || ch == 0x29u8
}

/// The high-nibble patterns of the atom terminators are zero from the
/// third on, so the lookup tables for them can always be built.
proof fn lemma_terminator_patterns_few(chars: Seq<u8>, hi: Seq<u16>)
    requires
        forall|c: u8| #[trigger] chars.contains(c) == is_atom_terminator(c),
        hi_patterns_of(accept_of(chars), hi),
    ensures
        distinct_nonzero(hi).len() <= 3,
{
    assert forall|h: int| 3 <= h < 16 implies hi[h] == 0 by {
        assert forall|j: int| 0 <= j < 16 implies bit16(hi[h], j) == bit16(0u16, j) by {
            lemma_bit16_zero(j as u16);
            let c = (16 * h + j) as u8;
            assert(accept_of(chars)[16 * h + j] == chars.contains(c));
            assert(!is_atom_terminator(c));
        }
        lemma_bit16_ext(hi[h], 0u16);
    }
    lemma_distinct_nonzero_bound(hi, 3);
}

/// Tables that accept exactly the bytes that end an unquoted atom.
pub fn not_atom_like_lookup_tables() -> (r: LookupTables)
    ensures
        forall|c: u8| #[trigger] classifies(r, c) == is_atom_terminator(c),
{
    let chars: [u8; 6] = [0x20u8, 0x09u8, 0x0au8, 0x28u8, 0x29u8, 0x22u8];
    proof {
        assert forall|c: u8| #[trigger] chars@.contains(c) == is_atom_terminator(c) by {
            if is_atom_terminator(c) {
                if c == 0x20u8 {
                    assert(chars@[0] == c);
                } else if c == 0x09u8 {
                    assert(chars@[1] == c);
                } else if c == 0x0au8 {
                    assert(chars@[2] == c);
                } else if c == 0x28u8 {
                    assert(chars@[3] == c);
                } else if c == 0x29u8 {
                    assert(chars@[4] == c);
                } else {
                    assert(chars@[5] == c);
                }
            }
        }
    }
    let t = LookupTables::from_accepting_chars(&chars);
    proof {
        let (hi, lo) = choose|hi: Seq<u16>, lo: Seq<u16>|
            hi_patterns_of(accept_of(chars@), hi) && lo_patterns_of(accept_of(chars@), lo);
        lemma_terminator_patterns_few(chars@, hi);
    }
    t.unwrap()
}

/// One step of the scan: the next state, and whether the byte is
/// structural (it opens a quoted atom, starts or ends an unquoted atom, or is
/// an unquoted paren).
pub open spec fn scan_step(s: ScanState, ch: u8) -> (ScanState, bool) {
    let quote_state_change = ch == 0x22u8 && !(s.quote_state && s.escape);
    let escape = ch == 0x5cu8 && !s.escape;
    let atom_like = if is_atom_terminator(ch) {
        false
    } else {
        !s.quote_state
    };
    let paren = (ch == 0x28u8 || ch == 0x29u8) && !s.quote_state;
    let atom_like_state_change = atom_like != s.atom_like;
    let quote_state = s.quote_state != quote_state_change;
    let marked = (quote_state && quote_state_change) || (!quote_state && atom_like_state_change)
        || paren;
    (ScanState { escape, quote_state, atom_like }, marked)
}

/// The state after scanning all of `input` from `s`.
pub open spec fn scan_final(s: ScanState, input: Seq<u8>) -> ScanState
    decreases input.len(),
{
    if input.len() == 0 {
        s
    } else {
        scan_step(scan_final(s, input.drop_last()), input.last()).0
    }
}

/// Whether byte `i` of `input` is structural when scanning from `s`.
pub open spec fn is_structural(s: ScanState, input: Seq<u8>, i: int) -> bool {
    scan_step(scan_final(s, input.take(i)), input[i]).1
}

/// Law: scanning `a` then `b` ends where scanning `a + b` ends, so the scan
/// can be carried across chunks.
pub proof fn lemma_scan_final_append(s: ScanState, a: Seq<u8>, b: Seq<u8>)
    ensures
        scan_final(s, a + b) == scan_final(scan_final(s, a), b),
    decreases b.len(),
{
    if b.len() == 0 {
        assert(a + b =~= a);
    } else {
        lemma_scan_final_append(s, a, b.drop_last());
        assert((a + b).drop_last() =~= a + b.drop_last());
    }
}

/// Law: a byte of `b` is structural in `a + b` exactly when it is
/// structural in `b` scanned from where `a` left the scan; classifying in
/// chunks marks what classifying the whole input marks.
pub proof fn lemma_is_structural_append(s: ScanState, a: Seq<u8>, b: Seq<u8>, i: int)
    requires
        0 <= i < b.len(),
    ensures
        is_structural(s, a + b, a.len() + i) == is_structural(scan_final(s, a), b, i),
{
    assert((a + b).take(a.len() + i) =~= a + b.take(i));
    lemma_scan_final_append(s, a, b.take(i));
}

pub proof fn lemma_is_structural_prefix(s: ScanState, a: Seq<u8>, n: int, i: int)
    requires
        0 <= i < n <= a.len(),
    ensures
        is_structural(s, a.take(n), i) == is_structural(s, a, i),
{
    assert(a.take(n).take(i) =~= a.take(i));
}

/// A classifier that finds the structural bytes of its input, one chunk of
/// up to 64 bytes at a time, carrying its scan state across calls.
pub trait Classifier: Sized {
    spec fn scan_state(&self) -> ScanState;

    /// Classifies the next chunk of `input_buf`: its first 64 bytes, or all
    /// of it when shorter. Returns the bitmask of structural bytes (bit `i`
    /// for byte `i`) and the number of bytes consumed.
    fn structural_indices_bitmask(&mut self, input_buf: &[u8]) -> (r: (u64, usize))
        ensures
            r.1 == if input_buf@.len() < 64 {
                input_buf@.len()
            } else {
                64
            },
            final(self).scan_state() == scan_final(
                old(self).scan_state(),
                input_buf@.take(r.1 as int),
            ),
            forall|i: int|
                0 <= i < r.1 ==> (bit(r.0, i) <==> is_structural(
                    old(self).scan_state(),
                    input_buf@,
                    i,
                )),
            forall|i: int| r.1 <= i < 64 ==> !bit(r.0, i),
    ;
}

#[derive(Copy, Clone, Debug, Eq, PartialEq)]
pub struct Generic {
    escape: bool,
    quote_state: bool,
    atom_like: bool,
}

impl View for Generic {
    type V = ScanState;

    closed spec fn view(&self) -> ScanState {
        ScanState { escape: self.escape, quote_state: self.quote_state, atom_like: self.atom_like }
    }
}

impl Generic {
    pub fn new() -> (r: Self)
        ensures
            r@ == initial_scan_state(),
    {
        Self { escape: false, quote_state: false, atom_like: false }
    }

    fn structural_indices_bitmask_one(&mut self, input_buf: &[u8]) -> (r: (u64, usize))
        ensures
            r.1 == if input_buf@.len() < 64 {
                input_buf@.len()
            } else {
                64
            },
            final(self)@ == scan_final(old(self)@, input_buf@.take(r.1 as int)),
            forall|i: int|
                0 <= i < r.1 ==> (bit(r.0, i) <==> is_structural(old(self)@, input_buf@, i)),
            forall|i: int| r.1 <= i < 64 ==> !bit(r.0, i),
    {
        broadcast use lemma_bit_or_single;

        let chunk_len: usize = if input_buf.len() < 64 {
            input_buf.len()
        } else {
            64
        };
        let mut result: u64 = 0;
        let mut i: usize = 0;
        proof {
            assert forall|j: int| 0 <= j < 64 implies !bit(result, j) by {
                lemma_bit_zero(j as u64);
            }
            assert(input_buf@.take(0) =~= Seq::<u8>::empty());
        }
        while i < chunk_len
            invariant
                chunk_len <= input_buf@.len(),
                chunk_len <= 64,
                i <= chunk_len,
                self@ == scan_final(old(self)@, input_buf@.take(i as int)),
                forall|j: int|
                    0 <= j < i ==> (bit(result, j) <==> is_structural(old(self)@, input_buf@, j)),
                forall|j: int| i <= j < 64 ==> !bit(result, j),
            decreases chunk_len - i,
        {
            let ch = input_buf[i];
            let quote_state_change = ch == 0x22u8 && !(self.quote_state && self.escape);
            let escape = ch == 0x5cu8 && !self.escape;
            let atom_like = if ch == 0x22u8 || ch == 0x20u8 || ch == 0x0au8 || ch == 0x09u8 || ch
                == 0x28u8 || ch == 0x29u8 {
                false
            } else {
                !self.quote_state
            };
            let paren = if ch == 0x28u8 || ch == 0x29u8 {
                !self.quote_state
            } else {
                false
            };
            let atom_like_state_change = atom_like != self.atom_like;
            self.escape = escape;
            self.atom_like = atom_like;
            self.quote_state = self.quote_state != quote_state_change;
            let ghost prev = result;
            if (self.quote_state && quote_state_change) || (!self.quote_state
                && atom_like_state_change) || paren {
                result = result | (1u64 << (i as u64));
            }
            proof {
                assert(input_buf@.take(i + 1).drop_last() =~= input_buf@.take(i as int));
                assert forall|j: int| 0 <= j < 64 implies (bit(result, j) <==> (if j == i {
                    is_structural(old(self)@, input_buf@, j)
                } else {
                    bit(prev, j)
                })) by {
                    if bit(prev, j) != bit(result, j) {
                        lemma_bit_or_single(prev, i as u64, j as u64);
                    }
                    if j == i {
                        lemma_bit_or_single(prev, i as u64, j as u64);
                    }
                }
            }
            i += 1;
        }
        (result, chunk_len)
    }
}

impl Classifier for Generic {
    open spec fn scan_state(&self) -> ScanState {
        self@
    }

    fn structural_indices_bitmask(&mut self, input_buf: &[u8]) -> (r: (u64, usize)) {
        self.structural_indices_bitmask_one(input_buf)
    }
}


/// Work to do with a structural classifier, whichever kind this machine
/// gets; the classifier handed over has not classified anything yet.
pub trait MakeClassifierCps: Sized {
    type Return;

    /// Whether `r` is a result that this work gives when it is handed a
    /// classifier that has not classified anything yet.
    spec fn gives(self, r: Self::Return) -> bool;

    fn f<ClassifierT: Classifier>(self, classifier: ClassifierT) -> (r: Self::Return)
        requires
            classifier.scan_state() == initial_scan_state(),
        ensures
            self.gives(r),
    ;
}

/// Hands `cps` a fresh classifier for this machine, and returns what `cps`
/// makes of it.
pub fn make_classifier_cps<Cps: MakeClassifierCps>(cps: Cps) -> (r: Cps::Return)
    ensures
        cps.gives(r),
{
    cps.f(Generic::new())
}


/// Law: white space ends an unquoted atom. Outside a quoted atom, after a
/// space, a tab or a newline the scan is not inside an atom, and the next
/// byte that is not a terminator (space, tab, newline, paren or double
/// quote) starts a new atom: it is structural.
pub proof fn lemma_whitespace_ends_atoms(s: ScanState, w: u8, c: u8)
    requires
        !s.quote_state,
        w == 0x20u8 || w == 0x09u8 || w == 0x0au8,
        c != 0x20u8 && c != 0x09u8 && c != 0x0au8 && c != 0x28u8 && c != 0x29u8 && c != 0x22u8,
    ensures
        !scan_step(s, w).0.atom_like,
        !scan_step(s, w).0.quote_state,
        !scan_step(s, w).1 || s.atom_like,
        scan_step(scan_step(s, w).0, c).1,
        scan_step(scan_step(s, w).0, c).0.atom_like,
{
}

/// Law: an unquoted atom holds no terminator. Outside a quoted atom, a
/// byte is part of an atom exactly when it is not a space, a tab, a
/// newline, a paren or a double quote.
pub proof fn lemma_atom_like_bytes(s: ScanState, c: u8)
    requires
        !s.quote_state,
    ensures
        scan_step(s, c).0.atom_like == !(c == 0x20u8 || c == 0x09u8 || c == 0x0au8 || c == 0x28u8
            || c == 0x29u8 || c == 0x22u8),
{
}

} // verus!
