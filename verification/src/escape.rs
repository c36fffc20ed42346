use vstd::prelude::*;
use crate::structural::{is_atom_terminator, not_atom_like_lookup_tables};
use crate::vector_classifier::{Classifier, ClassifierBuilder, GenericBuilder, classifies};

verus! {

/// Whether a byte cannot stand as it is inside an unquoted atom: it ends
/// one, it is a backslash, or it is a control or non-ASCII byte.
pub open spec fn needs_escape(ch: u8) -> bool {
    is_atom_terminator(ch) || ch == 0x5cu8 || ch < 0x20u8 || ch >= 0x80u8
}

/// Whether `input` has to be quoted and escaped to be written as an atom.
pub fn escape_is_necessary(input: &[u8]) -> (r: bool)
    ensures
        r == exists|i: int| 0 <= i < input@.len() && #[trigger] needs_escape(input@[i]),
{
    let tables = not_atom_like_lookup_tables();
    let vector_classifier = GenericBuilder::new().build(&tables);
    let mut i: usize = 0;
    while i < input.len()
        invariant
            i <= input@.len(),
            vector_classifier.lookup_tables() == tables,
            forall|c: u8| #[trigger] classifies(tables, c) == is_atom_terminator(c),
            forall|j: int| 0 <= j < i ==> !needs_escape(#[trigger] input@[j]),
        decreases input@.len() - i,
    {
        let ch = input[i];
        let mut ch_copy: [u8; 1] = [ch];
        vector_classifier.classify(&mut ch_copy);
        proof {
            assert(classifies(tables, ch) == is_atom_terminator(ch));
        }
        if ch_copy[0] != 0 || ch == 0x5cu8 || ch < 0x20u8 || ch >= 0x80u8 {
            assert(needs_escape(input@[i as int]));
            return true;
        }
        i += 1;
    }
    false
}

/// Value of an ASCII hexadecimal digit (either case).
pub open spec fn hex_digit_value(c: u8) -> Option<u8> {
    if 0x30 <= c <= 0x39 {
        Some((c - 0x30) as u8)
    } else if 0x61 <= c <= 0x66 {
        Some((c - 0x61 + 10) as u8)
    } else if 0x41 <= c <= 0x46 {
        Some((c - 0x41 + 10) as u8)
    } else {
        None
    }
}

/// Value of an ASCII decimal digit.
pub open spec fn dec_digit_value(c: u8) -> Option<u8> {
    if 0x30 <= c <= 0x39 {
        Some((c - 0x30) as u8)
    } else {
        None
    }
}

/// Puts `c` in front of the bytes of an unescaping result.
pub open spec fn prepend_byte(c: u8, r: Option<(int, Seq<u8>)>) -> Option<(int, Seq<u8>)> {
    match r {
        Some((q, out)) => Some((q, seq![c] + out)),
        None => None,
    }
}

/// Puts `pre` in front of the bytes of an unescaping result.
pub open spec fn prepend_bytes(pre: Seq<u8>, r: Option<(int, Seq<u8>)>) -> Option<(int, Seq<u8>)> {
    match r {
        Some((q, out)) => Some((q, pre + out)),
        None => None,
    }
}

/// The unescaped contents of a quoted atom whose body starts at `input[i]`.
/// `Some((q, out))`: `q` is the index of the closing (unescaped) double
/// quote and `out` the unescaped bytes before it; `None`: the body is
/// malformed or is not terminated.
pub open spec fn unescape_from(input: Seq<u8>, i: int) -> Option<(int, Seq<u8>)>
    decreases input.len() - i,
{
    if i < 0 || i >= input.len() {
        None
    } else if input[i] == 0x22u8 {
        Some((i, seq![]))
    } else if input[i] == 0x5cu8 {
        if i + 1 >= input.len() {
            None
        } else {
            let c = input[i + 1];
            if c == 0x22u8 || c == 0x27u8 || c == 0x5cu8 {
                prepend_byte(c, unescape_from(input, i + 2))
            } else if c == 0x62u8 {
                prepend_byte(0x07u8, unescape_from(input, i + 2))
            } else if c == 0x6eu8 {
                prepend_byte(0x0au8, unescape_from(input, i + 2))
            } else if c == 0x72u8 {
                prepend_byte(0x0du8, unescape_from(input, i + 2))
            } else if c == 0x74u8 {
                prepend_byte(0x09u8, unescape_from(input, i + 2))
            } else if c == 0x78u8 {
                if i + 4 > input.len() {
                    None
                } else {
                    match (hex_digit_value(input[i + 2]), hex_digit_value(input[i + 3])) {
                        (Some(d1), Some(d2)) => prepend_byte(
                            (d1 * 16 + d2) as u8,
                            unescape_from(input, i + 4),
                        ),
                        _ => None,
                    }
                }
            } else if 0x30 <= c <= 0x39 {
                if i + 4 > input.len() {
                    None
                } else {
                    match (
                        dec_digit_value(input[i + 1]),
                        dec_digit_value(input[i + 2]),
                        dec_digit_value(input[i + 3]),
                    ) {
                        (Some(d1), Some(d2), Some(d3)) => if d1 * 100 + d2 * 10 + d3 <= 255 {
                            prepend_byte(
                                (d1 * 100 + d2 * 10 + d3) as u8,
                                unescape_from(input, i + 4),
                            )
                        } else {
                            None
                        },
                        _ => None,
                    }
                }
            } else {
                prepend_byte(0x5cu8, unescape_from(input, i + 1))
            }
        }
    } else {
        prepend_byte(input[i], unescape_from(input, i + 1))
    }
}

/// The unescaped contents of a quoted atom body (after the opening quote).
pub open spec fn spec_unescape(input: Seq<u8>) -> Option<(int, Seq<u8>)> {
    unescape_from(input, 0)
}

proof fn lemma_prepend_bytes_push(pre: Seq<u8>, c: u8, r: Option<(int, Seq<u8>)>)
    ensures
        prepend_bytes(pre, prepend_byte(c, r)) == prepend_bytes(pre.push(c), r),
{
    match r {
        Some((q, out)) => {
            assert(pre + (seq![c] + out) =~= pre.push(c) + out);
        },
        None => {},
    }
}

proof fn lemma_no_terminator(input: Seq<u8>, i: int)
    requires
        0 <= i,
        forall|j: int| i <= j < input.len() ==> input[j] != 0x22u8 && input[j] != 0x5cu8,
    ensures
        unescape_from(input, i) is None,
    decreases input.len() - i,
{
    if i < input.len() {
        lemma_no_terminator(input, i + 1);
    }
}

/// The decimal digit character of `i` (which is below 10).
pub open spec fn dec_char(i: u8) -> u8 {
    (i + 0x30) as u8
}

/// How one byte is written inside a quoted atom.
pub open spec fn escape_byte(c: u8) -> Seq<u8> {
    if c == 0x22u8 {
        seq![0x5cu8, 0x22u8]
    } else if c == 0x5cu8 {
        seq![0x5cu8, 0x5cu8]
    } else if c == 0x07u8 {
        seq![0x5cu8, 0x62u8]
    } else if c == 0x0au8 {
        seq![0x5cu8, 0x6eu8]
    } else if c == 0x0du8 {
        seq![0x5cu8, 0x72u8]
    } else if c == 0x09u8 {
        seq![0x5cu8, 0x74u8]
    } else if c <= 0x1f || c >= 0x80 {
        seq![0x5cu8, dec_char(c / 100), dec_char((c / 10) % 10), dec_char(c % 10)]
    } else {
        seq![c]
    }
}

/// The escaped form of `s`: each byte escaped in turn.
pub open spec fn spec_escape(s: Seq<u8>) -> Seq<u8>
    decreases s.len(),
{
    if s.len() == 0 {
        seq![]
    } else {
        spec_escape(s.drop_last()) + escape_byte(s.last())
    }
}

proof fn lemma_escape_append(a: Seq<u8>, b: Seq<u8>)
    ensures
        spec_escape(a + b) == spec_escape(a) + spec_escape(b),
    decreases b.len(),
{
    if b.len() == 0 {
        assert(a + b =~= a);
        assert(spec_escape(a) + spec_escape(b) =~= spec_escape(a));
    } else {
        lemma_escape_append(a, b.drop_last());
        assert((a + b).drop_last() =~= a + b.drop_last());
        assert((a + b).last() == b.last());
        assert(spec_escape(a) + spec_escape(b.drop_last()) + escape_byte(b.last()) =~= spec_escape(a)
            + (spec_escape(b.drop_last()) + escape_byte(b.last())));
    }
}

proof fn lemma_escape_first(s: Seq<u8>)
    requires
        s.len() > 0,
    ensures
        spec_escape(s) == escape_byte(s[0]) + spec_escape(s.drop_first()),
{
    assert(s =~= seq![s[0]] + s.drop_first());
    lemma_escape_append(seq![s[0]], s.drop_first());
    assert(seq![s[0]].drop_last() =~= Seq::<u8>::empty());
    assert(spec_escape(seq![s[0]].drop_last()) == Seq::<u8>::empty());
    assert(Seq::<u8>::empty() + escape_byte(s[0]) =~= escape_byte(s[0]));
    assert(spec_escape(seq![s[0]]) =~= escape_byte(s[0]));
}

/// Moves the index of a closing quote by `d`.
pub open spec fn shift_quote(r: Option<(int, Seq<u8>)>, d: int) -> Option<(int, Seq<u8>)> {
    match r {
        Some((q, out)) => Some((q + d, out)),
        None => None,
    }
}

pub proof fn lemma_unescape_shift(p: Seq<u8>, y: Seq<u8>, j: int)
    requires
        0 <= j,
    ensures
        unescape_from(p + y, p.len() + j) == shift_quote(unescape_from(y, j), p.len() as int),
    decreases y.len() - j,
{
    let w = p + y;
    let i = p.len() + j;
    if j < y.len() {
        assert(w[i] == y[j]);
        if j + 1 < y.len() {
            assert(w[i + 1] == y[j + 1]);
        }
        if j + 2 < y.len() {
            assert(w[i + 2] == y[j + 2]);
        }
        if j + 3 < y.len() {
            assert(w[i + 3] == y[j + 3]);
        }
        lemma_unescape_shift(p, y, j + 1);
        if j + 2 <= y.len() {
            lemma_unescape_shift(p, y, j + 2);
        }
        if j + 4 <= y.len() {
            lemma_unescape_shift(p, y, j + 4);
        }
    }
}


proof fn lemma_unescape_escape_byte(c: u8, t: Seq<u8>)
    ensures
        unescape_from(escape_byte(c) + t, 0) == prepend_byte(
            c,
            unescape_from(escape_byte(c) + t, escape_byte(c).len() as int),
        ),
{
    let w = escape_byte(c) + t;
    if c <= 0x1f || c >= 0x80 {
        if c != 0x07u8 && c != 0x0au8 && c != 0x0du8 && c != 0x09u8 {
            assert(w[1] == dec_char(c / 100));
            assert(w[2] == dec_char((c / 10) % 10));
            assert(w[3] == dec_char(c % 10));
            assert(dec_digit_value(w[1]) == Some(c / 100));
            assert(dec_digit_value(w[2]) == Some((c / 10) % 10));
            assert(dec_digit_value(w[3]) == Some(c % 10));
            assert((c / 100) * 100 + ((c / 10) % 10) * 10 + c % 10 == c) by (nonlinear_arith);
        }
    }
}

/// Law: unescaping the escaped form of `s`, closed by a double quote,
/// gives back `s`, and stops at that quote.
pub proof fn lemma_unescape_escape(s: Seq<u8>)
    ensures
        spec_unescape(spec_escape(s) + seq![0x22u8]) == Some((spec_escape(s).len() as int, s)),
{
    lemma_unescape_escape_general(s, seq![0x22u8]);
    assert(unescape_from(seq![0x22u8], 0) == Some((0int, Seq::<u8>::empty())));
    assert(s + Seq::<u8>::empty() =~= s);
}

proof fn lemma_unescape_escape_general(s: Seq<u8>, t: Seq<u8>)
    ensures
        unescape_from(spec_escape(s) + t, 0) == shift_quote(
            prepend_bytes(s, unescape_from(t, 0)),
            spec_escape(s).len() as int,
        ),
    decreases s.len(),
{
    if s.len() == 0 {
        assert(spec_escape(s) + t =~= t);
        match unescape_from(t, 0) {
            Some((q, out)) => {
                assert(s + out =~= out);
            },
            None => {},
        }
    } else {
        let c = s[0];
        let rest = s.drop_first();
        lemma_escape_first(s);
        let e = escape_byte(c);
        let w = spec_escape(s) + t;
        assert(w =~= e + (spec_escape(rest) + t));
        lemma_unescape_escape_byte(c, spec_escape(rest) + t);
        lemma_unescape_shift(e, spec_escape(rest) + t, 0);
        lemma_unescape_escape_general(rest, t);
        match unescape_from(t, 0) {
            Some((q, out)) => {
                assert(seq![c] + (rest + out) =~= s + out);
            },
            None => {},
        }
    }
}

/// Law: escaping leaves unchanged an atom that needs no escaping.
pub proof fn lemma_escape_unneeded(s: Seq<u8>)
    requires
        forall|i: int| 0 <= i < s.len() ==> !#[trigger] needs_escape(s[i]),
    ensures
        spec_escape(s) == s,
    decreases s.len(),
{
    if s.len() > 0 {
        assert forall|i: int| 0 <= i < s.drop_last().len() implies !#[trigger] needs_escape(s.drop_last()[i]) by {
            assert(s.drop_last()[i] == s[i]);
        }
        lemma_escape_unneeded(s.drop_last());
        assert(!needs_escape(s[s.len() - 1]));
        assert(s.drop_last() + seq![s.last()] =~= s);
    }
}

/// Escapes `input` for use inside a quoted atom.
pub fn escape(input: &[u8]) -> (output: Vec<u8>)
    ensures
        output@ == spec_escape(input@),
{
    let mut output: Vec<u8> = Vec::new();
    let mut i: usize = 0;
    while i < input.len()
        invariant
            i <= input@.len(),
            output@ == spec_escape(input@.take(i as int)),
        decreases input@.len() - i,
    {
        let ch = input[i];
        let ghost before = output@;
        if ch == 0x22u8 {
            output.push(0x5cu8);
            output.push(0x22u8);
        } else if ch == 0x5cu8 {
            output.push(0x5cu8);
            output.push(0x5cu8);
        } else if ch == 0x07u8 {
            output.push(0x5cu8);
            output.push(0x62u8);
        } else if ch == 0x0au8 {
            output.push(0x5cu8);
            output.push(0x6eu8);
        } else if ch == 0x0du8 {
            output.push(0x5cu8);
            output.push(0x72u8);
        } else if ch == 0x09u8 {
            output.push(0x5cu8);
            output.push(0x74u8);
        } else if ch <= 0x1f || ch >= 0x80 {
            output.push(0x5cu8);
            output.push(ch / 100 + 0x30);
            output.push((ch / 10) % 10 + 0x30);
            output.push(ch % 10 + 0x30);
        } else {
            output.push(ch);
        }
        proof {
            assert(input@.take(i + 1).drop_last() =~= input@.take(i as int));
            assert(output@ =~= before + escape_byte(ch));
        }
        i += 1;
    }
    assert(input@.take(input@.len() as int) =~= input@);
    output
}

/// An unescaped atom ends at a closing quote of the input, and is no longer
/// than the bytes before that quote.
pub proof fn lemma_unescape_bounds(input: Seq<u8>, i: int)
    ensures
        unescape_from(input, i) matches Some((q, out)) ==> 0 <= i <= q < input.len() && out.len()
            <= q - i,
    decreases input.len() - i,
{
    if 0 <= i < input.len() {
        lemma_unescape_bounds(input, i + 1);
        if i + 2 <= input.len() {
            lemma_unescape_bounds(input, i + 2);
        }
        if i + 4 <= input.len() {
            lemma_unescape_bounds(input, i + 4);
        }
    }
}

/// Wrapper of `memchr::memchr2`: the index of the first byte of `haystack`
/// equal to `needle1` or `needle2`, or `None` when there is none (as the
/// crate's documentation states).
#[verifier::external_body]
fn memchr2(needle1: u8, needle2: u8, haystack: &[u8]) -> (r: Option<usize>)
    ensures
        match r {
            Some(i) => i < haystack@.len() && (haystack@[i as int] == needle1
                || haystack@[i as int] == needle2) && forall|j: int|
                0 <= j < i ==> haystack@[j] != needle1 && haystack@[j] != needle2,
            None => forall|j: int|
                0 <= j < haystack@.len() ==> haystack@[j] != needle1 && haystack@[j] != needle2,
        },
{
    memchr::memchr2(needle1, needle2, haystack)
}

fn hex_digit_of_char(ch: u8) -> (r: Option<u8>)
    ensures
        r == hex_digit_value(ch),
{
    if 0x30 <= ch && ch <= 0x39 {
        Some(ch - 0x30)
    } else if 0x61 <= ch && ch <= 0x66 {
        Some(ch - 0x61 + 10)
    } else if 0x41 <= ch && ch <= 0x46 {
        Some(ch - 0x41 + 10)
    } else {
        None
    }
}

fn dec_digit_of_char(ch: u8) -> (r: Option<u8>)
    ensures
        r == dec_digit_value(ch),
{
    if 0x30 <= ch && ch <= 0x39 {
        Some(ch - 0x30)
    } else {
        None
    }
}

pub trait Unescape {
    /// Consumes all the way up to the next unescaped double quote.
    /// Returns the index of that quote and the number of bytes written.
    fn unescape(&self, input: &[u8], output: &mut [u8]) -> (r: Option<(usize, usize)>)
        requires
            old(output)@.len() >= input@.len(),
        ensures
            final(output)@.len() == old(output)@.len(),
            match spec_unescape(input@) {
                Some((q, out)) => r == Some((q as usize, out.len() as usize))
                    && final(output)@.take(out.len() as int) == out && out.len() <= q < input@.len(),
                None => r is None,
            },
    ;
}

#[derive(Copy, Clone, Debug)]
pub struct GenericUnescape {}

impl GenericUnescape {
    pub fn new() -> Self {
        Self {  }
    }
}

impl Unescape for GenericUnescape {
    fn unescape(&self, input: &[u8], output: &mut [u8]) -> (r: Option<(usize, usize)>) {
        proof {
            lemma_unescape_bounds(input@, 0);
        }
        let mut input_index: usize = 0;
        let mut output_index: usize = 0;
        loop
            invariant
                output@.len() == old(output)@.len(),
                output@.len() >= input@.len(),
                output_index <= input_index <= input@.len(),
                spec_unescape(input@) == prepend_bytes(
                    output@.take(output_index as int),
                    unescape_from(input@, input_index as int),
                ),
            decreases input@.len() - input_index,
        {
            let rest = &input[input_index..input.len()];
            let found = memchr2(0x22u8, 0x5cu8, rest);
            let copy_len = match found {
                None => {
                    proof {
                        assert forall|j: int| input_index <= j < input@.len() implies input@[j]
                            != 0x22u8 && input@[j] != 0x5cu8 by {
                            assert(rest@[j - input_index] == input@[j]);
                        }
                        lemma_no_terminator(input@, input_index as int);
                    }
                    return None;
                },
                Some(n) => n,
            };
            let run_end = input_index + copy_len;
            assert(rest@[copy_len as int] == input@[run_end as int]);
            assert forall|j: int| input_index <= j < run_end implies input@[j] != 0x22u8
                && input@[j] != 0x5cu8 by {
                assert(rest@[j - input_index] == input@[j]);
            }
            while input_index < run_end
                invariant
                    output@.len() == old(output)@.len(),
                    output@.len() >= input@.len(),
                    output_index <= input_index <= run_end < input@.len(),
                    forall|j: int| input_index <= j < run_end ==> input@[j] != 0x22u8 && input@[j] != 0x5cu8,
                    spec_unescape(input@) == prepend_bytes(
                        output@.take(output_index as int),
                        unescape_from(input@, input_index as int),
                    ),
                decreases run_end - input_index,
            {
                let ch = input[input_index];
                proof {
                    lemma_prepend_bytes_push(
                        output@.take(output_index as int),
                        ch,
                        unescape_from(input@, input_index + 1),
                    );
                }
                let ghost before = output@;
                output[output_index] = ch;
                proof {
                    assert(output@.take(output_index + 1) =~= before.take(output_index as int).push(ch));
                }
                input_index += 1;
                output_index += 1;
            }
            let ghost pre = output@.take(output_index as int);
            if input[input_index] == 0x22u8 {
                return Some((input_index, output_index));
            }
            // a backslash
            input_index = input_index + 1;
            if input_index >= input.len() {
                return None;
            }
            let c = input[input_index];
            let decoded: u8;
            if c == 0x22u8 || c == 0x27u8 || c == 0x5cu8 {
                decoded = c;
                input_index += 1;
            } else if c == 0x62u8 {
                decoded = 0x07u8;
                input_index += 1;
            } else if c == 0x6eu8 {
                decoded = 0x0au8;
                input_index += 1;
            } else if c == 0x72u8 {
                decoded = 0x0du8;
                input_index += 1;
            } else if c == 0x74u8 {
                decoded = 0x09u8;
                input_index += 1;
            } else if c == 0x78u8 {
                if input.len() - input_index < 3 {
                    return None;
                }
                match (hex_digit_of_char(input[input_index + 1]), hex_digit_of_char(input[input_index + 2])) {
                    (Some(d1), Some(d2)) => {
                        decoded = d1 * 16 + d2;
                    },
                    _ => {
                        return None;
                    },
                }
                input_index += 3;
            } else if 0x30 <= c && c <= 0x39 {
                if input.len() - input_index < 3 {
                    return None;
                }
                match (
                    dec_digit_of_char(input[input_index]),
                    dec_digit_of_char(input[input_index + 1]),
                    dec_digit_of_char(input[input_index + 2]),
                ) {
                    (Some(d1), Some(d2), Some(d3)) => {
                        let v: usize = d1 as usize * 100 + d2 as usize * 10 + d3 as usize;
                        if v > 255 {
                            return None;
                        }
                        decoded = v as u8;
                    },
                    _ => {
                        return None;
                    },
                }
                input_index += 3;
            } else {
                decoded = 0x5cu8;
            }
            proof {
                lemma_prepend_bytes_push(pre, decoded, unescape_from(input@, input_index as int));
            }
            let ghost before = output@;
            output[output_index] = decoded;
            proof {
                assert(output@.take(output_index + 1) =~= before.take(output_index as int).push(decoded));
            }
            output_index += 1;
        }
    }
}


/// Law: the escapes of a double quote, a single quote and a backslash stand
/// for that byte alone. Wherever a backslash is followed by one of these
/// three bytes, the backslash is consumed and only the byte after it is
/// written, and unescaping goes on two bytes further.
pub proof fn lemma_quote_escapes(s: Seq<u8>, i: int)
    requires
        0 <= i,
        i + 1 < s.len(),
        s[i] == 0x5cu8,
        s[i + 1] == 0x22u8 || s[i + 1] == 0x27u8 || s[i + 1] == 0x5cu8,
    ensures
        unescape_from(s, i) == match unescape_from(s, i + 2) {
            Some((q, out)) => Some((q, seq![s[i + 1]] + out)),
            None => None::<(int, Seq<u8>)>,
        },
{
}

/// Law: a single quote needs no escape of its own, and its escape gives
/// it back: unescaping a backslash and a single quote, then the closing
/// double quote, gives the single quote.
pub proof fn lemma_single_quote_escape(t: Seq<u8>)
    ensures
        spec_unescape(seq![0x5cu8, 0x27u8] + t) == match unescape_from(seq![0x5cu8, 0x27u8] + t, 2) {
            Some((q, out)) => Some((q, seq![0x27u8] + out)),
            None => None::<(int, Seq<u8>)>,
        },
        spec_unescape(seq![0x5cu8, 0x27u8, 0x22u8]) == Some((2int, seq![0x27u8])),
{
    lemma_quote_escapes(seq![0x5cu8, 0x27u8] + t, 0);
    let s = seq![0x5cu8, 0x27u8, 0x22u8];
    lemma_quote_escapes(s, 0);
    assert(unescape_from(s, 2) == Some((2int, Seq::<u8>::empty())));
    assert(seq![0x27u8] + Seq::<u8>::empty() =~= seq![0x27u8]);
}

} // verus!
