use vstd::prelude::*;
use crate::structural::{ScanState, scan_final, scan_step, is_structural};
use crate::escape::{unescape_from, prepend_byte, hex_digit_value, dec_digit_value, spec_unescape, lemma_unescape_shift};
use crate::parser::{
    Error, Stage2, VisitorState, WritingStage2Adapter, first_pending, fold_pairs, fold_window, spec_parse_all, stream_eof,
    stream_feed, structural_positions, lemma_positions_bounds, lemma_positions_prefix,
    lemma_positions_split, lemma_positions_take,
};
use crate::visitor::Visitor;
use crate::print;
use crate::select::{self, Output, atom_key, next_state, step_top, window_bytes};

verus! {

/// The scan state just before byte `j` of `t`.
pub open spec fn state_at(s0: ScanState, t: Seq<u8>, j: int) -> ScanState {
    scan_final(s0, t.take(j))
}

/// Inside a quoted atom the scan is never inside an unquoted one.
pub open spec fn scan_consistent(s: ScanState) -> bool {
    s.quote_state ==> !s.atom_like
}

proof fn lemma_state_step(s0: ScanState, t: Seq<u8>, j: int)
    requires
        0 <= j < t.len(),
    ensures
        state_at(s0, t, j + 1) == scan_step(state_at(s0, t, j), t[j]).0,
        is_structural(s0, t, j) == scan_step(state_at(s0, t, j), t[j]).1,
{
    assert(t.take(j + 1).drop_last() =~= t.take(j));
    assert(t.take(j + 1).last() == t[j]);
}

proof fn lemma_consistent(s0: ScanState, t: Seq<u8>, j: int)
    requires
        0 <= j <= t.len(),
        scan_consistent(s0),
    ensures
        scan_consistent(state_at(s0, t, j)),
    decreases j,
{
    if j == 0 {
        assert(t.take(0) =~= Seq::<u8>::empty());
    } else {
        lemma_consistent(s0, t, j - 1);
        lemma_state_step(s0, t, j - 1);
    }
}

/// Before a structural byte the scan is outside any quoted atom.
proof fn lemma_structural_outside_quotes(s0: ScanState, t: Seq<u8>, b: int)
    requires
        0 <= b < t.len(),
        scan_consistent(s0),
        is_structural(s0, t, b),
    ensures
        !state_at(s0, t, b).quote_state,
{
    lemma_consistent(s0, t, b);
    lemma_state_step(s0, t, b);
}

/// A structural double quote opens a quoted atom.
proof fn lemma_structural_quote_opens(s0: ScanState, t: Seq<u8>, a: int)
    requires
        0 <= a < t.len(),
        scan_consistent(s0),
        is_structural(s0, t, a),
        t[a] == 0x22u8,
    ensures
        state_at(s0, t, a + 1).quote_state,
        !state_at(s0, t, a + 1).escape,
{
    lemma_structural_outside_quotes(s0, t, a);
    lemma_state_step(s0, t, a);
}


/// What an unescaping result holds, leaving out where its closing quote is.
pub open spec fn unescaped_bytes(r: Option<(int, Seq<u8>)>) -> Option<Seq<u8>> {
    match r {
        Some((_, out)) => Some(out),
        None => None,
    }
}

proof fn lemma_prepend_same(c: u8, r1: Option<(int, Seq<u8>)>, r2: Option<(int, Seq<u8>)>)
    requires
        unescaped_bytes(r1) == unescaped_bytes(r2),
    ensures
        unescaped_bytes(prepend_byte(c, r1)) == unescaped_bytes(prepend_byte(c, r2)),
{
}

/// Unescaping the body of a quoted atom reads nothing past its closing
/// quote: from a position inside the atom (the scan in the quotes, and not
/// escaping a quote or a backslash), a window of the input that reaches past
/// the next byte outside the quotes (`b`) gives the same bytes.
proof fn lemma_unescape_window(s0: ScanState, t: Seq<u8>, b: int, start: int, len: int, i: int)
    requires
        scan_consistent(s0),
        0 <= start < i <= b < len <= t.len(),
        !state_at(s0, t, b).quote_state,
        state_at(s0, t, i).quote_state,
        state_at(s0, t, i).escape ==> t[i] != 0x22u8 && t[i] != 0x5cu8,
    ensures
        unescaped_bytes(unescape_from(t.subrange(start, len), i - start)) == unescaped_bytes(
            unescape_from(t, i),
        ),
    decreases b - i,
{
    let w = t.subrange(start, len);
    let k = i - start;
    assert(i < b);
    lemma_state_step(s0, t, i);
    let c = t[i];
    assert(w[k] == c);
    if c == 0x22u8 {
    } else if c == 0x5cu8 {
        assert(state_at(s0, t, i + 1).quote_state && state_at(s0, t, i + 1).escape);
        assert(i + 1 < b);
        lemma_state_step(s0, t, i + 1);
        let c2 = t[i + 1];
        assert(w[k + 1] == c2);
        if c2 == 0x22u8 || c2 == 0x27u8 || c2 == 0x5cu8 || c2 == 0x62u8 || c2 == 0x6eu8 || c2 == 0x72u8
            || c2 == 0x74u8 {
            assert(state_at(s0, t, i + 2).quote_state && !state_at(s0, t, i + 2).escape);
            lemma_unescape_window(s0, t, b, start, len, i + 2);
            lemma_prepend_same(c2, unescape_from(w, k + 2), unescape_from(t, i + 2));
            lemma_prepend_same(0x07u8, unescape_from(w, k + 2), unescape_from(t, i + 2));
            lemma_prepend_same(0x0au8, unescape_from(w, k + 2), unescape_from(t, i + 2));
            lemma_prepend_same(0x0du8, unescape_from(w, k + 2), unescape_from(t, i + 2));
            lemma_prepend_same(0x09u8, unescape_from(w, k + 2), unescape_from(t, i + 2));
        } else if c2 == 0x78u8 || (0x30 <= c2 <= 0x39) {
            assert(state_at(s0, t, i + 2).quote_state && !state_at(s0, t, i + 2).escape);
            assert(i + 2 < b);
            lemma_state_step(s0, t, i + 2);
            assert(i + 3 <= b);
            assert(w[k + 2] == t[i + 2]);
            assert(w[k + 3] == t[i + 3]);
            if t[i + 2] != 0x22u8 && t[i + 2] != 0x5cu8 {
                assert(state_at(s0, t, i + 3).quote_state && !state_at(s0, t, i + 3).escape);
                assert(i + 3 < b);
                lemma_state_step(s0, t, i + 3);
                if t[i + 3] != 0x22u8 && t[i + 3] != 0x5cu8 {
                    assert(state_at(s0, t, i + 4).quote_state && !state_at(s0, t, i + 4).escape);
                    lemma_unescape_window(s0, t, b, start, len, i + 4);
                    let d = unescape_from(w, k + 4);
                    let e = unescape_from(t, i + 4);
                    if c2 == 0x78u8 {
                        match (hex_digit_value(t[i + 2]), hex_digit_value(t[i + 3])) {
                            (Some(d1), Some(d2)) => {
                                lemma_prepend_same((d1 * 16 + d2) as u8, d, e);
                            },
                            _ => {},
                        }
                    } else {
                        match (dec_digit_value(c2), dec_digit_value(t[i + 2]), dec_digit_value(t[i + 3])) {
                            (Some(d1), Some(d2), Some(d3)) => {
                                lemma_prepend_same((d1 * 100 + d2 * 10 + d3) as u8, d, e);
                            },
                            _ => {},
                        }
                    }
                } else {
                    assert(hex_digit_value(t[i + 3]) is None);
                    assert(dec_digit_value(t[i + 3]) is None);
                }
            } else {
                assert(hex_digit_value(t[i + 2]) is None);
                assert(dec_digit_value(t[i + 2]) is None);
            }
        } else {
            lemma_unescape_window(s0, t, b, start, len, i + 1);
            lemma_prepend_same(0x5cu8, unescape_from(w, k + 1), unescape_from(t, i + 1));
        }
    } else {
        assert(state_at(s0, t, i + 1).quote_state);
        lemma_unescape_window(s0, t, b, start, len, i + 1);
        lemma_prepend_same(c, unescape_from(w, k + 1), unescape_from(t, i + 1));
    }
}


/// Unescaping from position `j` of `x` gives the bytes that unescaping the
/// rest of `x` from its start gives.
proof fn lemma_unescape_rest(x: Seq<u8>, j: int)
    requires
        0 <= j <= x.len(),
    ensures
        unescaped_bytes(spec_unescape(x.skip(j))) == unescaped_bytes(unescape_from(x, j)),
{
    assert(x =~= x.take(j) + x.skip(j));
    lemma_unescape_shift(x.take(j), x.skip(j), 0);
}

/// A pair of consecutive structural indices handed to a visiting stage in
/// a window of the input (which starts at or before the first index and
/// reaches past the second) has the effect it has in the whole input.
pub proof fn lemma_visitor_pair_window<V: Visitor>(
    m: (V::Model, Seq<V::Context>),
    s0: ScanState,
    t: Seq<u8>,
    a: int,
    b: int,
    start: int,
    len: int,
)
    requires
        scan_consistent(s0),
        0 <= start <= a < b < len <= t.len(),
        is_structural(s0, t, a),
        is_structural(s0, t, b),
    ensures
        VisitorState::<V>::spec_process_one(m, t.subrange(start, len), start, a, b, false)
            == VisitorState::<V>::spec_process_one(m, t, 0, a, b, false),
        VisitorState::<V>::spec_process_one_ok(m, t.subrange(start, len), start, a, b, false)
            == VisitorState::<V>::spec_process_one_ok(m, t, 0, a, b, false),
{
    let w = t.subrange(start, len);
    assert(w[a - start] == t[a]);
    assert(w.subrange(a - start, b - start) =~= t.subrange(a, b));
    if t[a] == 0x22u8 {
        lemma_structural_quote_opens(s0, t, a);
        lemma_structural_outside_quotes(s0, t, b);
        lemma_unescape_window(s0, t, b, start, len, a + 1);
        lemma_unescape_rest(w, a + 1 - start);
        lemma_unescape_rest(t, a + 1);
    }
}

/// The last structural index, handed over with the end of input in a window
/// that starts at or before it, has the effect it has in the whole input.
pub proof fn lemma_visitor_eof_window<V: Visitor>(
    m: (V::Model, Seq<V::Context>),
    t: Seq<u8>,
    a: int,
    start: int,
)
    requires
        0 <= start <= a < t.len(),
    ensures
        VisitorState::<V>::spec_process_one(m, t.skip(start), start, a, t.len() as int, true)
            == VisitorState::<V>::spec_process_one(m, t, 0, a, t.len() as int, true),
        VisitorState::<V>::spec_process_one_ok(m, t.skip(start), start, a, t.len() as int, true)
            == VisitorState::<V>::spec_process_one_ok(m, t, 0, a, t.len() as int, true),
{
    let w = t.skip(start);
    assert(w[a - start] == t[a]);
    assert(w.subrange(a - start, t.len() - start) =~= t.subrange(a, t.len() as int));
    assert(w.skip(a + 1 - start) =~= t.skip(a + 1));
    assert(t.skip(0) =~= t);
}


/// The model a result holds, leaving out the index it asks to keep.
pub open spec fn model_of<M>(r: Result<(M, int), Error>) -> Result<M, Error> {
    match r {
        Ok((m, _)) => Ok(m),
        Err(e) => Err(e),
    }
}

/// Whether stage `S` does with the structural indices of an input, handed
/// over in a window of it, what it does with them in the whole input, as
/// long as its model holds `inv` (which says, of a model, a window start and
/// the last index handed over, that the model needs nothing before the
/// window): a pair of consecutive structural indices in a window that starts
/// at or before the first and reaches past the second, after which `inv`
/// holds of the window start and of the index the stage asks to keep; and
/// the last index with the end of input in a window that starts at or
/// before it.
pub open spec fn windows_agree<S: Stage2>(s0: ScanState, inv: spec_fn(S::Model, int, int) -> bool) -> bool {
    &&& forall|m: S::Model, t: Seq<u8>, a: int, b: int, start: int, len: int|
        0 <= start <= a < b < len <= t.len() && t.len() <= usize::MAX && is_structural(s0, t, a)
            && is_structural(s0, t, b) && inv(
            m,
            start,
            a,
        ) ==> {
            &&& model_of(#[trigger] S::spec_process_one(m, t.subrange(start, len), start, a, b, false))
                == model_of(S::spec_process_one(m, t, 0, a, b, false))
            &&& S::spec_process_one(m, t.subrange(start, len), start, a, b, false) matches Ok((m2, keep))
                ==> inv(m2, start, b) && inv(m2, keep, b)
        }
    &&& forall|m: S::Model, t: Seq<u8>, a: int, start: int|
        0 <= start <= a < t.len() && t.len() <= usize::MAX && inv(m, start, a) ==> model_of(
            #[trigger] S::spec_process_one(m, t.skip(start), start, a, t.len() as int, true),
        ) == model_of(S::spec_process_one(m, t, 0, a, t.len() as int, true))
}

/// The invariant of stages that need nothing but the pair they are handed.
pub open spec fn any_window<M>() -> spec_fn(M, int, int) -> bool {
    |m: M, lo: int, hi: int| true
}

/// A visiting stage treats windows as the whole input.
pub proof fn lemma_visitor_windows_agree<V: Visitor>(s0: ScanState)
    requires
        scan_consistent(s0),
    ensures
        windows_agree::<VisitorState<V>>(s0, any_window()),
{
    assert forall|m: (V::Model, Seq<V::Context>), t: Seq<u8>, a: int, b: int, start: int, len: int|
        0 <= start <= a < b < len <= t.len() && is_structural(s0, t, a) && is_structural(s0, t, b)
        implies #[trigger] VisitorState::<V>::spec_process_one(m, t.subrange(start, len), start, a, b, false)
        == VisitorState::<V>::spec_process_one(m, t, 0, a, b, false) by {
        lemma_visitor_pair_window::<V>(m, s0, t, a, b, start, len);
    }
    assert forall|m: (V::Model, Seq<V::Context>), t: Seq<u8>, a: int, start: int|
        0 <= start <= a < t.len() implies #[trigger] VisitorState::<V>::spec_process_one(
            m,
            t.skip(start),
            start,
            a,
            t.len() as int,
            true,
        ) == VisitorState::<V>::spec_process_one(m, t, 0, a, t.len() as int, true) by {
        lemma_visitor_eof_window::<V>(m, t, a, start);
    }
}

/// The printing stage reads only the bytes of the pair it is handed, so it
/// treats windows as the whole input.
pub proof fn lemma_print_windows_agree(s0: ScanState)
    ensures
        windows_agree::<WritingStage2Adapter<print::Stage2>>(s0, any_window()),
{
    assert forall|m: ((bool, int), Seq<u8>), t: Seq<u8>, a: int, b: int, start: int, len: int|
        0 <= start <= a < b < len <= t.len() && is_structural(s0, t, a) && is_structural(s0, t, b)
        implies #[trigger] WritingStage2Adapter::<print::Stage2>::spec_process_one(
        m,
        t.subrange(start, len),
        start,
        a,
        b,
        false,
    ) == WritingStage2Adapter::<print::Stage2>::spec_process_one(m, t, 0, a, b, false) by {
        let w = t.subrange(start, len);
        assert(w[a - start] == t[a]);
        assert(w.subrange(a - start, b - start) =~= t.subrange(a, b));
        assert(w.subrange(a + 1 - start, b - start) =~= t.subrange(a + 1, b));
    }
    assert forall|m: ((bool, int), Seq<u8>), t: Seq<u8>, a: int, start: int|
        0 <= start <= a < t.len() implies #[trigger] WritingStage2Adapter::<print::Stage2>::spec_process_one(
        m,
        t.skip(start),
        start,
        a,
        t.len() as int,
        true,
    ) == WritingStage2Adapter::<print::Stage2>::spec_process_one(m, t, 0, a, t.len() as int, true) by {
        let w = t.skip(start);
        assert(w[a - start] == t[a]);
        assert(w.subrange(a - start, t.len() - start) =~= t.subrange(a, t.len() as int));
        assert(w.subrange(a + 1 - start, t.len() - start) =~= t.subrange(a + 1, t.len() as int));
    }
}

/// The model of a selecting stage that writes with `O`.
pub type SelectModel<O> = ((Seq<select::State>, bool, <O as Output>::Model, Seq<Seq<u8>>), Seq<u8>);

/// What a selecting stage needs of its window `lo..`: the starts of the
/// values being read, and the value ranges its output holds, lie between
/// `lo` and `hi` (the last index handed over); between top-level lists the
/// line has no output yet, and a line with no output holds no range.
pub open spec fn select_window_inv<O: Output>() -> spec_fn(SelectModel<O>, int, int) -> bool {
    |m: SelectModel<O>, lo: int, hi: int|
        {
            let (stack, on_line, out, keys) = m.0;
            &&& forall|i: int|
                0 <= i < stack.len() ==> match #[trigger] stack[i] {
                    select::State::Selected(_, s) => lo <= s <= hi,
                    _ => true,
                }
            &&& O::ranges_within(out, lo, hi)
            &&& stack.len() == 0 ==> !on_line
            &&& !on_line ==> O::no_ranges(out)
        }
}

/// A selecting stage, handed a structural index and the next one in a
/// window that holds everything its model needs, does what it does in the
/// whole input, and its model still needs nothing before the window start,
/// nor before the index it asks to keep.
proof fn lemma_select_step_window<O: Output>(
    m: SelectModel<O>,
    t: Seq<u8>,
    a: int,
    b: int,
    start: int,
    len: int,
    is_eof: bool,
)
    requires
        0 <= start <= a < b <= len <= t.len(),
        t.len() <= usize::MAX,
        select_window_inv::<O>()(m, start, a),
    ensures
        model_of(
            WritingStage2Adapter::<select::Stage2<O>>::spec_process_one(m, t.subrange(start, len), start, a, b, is_eof),
        ) == model_of(WritingStage2Adapter::<select::Stage2<O>>::spec_process_one(m, t, 0, a, b, is_eof)),
        WritingStage2Adapter::<select::Stage2<O>>::spec_process_one(m, t.subrange(start, len), start, a, b, is_eof)
            matches Ok((m2, keep)) ==> select_window_inv::<O>()(m2, start, b) && select_window_inv::<O>()(
            m2,
            keep,
            b,
        ),
{
    let inv = select_window_inv::<O>();
    let w = t.subrange(start, len);
    let (stack, on_line, out, keys) = m.0;
    let ch = t[a];
    assert(w[a - start] == ch);
    assert(window_bytes(w, start, a, b) =~= window_bytes(t, 0, a, b));
    assert(window_bytes(w, start, a + 1, b) =~= window_bytes(t, 0, a + 1, b));
    O::lemma_ranges(out, start, a, start, b);
    O::lemma_ranges(out, b, b, b, b);
    if ch == 0x28u8 || !(ch == 0x29u8 || ch == 0x20u8 || ch == 0x09u8 || ch == 0x0au8) {
        let key = if ch == 0x28u8 {
            None
        } else if stack.len() > 0 && stack.last() == select::State::Start {
            atom_key(keys, t, 0, a, b)
        } else {
            None
        };
        assert(stack.len() > 0 && stack.last() == select::State::Start ==> atom_key(keys, w, start, a, b) == atom_key(
            keys,
            t,
            0,
            a,
            b,
        ));
        let st2 = step_top(stack, a, key);
        assert forall|i: int| 0 <= i < st2.len() implies match #[trigger] st2[i] {
            select::State::Selected(_, s) => start <= s <= b,
            _ => true,
        } by {
            if i < stack.len() - 1 {
                assert(st2[i] == stack[i]);
            } else {
                assert(st2[i] == next_state(stack.last(), a, key));
                assert(stack[stack.len() - 1] == stack.last());
            }
        }
        if ch == 0x28u8 {
            let st3 = st2.push(select::State::Start);
            assert forall|i: int| 0 <= i < st3.len() implies match #[trigger] st3[i] {
                select::State::Selected(_, s) => start <= s <= b,
                _ => true,
            } by {
                if i < st2.len() {
                    assert(st3[i] == st2[i]);
                }
            }
            if stack.len() == 0 {
                assert(st3 =~= seq![select::State::Start]);
                assert forall|i: int| 0 <= i < st3.len() implies match #[trigger] st3[i] {
                    select::State::Selected(_, s) => b <= s <= b,
                    _ => true,
                } by {}
                assert(inv(((st3, on_line, out, keys), m.1), b, b));
            }
            assert(inv(((st3, on_line, out, keys), m.1), start, b));
        } else {
            assert(inv(((st2, on_line, out, keys), m.1), start, b));
            if stack.len() == 0 {
                assert(st2 =~= stack);
                assert(inv(((st2, on_line, out, keys), m.1), b, b));
            }
        }
    } else if ch == 0x29u8 {
        if stack.len() > 0 {
            let rest = stack.drop_last();
            assert forall|i: int| 0 <= i < rest.len() implies match #[trigger] rest[i] {
                select::State::Selected(_, s) => start <= s <= b,
                _ => true,
            } by {
                assert(rest[i] == stack[i]);
            }
            assert(stack[stack.len() - 1] == stack.last());
            let (out1, has1) = match stack.last() {
                select::State::Selected(key_id, s) => {
                    O::lemma_select_window(out, keys, key_id as int, t, start, len, s as int, a, on_line);
                    (O::spec_select(out, keys, key_id as int, t, 0, s as int, a, on_line).0, true)
                },
                _ => (out, on_line),
            };
            O::lemma_ranges(out1, start, a, start, len);
            O::lemma_ranges(out1, start, a, start, b);
            if rest.len() == 0 && has1 {
                O::lemma_eol_window(out1, t, start, len);
                let out2 = O::spec_eol(out1, t, 0).0;
                O::lemma_ranges(out2, start, b, start, b);
                assert(inv(((rest, false, out2, keys), m.1), start, b));
            } else {
                assert(inv(((rest, has1, out1, keys), m.1), start, b));
            }
        }
    } else {
        assert forall|i: int| 0 <= i < stack.len() implies match #[trigger] stack[i] {
            select::State::Selected(_, s) => start <= s <= b,
            _ => true,
        } by {}
        assert(inv(m, start, b));
        if stack.len() == 0 {
            assert(inv(m, b, b));
        }
    }
}

/// A selecting stage treats windows as the whole input while its model
/// needs nothing before the window.
pub proof fn lemma_select_windows_agree<O: Output>(s0: ScanState)
    ensures
        windows_agree::<WritingStage2Adapter<select::Stage2<O>>>(s0, select_window_inv::<O>()),
{
    let inv = select_window_inv::<O>();
    assert forall|m: SelectModel<O>, t: Seq<u8>, a: int, b: int, start: int, len: int|
        0 <= start <= a < b < len <= t.len() && t.len() <= usize::MAX && is_structural(s0, t, a)
            && is_structural(s0, t, b) && inv(m, start, a) implies {
        &&& model_of(
            #[trigger] WritingStage2Adapter::<select::Stage2<O>>::spec_process_one(
                m,
                t.subrange(start, len),
                start,
                a,
                b,
                false,
            ),
        ) == model_of(WritingStage2Adapter::<select::Stage2<O>>::spec_process_one(m, t, 0, a, b, false))
        &&& WritingStage2Adapter::<select::Stage2<O>>::spec_process_one(m, t.subrange(start, len), start, a, b, false)
            matches Ok((m2, keep)) ==> inv(m2, start, b) && inv(m2, keep, b)
    } by {
        lemma_select_step_window::<O>(m, t, a, b, start, len, false);
    }
    assert forall|m: SelectModel<O>, t: Seq<u8>, a: int, start: int|
        0 <= start <= a < t.len() && t.len() <= usize::MAX && inv(m, start, a) implies model_of(
        #[trigger] WritingStage2Adapter::<select::Stage2<O>>::spec_process_one(
            m,
            t.skip(start),
            start,
            a,
            t.len() as int,
            true,
        ),
    ) == model_of(WritingStage2Adapter::<select::Stage2<O>>::spec_process_one(m, t, 0, a, t.len() as int, true)) by {
        assert(t.skip(start) =~= t.subrange(start, t.len() as int));
        lemma_select_step_window::<O>(m, t, a, t.len() as int, start, t.len() as int, true);
    }
}

/// Every structural position is a structural byte.
proof fn lemma_positions_structural(s0: ScanState, t: Seq<u8>, n: int)
    requires
        0 <= n <= t.len(),
        t.len() <= usize::MAX,
    ensures
        forall|x: int|
            0 <= x < structural_positions(s0, t, n).len() ==> is_structural(
                s0,
                t,
                #[trigger] structural_positions(s0, t, n)[x] as int,
            ),
    decreases n,
{
    if n > 0 {
        lemma_positions_structural(s0, t, n - 1);
        let p = structural_positions(s0, t, n);
        let q = structural_positions(s0, t, n - 1);
        assert forall|x: int| 0 <= x < p.len() implies is_structural(s0, t, #[trigger] p[x] as int) by {
            if x < q.len() {
                assert(p[x] == q[x]);
            } else {
                assert(is_structural(s0, t, n - 1));
                assert(p[x] == (n - 1) as usize);
                assert(p[x] as int == n - 1);
            }
        }
    }
}

/// The structural positions of a prefix of the input are the first ones of
/// the whole input.
proof fn lemma_prefix_positions(s0: ScanState, t: Seq<u8>, len: int)
    requires
        0 <= len <= t.len(),
        t.len() <= usize::MAX,
    ensures
        structural_positions(s0, t.take(len), len) == structural_positions(s0, t, len),
        structural_positions(s0, t, t.len() as int).take(structural_positions(s0, t, len).len() as int)
            == structural_positions(s0, t, len),
        structural_positions(s0, t, len).len() <= structural_positions(s0, t, t.len() as int).len(),
        forall|x: int|
            0 <= x < structural_positions(s0, t, len).len() ==> #[trigger] structural_positions(s0, t, len)[x]
                < len,
{
    lemma_positions_take(s0, t, len, len);
    lemma_positions_prefix(s0, t, len, t.len() as int);
    lemma_positions_bounds(s0, t, len);
}

/// Once a pair fails, the pairs after it change nothing.
proof fn lemma_fold_pairs_err<S: Stage2>(m: S::Model, t: Seq<u8>, p: Seq<usize>, a: int, b: int)
    requires
        a <= b,
        fold_pairs::<S>(m, t, p, a) is Err,
    ensures
        fold_pairs::<S>(m, t, p, b) == fold_pairs::<S>(m, t, p, a),
    decreases b - a,
{
    if b > a {
        lemma_fold_pairs_err::<S>(m, t, p, a, b - 1);
    }
}

/// Handing a stage that treats windows as the whole input the pairs
/// `lo..hi` of the structural indices known once `len` bytes have arrived,
/// in the window of those bytes that starts at `start`, goes as handing them
/// over in the whole input; the invariant holds after them, of the window
/// start and of the index asked to keep.
proof fn lemma_window_fold<S: Stage2>(
    m0: S::Model,
    s0: ScanState,
    inv: spec_fn(S::Model, int, int) -> bool,
    t: Seq<u8>,
    len: int,
    start: int,
    lo: int,
    hi: int,
    m: S::Model,
)
    requires
        windows_agree::<S>(s0, inv),
        t.len() <= usize::MAX,
        0 <= len <= t.len(),
        0 <= start,
        0 <= lo <= hi < structural_positions(s0, t.take(len), len).len(),
        start <= structural_positions(s0, t.take(len), len)[lo],
        inv(m, start, structural_positions(s0, t.take(len), len)[lo] as int),
        fold_pairs::<S>(m0, t, structural_positions(s0, t, t.len() as int), lo) == Ok::<S::Model, Error>(m),
    ensures
        match fold_window::<S>(
            m,
            t.take(len).skip(start),
            start,
            structural_positions(s0, t.take(len), len),
            lo,
            hi,
            start,
        ) {
            Ok((m2, keep)) => {
                &&& fold_pairs::<S>(m0, t, structural_positions(s0, t, t.len() as int), hi) == Ok::<
                    S::Model,
                    Error,
                >(m2)
                &&& inv(m2, start, structural_positions(s0, t.take(len), len)[hi] as int)
                &&& inv(m2, keep, structural_positions(s0, t.take(len), len)[hi] as int)
                &&& start <= keep <= structural_positions(s0, t.take(len), len)[hi]
            },
            Err(e) => fold_pairs::<S>(m0, t, structural_positions(s0, t, t.len() as int), hi) == Err::<
                S::Model,
                Error,
            >(e),
        },
    decreases hi - lo,
{
    let p = structural_positions(s0, t.take(len), len);
    let pp = structural_positions(s0, t, t.len() as int);
    let w = t.take(len).skip(start);
    lemma_prefix_positions(s0, t, len);
    lemma_positions_bounds(s0, t, len);
    if hi > lo {
        lemma_window_fold::<S>(m0, s0, inv, t, len, start, lo, hi - 1, m);
        lemma_positions_structural(s0, t, t.len() as int);
        assert(p[hi - 1] == pp[hi - 1]);
        assert(p[hi] == pp[hi]);
        assert(pp.take(p.len() as int)[hi - 1] == pp[hi - 1]);
        assert(pp.take(p.len() as int)[hi] == pp[hi]);
        assert(w =~= t.subrange(start, len));
        if hi - 1 > lo {
            assert(p[lo] < p[hi - 1]);
        }
        assert(is_structural(s0, t, pp[hi - 1] as int));
        assert(is_structural(s0, t, pp[hi] as int));
        match fold_window::<S>(m, w, start, p, lo, hi - 1, start) {
            Ok((m1, _)) => {
                assert(model_of(S::spec_process_one(m1, t.subrange(start, len), start, p[hi - 1] as int, p[hi] as int, false))
                    == model_of(S::spec_process_one(m1, t, 0, p[hi - 1] as int, p[hi] as int, false)));
                S::lemma_keep_bounds(m1, w, start, p[hi - 1] as int, p[hi] as int, false);
            },
            Err(e) => {},
        }
    }
}

/// The bytes of `chunks`, one after another.
pub open spec fn chunks_bytes(chunks: Seq<Seq<u8>>) -> Seq<u8>
    decreases chunks.len(),
{
    if chunks.len() == 0 {
        seq![]
    } else {
        chunks[0] + chunks_bytes(chunks.drop_first())
    }
}

/// What a stream gives that holds stage model `m`, has received `t`
/// (scanned from `s0`) and holds its window from `start`, when it is handed
/// `chunks` one after another, and is then ended: the first error, or the
/// result. After chunk `i` it holds its window from the same start, or, when
/// `keeps[i]`, from the index the stage asked to keep.
pub open spec fn stream_run<S: Stage2>(
    m: S::Model,
    s0: ScanState,
    t: Seq<u8>,
    start: int,
    chunks: Seq<Seq<u8>>,
    keeps: Seq<bool>,
) -> Result<S::ReturnModel, Error>
    decreases chunks.len(),
{
    if chunks.len() == 0 {
        stream_eof::<S>(m, s0, t, start)
    } else {
        match stream_feed::<S>(m, s0, t, start, chunks[0]) {
            Err(e) => Err(e),
            Ok((m2, keep)) => stream_run::<S>(
                m2,
                s0,
                t + chunks[0],
                if keeps[0] {
                    keep
                } else {
                    start
                },
                chunks.drop_first(),
                keeps.drop_first(),
            ),
        }
    }
}

proof fn lemma_stream_run_rest<S: Stage2>(
    m_orig: S::Model,
    s0: ScanState,
    inv: spec_fn(S::Model, int, int) -> bool,
    t: Seq<u8>,
    len: int,
    m: S::Model,
    start: int,
    chunks: Seq<Seq<u8>>,
    keeps: Seq<bool>,
)
    requires
        windows_agree::<S>(s0, inv),
        t.len() <= usize::MAX,
        0 <= len <= t.len(),
        chunks_bytes(chunks) == t.skip(len),
        keeps.len() == chunks.len(),
        0 <= start,
        ({
            let p0 = structural_positions(s0, t.take(len), len);
            &&& p0.len() == 0 ==> start == 0 && forall|h: int| #[trigger] inv(m, 0, h)
            &&& p0.len() > 0 ==> start <= p0.last() && inv(m, start, p0.last() as int)
        }),
        fold_pairs::<S>(
            S::spec_reset(m_orig, Some(t.len() as usize)),
            t,
            structural_positions(s0, t, t.len() as int),
            first_pending(structural_positions(s0, t.take(len), len).len() as int),
        ) == Ok::<S::Model, Error>(m),
    ensures
        stream_run::<S>(m, s0, t.take(len), start, chunks, keeps) == spec_parse_all::<S>(m_orig, s0, t),
    decreases chunks.len(),
{
    let m0 = S::spec_reset(m_orig, Some(t.len() as usize));
    let pp = structural_positions(s0, t, t.len() as int);
    let n = pp.len() as int;
    lemma_prefix_positions(s0, t, len);
    if chunks.len() == 0 {
        assert(t.skip(len).len() == 0);
        assert(t.take(len) =~= t);
        assert(structural_positions(s0, t.take(len), len) == pp);
        if n > 0 {
            lemma_positions_bounds(s0, t, t.len() as int);
            assert(model_of(S::spec_process_one(m, t.skip(start), start, pp[n - 1] as int, t.len() as int, true))
                == model_of(S::spec_process_one(m, t, 0, pp[n - 1] as int, t.len() as int, true)));
        }
    } else {
        let c = chunks[0];
        let rest = chunks.drop_first();
        let len2 = len + c.len();
        assert(t.skip(len) =~= c + chunks_bytes(rest));
        assert(len2 <= t.len());
        assert forall|i: int| 0 <= i < len2 implies #[trigger] (t.take(len) + c)[i] == t.take(len2)[i] by {
            if i >= len {
                assert(t.skip(len)[i - len] == t[i]);
                assert((c + chunks_bytes(rest))[i - len] == c[i - len]);
            }
        }
        assert(t.take(len) + c =~= t.take(len2));
        assert forall|i: int| 0 <= i < t.len() - len2 implies #[trigger] chunks_bytes(rest)[i] == t.skip(len2)[i] by {
            assert(t.skip(len)[i + c.len()] == t[len2 + i]);
            assert((c + chunks_bytes(rest))[i + c.len()] == chunks_bytes(rest)[i]);
        }
        assert(chunks_bytes(rest) =~= t.skip(len2));
        let t2 = t.take(len2);
        lemma_prefix_positions(s0, t, len2);
        let p0 = structural_positions(s0, t.take(len), len);
        let p2 = structural_positions(s0, t2, len2);
        assert(t2.len() == len2);
        lemma_positions_prefix(s0, t, len, len2);
        let lo = first_pending(p0.len() as int);
        if p2.len() == 0 {
            assert(p0.len() == 0);
            assert(stream_feed::<S>(m, s0, t.take(len), start, c) == Ok::<(S::Model, int), Error>((m, start)));
            lemma_stream_run_rest::<S>(m_orig, s0, inv, t, len2, m, start, rest, keeps.drop_first());
        } else {
            let hi = p2.len() - 1;
            if p0.len() > 0 {
                assert(p2[lo] == p0[lo]);
                assert(p0.last() == p0[lo]);
            } else {
                lemma_positions_split(s0, t, len, len2);
                assert(len <= p2[0]);
            }
            lemma_window_fold::<S>(m0, s0, inv, t, len2, start, lo, hi, m);
            match fold_window::<S>(m, t2.skip(start), start, p2, lo, hi, start) {
                Ok((m2, keep)) => {
                    assert(p2.last() == p2[hi]);
                    let start2 = if keeps[0] {
                        keep
                    } else {
                        start
                    };
                    lemma_stream_run_rest::<S>(m_orig, s0, inv, t, len2, m2, start2, rest, keeps.drop_first());
                },
                Err(e) => {
                    lemma_fold_pairs_err::<S>(m0, t, pp, hi, n - 1);
                },
            }
        }
    }
}

/// Law: a stream that is handed the bytes of its input in any pieces, then
/// ended, gives what parsing the whole input at once gives: the same result,
/// or the same error, whichever window starts it keeps along the way. It
/// holds for stages that treat windows as the whole input while their model
/// holds `inv` (visiting and printing stages do, for any model; selecting
/// stages do for models that need nothing before the window), starting from
/// a model that holds `inv` at the start of the input, and whose model does
/// not depend on the size hint given at reset.
pub proof fn lemma_streaming_matches_whole<S: Stage2>(
    m: S::Model,
    s0: ScanState,
    inv: spec_fn(S::Model, int, int) -> bool,
    chunks: Seq<Seq<u8>>,
    keeps: Seq<bool>,
)
    requires
        windows_agree::<S>(s0, inv),
        forall|h: int| #[trigger] inv(S::spec_reset(m, None), 0, h),
        chunks_bytes(chunks).len() <= usize::MAX,
        keeps.len() == chunks.len(),
        S::spec_reset(m, None) == S::spec_reset(m, Some(chunks_bytes(chunks).len() as usize)),
    ensures
        stream_run::<S>(S::spec_reset(m, None), s0, seq![], 0, chunks, keeps) == spec_parse_all::<S>(
            m,
            s0,
            chunks_bytes(chunks),
        ),
{
    let t = chunks_bytes(chunks);
    assert(t.take(0) =~= Seq::<u8>::empty());
    assert(t.skip(0) =~= t);
    assert(structural_positions(s0, t.take(0), 0).len() == 0);
    lemma_stream_run_rest::<S>(m, s0, inv, t, 0, S::spec_reset(m, None), 0, chunks, keeps);
}


/// Law (parsing into trees or tapes): handing a visiting parser its input
/// in any pieces, then ending it, gives what parsing the whole input at once
/// gives, whichever window starts it keeps.
pub proof fn lemma_visitor_streaming_matches_whole<V: Visitor>(
    m: (V::Model, Seq<V::Context>),
    s0: ScanState,
    chunks: Seq<Seq<u8>>,
    keeps: Seq<bool>,
)
    requires
        scan_consistent(s0),
        chunks_bytes(chunks).len() <= usize::MAX,
        keeps.len() == chunks.len(),
        V::spec_reset(m.0, None) == V::spec_reset(m.0, Some(chunks_bytes(chunks).len() as usize)),
    ensures
        stream_run::<VisitorState<V>>(VisitorState::<V>::spec_reset(m, None), s0, seq![], 0, chunks, keeps)
            == spec_parse_all::<VisitorState<V>>(m, s0, chunks_bytes(chunks)),
{
    lemma_visitor_windows_agree::<V>(s0);
    lemma_streaming_matches_whole::<VisitorState<V>>(m, s0, any_window(), chunks, keeps);
}

/// Law (printing): printing input handed over in any pieces writes what
/// printing the whole input at once writes.
pub proof fn lemma_print_streaming_matches_whole(
    m: ((bool, int), Seq<u8>),
    s0: ScanState,
    chunks: Seq<Seq<u8>>,
    keeps: Seq<bool>,
)
    requires
        chunks_bytes(chunks).len() <= usize::MAX,
        keeps.len() == chunks.len(),
    ensures
        stream_run::<WritingStage2Adapter<print::Stage2>>(
            WritingStage2Adapter::<print::Stage2>::spec_reset(m, None),
            s0,
            seq![],
            0,
            chunks,
            keeps,
        ) == spec_parse_all::<WritingStage2Adapter<print::Stage2>>(m, s0, chunks_bytes(chunks)),
{
    lemma_print_windows_agree(s0);
    lemma_streaming_matches_whole::<WritingStage2Adapter<print::Stage2>>(m, s0, any_window(), chunks, keeps);
}

/// Law (selecting): a selecting parser that has not started a list, handed
/// its input in any pieces, writes what it writes when handed the whole
/// input at once, or fails with the same error.
pub proof fn lemma_select_streaming_matches_whole<O: Output>(
    m: SelectModel<O>,
    s0: ScanState,
    chunks: Seq<Seq<u8>>,
    keeps: Seq<bool>,
)
    requires
        m.0.0.len() == 0,
        !m.0.1,
        O::no_ranges(O::spec_reset(m.0.2, m.0.3)),
        chunks_bytes(chunks).len() <= usize::MAX,
        keeps.len() == chunks.len(),
    ensures
        stream_run::<WritingStage2Adapter<select::Stage2<O>>>(
            WritingStage2Adapter::<select::Stage2<O>>::spec_reset(m, None),
            s0,
            seq![],
            0,
            chunks,
            keeps,
        ) == spec_parse_all::<WritingStage2Adapter<select::Stage2<O>>>(m, s0, chunks_bytes(chunks)),
{
    let inv = select_window_inv::<O>();
    let m0 = WritingStage2Adapter::<select::Stage2<O>>::spec_reset(m, None);
    assert forall|h: int| #[trigger] inv(m0, 0, h) by {
        O::lemma_ranges(O::spec_reset(m.0.2, m.0.3), 0, h, 0, h);
    }
    lemma_select_windows_agree::<O>(s0);
    lemma_streaming_matches_whole::<WritingStage2Adapter<select::Stage2<O>>>(m, s0, inv, chunks, keeps);
}

} // verus!
