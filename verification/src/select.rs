use vstd::prelude::*;
use crate::escape::{self, Unescape, spec_unescape};
use crate::escape_csv;
use crate::parser::{self, Error, Input, WritingStage2, WritingStage2Adapter};
use crate::structural;

verus! {

/// Where the selector is inside one list of the input.
#[derive(Copy, Clone, Debug, PartialEq, Eq, Structural)]
pub enum State {
    /// At the start of the list.
    Start,
    /// After a key that is selected: the next element is its value.
    SelectNext(u32),
    /// Inside the value of a selected key, which started at the index.
    Selected(u32, usize),
    /// In a list whose elements are not selected.
    Ignore,
}

#[derive(Copy, Clone, Debug)]
pub enum OutputKind {
    Values,
    Labeled,
    Csv { atoms_as_sexps: bool },
}

/// The bytes of the keys.
pub open spec fn keys_view(keys: Seq<Vec<u8>>) -> Seq<Seq<u8>> {
    keys.map_values(|k: Vec<u8>| k@)
}

/// Whether `start..end` lies in the window `input` that starts at `offset`.
pub open spec fn in_window(input: Seq<u8>, offset: int, start: int, end: int) -> bool {
    offset <= start <= end <= offset + input.len()
}

/// The bytes of `start..end` in the window `input` that starts at `offset`.
pub open spec fn window_bytes(input: Seq<u8>, offset: int, start: int, end: int) -> Seq<u8> {
    input.subrange(start - offset, end - offset)
}

/// How the selected values are written.
pub trait Output: Sized {
    /// What the output remembers between calls.
    type Model;

    spec fn model(&self) -> Self::Model;

    spec fn spec_reset(m: Self::Model, keys: Seq<Seq<u8>>) -> Self::Model;

    /// Whether selecting the value `start..end` for key `key_id` stays
    /// within what the output can handle (it panics otherwise).
    spec fn select_ok(
        m: Self::Model,
        keys: Seq<Seq<u8>>,
        key_id: int,
        input: Seq<u8>,
        offset: int,
        start: int,
        end: int,
    ) -> bool;

    /// The new model and the bytes written when the value `start..end` of
    /// key `key_id` is selected.
    spec fn spec_select(
        m: Self::Model,
        keys: Seq<Seq<u8>>,
        key_id: int,
        input: Seq<u8>,
        offset: int,
        start: int,
        end: int,
        has_output_on_line: bool,
    ) -> (Self::Model, Seq<u8>);

    /// Whether ending a line stays within what the output can handle.
    spec fn eol_ok(m: Self::Model, input: Seq<u8>, offset: int) -> bool;

    /// The new model and the bytes written at the end of a line.
    spec fn spec_eol(m: Self::Model, input: Seq<u8>, offset: int) -> (Self::Model, Seq<u8>);

    /// Whether every value range that the output holds lies in `lo..hi`.
    spec fn ranges_within(m: Self::Model, lo: int, hi: int) -> bool;

    /// Whether the output holds no value range.
    spec fn no_ranges(m: Self::Model) -> bool;

    proof fn lemma_ranges(m: Self::Model, lo: int, hi: int, lo2: int, hi2: int)
        ensures
            Self::no_ranges(m) ==> Self::ranges_within(m, lo, hi),
            Self::ranges_within(m, lo, hi) && lo2 <= lo && hi <= hi2 ==> Self::ranges_within(m, lo2, hi2),
    ;

    /// Selecting a value in a window of the input that holds it does what
    /// it does in the whole input.
    proof fn lemma_select_window(
        m: Self::Model,
        keys: Seq<Seq<u8>>,
        key_id: int,
        t: Seq<u8>,
        start: int,
        len: int,
        s: int,
        e: int,
        has: bool,
    )
        requires
            0 <= start <= s <= e <= len <= t.len(),
            t.len() <= usize::MAX,
        ensures
            Self::spec_select(m, keys, key_id, t.subrange(start, len), start, s, e, has) == Self::spec_select(
                m,
                keys,
                key_id,
                t,
                0,
                s,
                e,
                has,
            ),
            Self::ranges_within(m, start, e) ==> Self::ranges_within(
                Self::spec_select(m, keys, key_id, t, 0, s, e, has).0,
                start,
                e,
            ),
    ;

    /// Ending a line in a window of the input that holds the value ranges
    /// does what it does in the whole input, and leaves no range.
    proof fn lemma_eol_window(m: Self::Model, t: Seq<u8>, start: int, len: int)
        requires
            0 <= start <= len <= t.len(),
            Self::ranges_within(m, start, len),
        ensures
            Self::spec_eol(m, t.subrange(start, len), start) == Self::spec_eol(m, t, 0),
            Self::no_ranges(Self::spec_eol(m, t, 0).0),
    ;

    fn reset(&mut self, keys: &Vec<Vec<u8>>)
        ensures
            final(self).model() == Self::spec_reset(old(self).model(), keys_view(keys@)),
    ;

    fn select(
        &mut self,
        writer: &mut Vec<u8>,
        keys: &Vec<Vec<u8>>,
        key_id: usize,
        input: &Input,
        value_range: (usize, usize),
        has_output_on_line: bool,
    )
        requires
            Self::select_ok(
                old(self).model(),
                keys_view(keys@),
                key_id as int,
                input.input@,
                input.offset as int,
                value_range.0 as int,
                value_range.1 as int,
            ),
        ensures
            ({
                let (m, out) = Self::spec_select(
                    old(self).model(),
                    keys_view(keys@),
                    key_id as int,
                    input.input@,
                    input.offset as int,
                    value_range.0 as int,
                    value_range.1 as int,
                    has_output_on_line,
                );
                final(self).model() == m && final(writer)@ == old(writer)@ + out
            }),
    ;

    fn eol(&mut self, writer: &mut Vec<u8>, input: &Input)
        requires
            Self::eol_ok(old(self).model(), input.input@, input.offset as int),
        ensures
            ({
                let (m, out) = Self::spec_eol(old(self).model(), input.input@, input.offset as int);
                final(self).model() == m && final(writer)@ == old(writer)@ + out
            }),
    ;
}

fn write_all(writer: &mut Vec<u8>, bytes: &[u8])
    ensures
        final(writer)@ == old(writer)@ + bytes@,
{
    let mut i: usize = 0;
    while i < bytes.len()
        invariant
            i <= bytes@.len(),
            writer@ == old(writer)@ + bytes@.take(i as int),
        decreases bytes@.len() - i,
    {
        writer.push(bytes[i]);
        assert(bytes@.take(i + 1) =~= bytes@.take(i as int).push(bytes@[i as int]));
        i += 1;
    }
    assert(bytes@.take(bytes@.len() as int) =~= bytes@);
}

/// Writes each line's selected values in a list.
pub struct OutputValues {}

impl OutputValues {
    pub fn new() -> Self {
        Self {  }
    }
}

impl Output for OutputValues {
    type Model = ();

    open spec fn model(&self) -> () {
        ()
    }

    open spec fn spec_reset(m: (), keys: Seq<Seq<u8>>) -> () {
        ()
    }

    open spec fn select_ok(
        m: (),
        keys: Seq<Seq<u8>>,
        key_id: int,
        input: Seq<u8>,
        offset: int,
        start: int,
        end: int,
    ) -> bool {
        in_window(input, offset, start, end)
    }

    open spec fn spec_select(
        m: (),
        keys: Seq<Seq<u8>>,
        key_id: int,
        input: Seq<u8>,
        offset: int,
        start: int,
        end: int,
        has_output_on_line: bool,
    ) -> ((), Seq<u8>) {
        ((), (if has_output_on_line {
            seq![0x20u8]
        } else {
            seq![0x28u8]
        }) + window_bytes(input, offset, start, end))
    }

    open spec fn eol_ok(m: (), input: Seq<u8>, offset: int) -> bool {
        true
    }

    open spec fn spec_eol(m: (), input: Seq<u8>, offset: int) -> ((), Seq<u8>) {
        ((), seq![0x29u8, 0x0au8])
    }

    open spec fn ranges_within(m: (), lo: int, hi: int) -> bool {
        true
    }

    open spec fn no_ranges(m: ()) -> bool {
        true
    }

    proof fn lemma_ranges(m: (), lo: int, hi: int, lo2: int, hi2: int) {
    }

    proof fn lemma_select_window(
        m: (),
        keys: Seq<Seq<u8>>,
        key_id: int,
        t: Seq<u8>,
        start: int,
        len: int,
        s: int,
        e: int,
        has: bool,
    ) {
        assert(window_bytes(t.subrange(start, len), start, s, e) =~= window_bytes(t, 0, s, e));
    }

    proof fn lemma_eol_window(m: (), t: Seq<u8>, start: int, len: int) {
    }

    fn reset(&mut self, _keys: &Vec<Vec<u8>>) {
    }

    fn select(
        &mut self,
        writer: &mut Vec<u8>,
        _keys: &Vec<Vec<u8>>,
        _key_id: usize,
        input: &Input,
        value_range: (usize, usize),
        has_output_on_line: bool,
    ) {
        let value = &input.input[(value_range.0 - input.offset)..(value_range.1 - input.offset)];
        if has_output_on_line {
            writer.push(0x20u8);
        } else {
            writer.push(0x28u8);
        }
        write_all(writer, value);
        proof {
            let sep = if has_output_on_line {
                seq![0x20u8]
            } else {
                seq![0x28u8]
            };
            assert(writer@ =~= old(writer)@ + (sep + window_bytes(
                input.input@,
                input.offset as int,
                value_range.0 as int,
                value_range.1 as int,
            )));
        }
    }

    fn eol(&mut self, writer: &mut Vec<u8>, _input: &Input) {
        writer.push(0x29u8);
        writer.push(0x0au8);
        assert(writer@ =~= old(writer)@ + seq![0x29u8, 0x0au8]);
    }
}

/// Writes each line's selected values in a list, each with its key.
pub struct OutputLabeled {}

impl OutputLabeled {
    pub fn new() -> Self {
        Self {  }
    }
}

impl Output for OutputLabeled {
    type Model = ();

    open spec fn model(&self) -> () {
        ()
    }

    open spec fn spec_reset(m: (), keys: Seq<Seq<u8>>) -> () {
        ()
    }

    open spec fn select_ok(
        m: (),
        keys: Seq<Seq<u8>>,
        key_id: int,
        input: Seq<u8>,
        offset: int,
        start: int,
        end: int,
    ) -> bool {
        0 <= key_id < keys.len() && in_window(input, offset, start, end)
    }

    open spec fn spec_select(
        m: (),
        keys: Seq<Seq<u8>>,
        key_id: int,
        input: Seq<u8>,
        offset: int,
        start: int,
        end: int,
        has_output_on_line: bool,
    ) -> ((), Seq<u8>) {
        ((), (if has_output_on_line {
            seq![0x28u8]
        } else {
            seq![0x28u8, 0x28u8]
        }) + keys[key_id] + seq![0x20u8] + window_bytes(input, offset, start, end) + seq![0x29u8])
    }

    open spec fn eol_ok(m: (), input: Seq<u8>, offset: int) -> bool {
        true
    }

    open spec fn spec_eol(m: (), input: Seq<u8>, offset: int) -> ((), Seq<u8>) {
        ((), seq![0x29u8, 0x0au8])
    }

    open spec fn ranges_within(m: (), lo: int, hi: int) -> bool {
        true
    }

    open spec fn no_ranges(m: ()) -> bool {
        true
    }

    proof fn lemma_ranges(m: (), lo: int, hi: int, lo2: int, hi2: int) {
    }

    proof fn lemma_select_window(
        m: (),
        keys: Seq<Seq<u8>>,
        key_id: int,
        t: Seq<u8>,
        start: int,
        len: int,
        s: int,
        e: int,
        has: bool,
    ) {
        assert(window_bytes(t.subrange(start, len), start, s, e) =~= window_bytes(t, 0, s, e));
    }

    proof fn lemma_eol_window(m: (), t: Seq<u8>, start: int, len: int) {
    }

    fn reset(&mut self, _keys: &Vec<Vec<u8>>) {
    }

    fn select(
        &mut self,
        writer: &mut Vec<u8>,
        keys: &Vec<Vec<u8>>,
        key_id: usize,
        input: &Input,
        value_range: (usize, usize),
        has_output_on_line: bool,
    ) {
        let key = keys[key_id].as_slice();
        let value = &input.input[(value_range.0 - input.offset)..(value_range.1 - input.offset)];
        let ghost w0 = writer@;
        if !has_output_on_line {
            writer.push(0x28u8);
        }
        writer.push(0x28u8);
        // The key is written as given, unescaped.
        write_all(writer, key);
        writer.push(0x20u8);
        write_all(writer, value);
        writer.push(0x29u8);
        proof {
            let open = if has_output_on_line {
                seq![0x28u8]
            } else {
                seq![0x28u8, 0x28u8]
            };
            assert(keys_view(keys@)[key_id as int] == key@);
            assert(writer@ =~= w0 + (open + key@ + seq![0x20u8] + window_bytes(
                input.input@,
                input.offset as int,
                value_range.0 as int,
                value_range.1 as int,
            ) + seq![0x29u8]));
        }
    }

    fn eol(&mut self, writer: &mut Vec<u8>, _input: &Input) {
        writer.push(0x29u8);
        writer.push(0x0au8);
        assert(writer@ =~= old(writer)@ + seq![0x29u8, 0x0au8]);
    }
}

/// A field as CSV writes it: quoted when it has to be.
pub open spec fn csv_cell(v: Seq<u8>) -> Seq<u8> {
    if exists|i: int| 0 <= i < v.len() && #[trigger] escape_csv::csv_special(v[i]) {
        escape_csv::csv_quoted(v)
    } else {
        v
    }
}

/// Whether a value is a quoted atom that is written by its contents.
pub open spec fn csv_unquotes(atoms_as_sexps: bool, value: Seq<u8>) -> bool {
    !atoms_as_sexps && value.len() > 0 && value[0] == 0x22u8
}

/// The CSV field of the value `r` in the window `input` that starts at
/// `offset`: empty for an empty range; the contents of a quoted atom
/// unless atoms are written as sexps; otherwise the value's bytes.
pub open spec fn csv_field(atoms_as_sexps: bool, r: (usize, usize), input: Seq<u8>, offset: int) -> Seq<u8> {
    if r.0 >= r.1 {
        seq![]
    } else {
        let value = window_bytes(input, offset, r.0 as int, r.1 as int);
        if csv_unquotes(atoms_as_sexps, value) {
            match spec_unescape(value.skip(1)) {
                Some((_, plain)) => csv_cell(plain),
                None => seq![],
            }
        } else {
            csv_cell(value)
        }
    }
}

/// Whether the value `r` can be written as a CSV field (it panics
/// otherwise).
pub open spec fn csv_field_ok(atoms_as_sexps: bool, r: (usize, usize), input: Seq<u8>, offset: int) -> bool {
    r.0 < r.1 ==> {
        &&& in_window(input, offset, r.0 as int, r.1 as int)
        &&& (csv_unquotes(atoms_as_sexps, window_bytes(input, offset, r.0 as int, r.1 as int))
            ==> spec_unescape(window_bytes(input, offset, r.0 as int, r.1 as int).skip(1)) is Some)
    }
}

/// The fields of a row, separated by commas.
pub open spec fn csv_row(atoms_as_sexps: bool, row: Seq<(usize, usize)>, input: Seq<u8>, offset: int) -> Seq<u8>
    decreases row.len(),
{
    if row.len() == 0 {
        seq![]
    } else {
        csv_row(atoms_as_sexps, row.drop_last(), input, offset) + (if row.len() > 1 {
            seq![0x2cu8]
        } else {
            seq![]
        }) + csv_field(atoms_as_sexps, row.last(), input, offset)
    }
}

/// A row of value ranges in a window of the input that holds them is
/// written as in the whole input.
proof fn lemma_csv_row_window(aas: bool, row: Seq<(usize, usize)>, t: Seq<u8>, start: int, len: int)
    requires
        0 <= start <= len <= t.len(),
        forall|k: int| 0 <= k < row.len() && #[trigger] row[k].0 < row[k].1 ==> start <= row[k].0 && row[k].1 <= len,
    ensures
        csv_row(aas, row, t.subrange(start, len), start) == csv_row(aas, row, t, 0),
    decreases row.len(),
{
    if row.len() > 0 {
        let r = row.last();
        assert forall|k: int| 0 <= k < row.drop_last().len() && #[trigger] row.drop_last()[k].0 < row.drop_last()[k].1
            implies start <= row.drop_last()[k].0 && row.drop_last()[k].1 <= len by {
            assert(row.drop_last()[k] == row[k]);
        }
        lemma_csv_row_window(aas, row.drop_last(), t, start, len);
        if r.0 < r.1 {
            assert(row[row.len() - 1] == r);
            assert(window_bytes(t.subrange(start, len), start, r.0 as int, r.1 as int) =~= window_bytes(
                t,
                0,
                r.0 as int,
                r.1 as int,
            ));
        }
    }
}

/// Writes one CSV line per input line, with a column per key.
pub struct OutputCsv {
    atoms_as_sexps: bool,
    row: Vec<(usize, usize)>,
}

impl OutputCsv {
    pub fn new(atoms_as_sexps: bool) -> (r: Self)
        ensures
            r.model() == (atoms_as_sexps, Seq::<(usize, usize)>::empty()),
    {
        Self { atoms_as_sexps, row: Vec::new() }
    }

    /// Writes the header line: the keys as CSV fields, separated by commas.
    pub fn print_header(keys: &Vec<Vec<u8>>, writer: &mut Vec<u8>)
        ensures
            final(writer)@ == old(writer)@ + csv_header(keys_view(keys@)) + seq![0x0au8],
    {
        let mut needs_comma = false;
        let mut i: usize = 0;
        proof {
            assert(keys_view(keys@).take(0) =~= Seq::<Seq<u8>>::empty());
            assert(old(writer)@ + csv_header(Seq::<Seq<u8>>::empty()) =~= old(writer)@);
        }
        while i < keys.len()
            invariant
                i <= keys@.len(),
                needs_comma == (i > 0),
                writer@ == old(writer)@ + csv_header(keys_view(keys@).take(i as int)),
            decreases keys@.len() - i,
        {
            let key = keys[i].as_slice();
            let ghost before = writer@;
            if needs_comma {
                writer.push(0x2cu8);
            }
            needs_comma = true;
            if escape_csv::escape_is_necessary(key) {
                escape_csv::escape(key, writer);
            } else {
                write_all(writer, key);
            }
            proof {
                let ks = keys_view(keys@);
                assert(ks[i as int] == key@);
                assert(ks.take(i + 1).drop_last() =~= ks.take(i as int));
                assert(ks.take(i + 1).last() == key@);
                assert(writer@ =~= before + ((if i > 0 {
                    seq![0x2cu8]
                } else {
                    seq![]
                }) + csv_cell(key@)));
            }
            i += 1;
        }
        writer.push(0x0au8);
        proof {
            assert(keys_view(keys@).take(keys@.len() as int) =~= keys_view(keys@));
        }
    }
}

/// The keys as CSV fields, separated by commas.
pub open spec fn csv_header(keys: Seq<Seq<u8>>) -> Seq<u8>
    decreases keys.len(),
{
    if keys.len() == 0 {
        seq![]
    } else {
        csv_header(keys.drop_last()) + (if keys.len() > 1 {
            seq![0x2cu8]
        } else {
            seq![]
        }) + csv_cell(keys.last())
    }
}

/// `row` made `n` long: cut, or padded with empty ranges.
pub open spec fn resized_row(row: Seq<(usize, usize)>, n: int) -> Seq<(usize, usize)> {
    if n <= row.len() {
        row.take(n)
    } else {
        row + Seq::new((n - row.len()) as nat, |i: int| (0usize, 0usize))
    }
}

/// Writes a value as a CSV field.
fn write_csv_cell(writer: &mut Vec<u8>, value: &[u8])
    ensures
        final(writer)@ == old(writer)@ + csv_cell(value@),
{
    if escape_csv::escape_is_necessary(value) {
        escape_csv::escape(value, writer);
    } else {
        write_all(writer, value);
    }
}

impl Output for OutputCsv {
    /// Whether atoms are written as sexps, and the range of each key's value
    /// on the current line (empty when none was selected).
    type Model = (bool, Seq<(usize, usize)>);

    closed spec fn model(&self) -> Self::Model {
        (self.atoms_as_sexps, self.row@)
    }

    open spec fn spec_reset(m: Self::Model, keys: Seq<Seq<u8>>) -> Self::Model {
        (m.0, resized_row(m.1, keys.len() as int))
    }

    open spec fn select_ok(
        m: Self::Model,
        keys: Seq<Seq<u8>>,
        key_id: int,
        input: Seq<u8>,
        offset: int,
        start: int,
        end: int,
    ) -> bool {
        0 <= key_id < m.1.len()
    }

    open spec fn spec_select(
        m: Self::Model,
        keys: Seq<Seq<u8>>,
        key_id: int,
        input: Seq<u8>,
        offset: int,
        start: int,
        end: int,
        has_output_on_line: bool,
    ) -> (Self::Model, Seq<u8>) {
        if 0 <= key_id < m.1.len() {
            ((m.0, m.1.update(key_id, (start as usize, end as usize))), seq![])
        } else {
            (m, seq![])
        }
    }

    open spec fn eol_ok(m: Self::Model, input: Seq<u8>, offset: int) -> bool {
        forall|k: int| 0 <= k < m.1.len() ==> csv_field_ok(m.0, #[trigger] m.1[k], input, offset)
    }

    open spec fn spec_eol(m: Self::Model, input: Seq<u8>, offset: int) -> (Self::Model, Seq<u8>) {
        (
            (m.0, Seq::new(m.1.len(), |k: int| (0usize, 0usize))),
            csv_row(m.0, m.1, input, offset) + seq![0x0au8],
        )
    }

    open spec fn ranges_within(m: Self::Model, lo: int, hi: int) -> bool {
        forall|k: int| 0 <= k < m.1.len() && #[trigger] m.1[k].0 < m.1[k].1 ==> lo <= m.1[k].0 && m.1[k].1 <= hi
    }

    open spec fn no_ranges(m: Self::Model) -> bool {
        forall|k: int| 0 <= k < m.1.len() ==> #[trigger] m.1[k].0 >= m.1[k].1
    }

    proof fn lemma_ranges(m: Self::Model, lo: int, hi: int, lo2: int, hi2: int) {
    }

    proof fn lemma_select_window(
        m: Self::Model,
        keys: Seq<Seq<u8>>,
        key_id: int,
        t: Seq<u8>,
        start: int,
        len: int,
        s: int,
        e: int,
        has: bool,
    ) {
        let row2 = m.1.update(key_id, (s as usize, e as usize));
        if Self::ranges_within(m, start, e) && 0 <= key_id < m.1.len() {
            assert forall|k: int| 0 <= k < row2.len() && #[trigger] row2[k].0 < row2[k].1 implies start <= row2[k].0
                && row2[k].1 <= e by {
                if k != key_id {
                    assert(row2[k] == m.1[k]);
                }
            }
        }
    }

    proof fn lemma_eol_window(m: Self::Model, t: Seq<u8>, start: int, len: int) {
        lemma_csv_row_window(m.0, m.1, t, start, len);
    }

    fn reset(&mut self, keys: &Vec<Vec<u8>>) {
        let n = keys.len();
        if n <= self.row.len() {
            self.row.truncate(n);
        } else {
            while self.row.len() < n
                invariant
                    self.row@.len() <= n,
                    self.atoms_as_sexps == old(self).atoms_as_sexps,
                    old(self).row@.len() < n,
                    self.row@.len() >= old(self).row@.len(),
                    self.row@ == old(self).row@ + Seq::new(
                        (self.row@.len() - old(self).row@.len()) as nat,
                        |i: int| (0usize, 0usize),
                    ),
                decreases n - self.row@.len(),
            {
                let ghost before = self.row@;
                self.row.push((0, 0));
                assert(self.row@ =~= old(self).row@ + Seq::new(
                    (self.row@.len() - old(self).row@.len()) as nat,
                    |i: int| (0usize, 0usize),
                ));
            }
        }
        proof {
            assert(keys_view(keys@).len() == n);
            assert(self.row@ =~= resized_row(old(self).row@, n as int));
        }
    }

    fn select(
        &mut self,
        _writer: &mut Vec<u8>,
        _keys: &Vec<Vec<u8>>,
        key_id: usize,
        _input: &Input,
        value_range: (usize, usize),
        _has_output_on_line: bool,
    ) {
        self.row.set(key_id, value_range);
        assert(_writer@ =~= old(_writer)@ + Seq::<u8>::empty());
    }

    fn eol(&mut self, writer: &mut Vec<u8>, input: &Input) {
        let ghost row0 = self.row@;
        let ghost w0 = writer@;
        let aas = self.atoms_as_sexps;
        let mut needs_comma = false;
        let mut i: usize = 0;
        proof {
            assert(old(self).model() == (aas, row0));
            assert forall|k: int| 0 <= k < row0.len() implies csv_field_ok(aas, #[trigger] row0[k], input.input@, input.offset as int) by {
                assert(old(self).model().1[k] == row0[k]);
            }
            assert(row0.take(0) =~= Seq::<(usize, usize)>::empty());
            assert(w0 + csv_row(aas, Seq::<(usize, usize)>::empty(), input.input@, input.offset as int) =~= w0);
        }
        while i < self.row.len()
            invariant
                aas == self.atoms_as_sexps,
                self.atoms_as_sexps == old(self).atoms_as_sexps,
                row0 == old(self).row@,
                w0 == old(writer)@,
                self.row@.len() == row0.len(),
                i <= row0.len(),
                needs_comma == (i > 0),
                forall|k: int| 0 <= k < i ==> self.row@[k] == (0usize, 0usize),
                forall|k: int| i <= k < row0.len() ==> self.row@[k] == row0[k],
                forall|k: int| 0 <= k < row0.len() ==> csv_field_ok(aas, #[trigger] row0[k], input.input@, input.offset as int),
                writer@ == w0 + csv_row(aas, row0.take(i as int), input.input@, input.offset as int),
            decreases row0.len() - i,
        {
            let ghost before = writer@;
            let value_range = self.row[i];
            assert(csv_field_ok(aas, row0[i as int], input.input@, input.offset as int));
            if needs_comma {
                writer.push(0x2cu8);
            }
            needs_comma = true;
            let ghost after_comma = writer@;
            if value_range.0 < value_range.1 {
                let value = &input.input[(value_range.0 - input.offset)..(value_range.1 - input.offset)];
                if !aas && value[0] == 0x22u8 {
                    // quoted atom -> plain string -> quoted CSV.
                    let mut plain_string: Vec<u8> = vec![0u8; value.len()];
                    let quoted = &value[1..value.len()];
                    let res = escape::GenericUnescape::new().unescape(quoted, plain_string.as_mut_slice());
                    match res {
                        Some((_, plain_string_len)) => {
                            plain_string.truncate(plain_string_len);
                            write_csv_cell(writer, plain_string.as_slice());
                            proof {
                                assert(quoted@ =~= value@.skip(1));
                            }
                        },
                        None => {
                            proof {
                                assert(quoted@ =~= value@.skip(1));
                                assert(false);
                            }
                        },
                    }
                } else {
                    write_csv_cell(writer, value);
                }
            }
            self.row.set(i, (0, 0));
            proof {
                let t = row0.take(i + 1);
                assert(t.drop_last() =~= row0.take(i as int));
                assert(t.last() == row0[i as int]);
                assert(writer@ =~= w0 + csv_row(aas, t, input.input@, input.offset as int));
            }
            i += 1;
        }
        writer.push(0x0au8);
        proof {
            assert(row0.take(row0.len() as int) =~= row0);
            assert(self.row@ =~= Seq::new(row0.len(), |k: int| (0usize, 0usize)));
        }
    }
}

/// The id of key `k`: the last position at which it is among the first
/// `n` keys.
pub open spec fn lookup_key_in(keys: Seq<Seq<u8>>, k: Seq<u8>, n: int) -> Option<u32>
    decreases n,
{
    if n <= 0 {
        None
    } else if keys[n - 1] == k {
        Some((n - 1) as u32)
    } else {
        lookup_key_in(keys, k, n - 1)
    }
}

/// The id of key `k`, if it is one of the keys.
pub open spec fn lookup_key(keys: Seq<Seq<u8>>, k: Seq<u8>) -> Option<u32> {
    lookup_key_in(keys, k, keys.len() as int)
}

/// The state of the innermost open list once an element that starts at
/// `this_index` is met, whose key (if it is an atom at the start of the
/// list) is looked up with `key`.
pub open spec fn next_state(st: State, this_index: int, key: Option<u32>) -> State {
    match st {
        State::SelectNext(key_id) => State::Selected(key_id, this_index as usize),
        State::Selected(_, _) => State::Ignore,
        State::Start => match key {
            None => State::Ignore,
            Some(key_id) => State::SelectNext(key_id),
        },
        State::Ignore => State::Ignore,
    }
}

/// The stack with its top, if any, moved on by `next_state`.
pub open spec fn step_top(stack: Seq<State>, this_index: int, key: Option<u32>) -> Seq<State> {
    if stack.len() == 0 {
        stack
    } else {
        stack.update(stack.len() - 1, next_state(stack.last(), this_index, key))
    }
}

/// The key that the atom `this_index..next_index` of the window stands for.
pub open spec fn atom_key(keys: Seq<Seq<u8>>, input: Seq<u8>, offset: int, this_index: int, next_index: int) -> Option<u32> {
    let ch = input[this_index - offset];
    if ch == 0x22u8 {
        match spec_unescape(window_bytes(input, offset, this_index + 1, next_index)) {
            Some((_, out)) => lookup_key(keys, out),
            None => None,
        }
    } else {
        lookup_key(keys, window_bytes(input, offset, this_index, next_index))
    }
}

/// Selects, from each top-level list of key/value lists, the values of the
/// given keys, and writes them with an [`Output`].
pub struct Stage2<OutputT> {
    // varying
    stack: Vec<State>,
    has_output_on_line: bool,
    // static
    output: OutputT,
    select_vec: Vec<Vec<u8>>,
    unescape: escape::GenericUnescape,
}

impl<OutputT: Output> Stage2<OutputT> {
    pub fn new(select_vec: Vec<Vec<u8>>, output: OutputT) -> (r: Self)
        requires
            select_vec@.len() <= u32::MAX + 1,
        ensures
            r.inv(),
            r.model() == (Seq::<State>::empty(), false, output.model(), keys_view(select_vec@)),
    {
        let r = Self {
            stack: Vec::with_capacity(64),
            has_output_on_line: false,
            output,
            select_vec,
            unescape: escape::GenericUnescape::new(),
        };
        assert(r.stack@ =~= Seq::<State>::empty());
        r
    }

    /// The id of `key`, as `lookup_key` says: the index of the last key
    /// equal to it. The keys are kept in a vector and searched from the end,
    /// so that a repeated key keeps its last id, as an ordered map filled in
    /// key order would. With byte-string keys, vstd's specifications of
    /// the std maps let nothing be proved of a lookup, so a map here would
    /// leave this function's contract without support.
    fn lookup(&self, key: &[u8]) -> (r: Option<u32>)
        requires
            self.inv(),
        ensures
            r == lookup_key(keys_view(self.select_vec@), key@),
    {
        let ghost keys = keys_view(self.select_vec@);
        let mut n: usize = self.select_vec.len();
        while n > 0
            invariant
                n <= self.select_vec@.len(),
                self.select_vec@.len() <= u32::MAX + 1,
                keys == keys_view(self.select_vec@),
                lookup_key(keys, key@) == lookup_key_in(keys, key@, n as int),
            decreases n,
        {
            let candidate = self.select_vec[n - 1].as_slice();
            assert(keys[n - 1] == candidate@);
            if bytes_equal(candidate, key) {
                return Some((n - 1) as u32);
            }
            n = n - 1;
        }
        None
    }
}

/// Whether two byte strings are the same.
fn bytes_equal(a: &[u8], b: &[u8]) -> (r: bool)
    ensures
        r == (a@ == b@),
{
    if a.len() != b.len() {
        return false;
    }
    let mut i: usize = 0;
    while i < a.len()
        invariant
            i <= a@.len(),
            a@.len() == b@.len(),
            forall|j: int| 0 <= j < i ==> a@[j] == b@[j],
        decreases a@.len() - i,
    {
        if a[i] != b[i] {
            return false;
        }
        i += 1;
    }
    assert(a@ =~= b@);
    true
}

/// The top of the stack moved on for an element that starts at `this_index`.
fn step_stack_top(stack: &mut Vec<State>, this_index: usize, key: Option<u32>)
    ensures
        final(stack)@ == step_top(old(stack)@, this_index as int, key),
{
    let n = stack.len();
    if n > 0 {
        let top = stack[n - 1];
        let next = match top {
            State::SelectNext(key_id) => State::Selected(key_id, this_index),
            State::Selected(_, _) => State::Ignore,
            State::Start => match key {
                None => State::Ignore,
                Some(key_id) => State::SelectNext(key_id),
            },
            State::Ignore => State::Ignore,
        };
        stack.set(n - 1, next);
    }
}

impl<OutputT: Output> WritingStage2 for Stage2<OutputT> {
    /// The stack of list states, whether the current line has output, the
    /// output's model, and the keys.
    type Model = (Seq<State>, bool, OutputT::Model, Seq<Seq<u8>>);

    closed spec fn inv(&self) -> bool {
        self.select_vec@.len() <= u32::MAX + 1
    }

    closed spec fn model(&self) -> Self::Model {
        (self.stack@, self.has_output_on_line, self.output.model(), keys_view(self.select_vec@))
    }

    open spec fn spec_reset(m: Self::Model) -> Self::Model {
        (m.0, m.1, OutputT::spec_reset(m.2, m.3), m.3)
    }

    open spec fn spec_process_one(
        m: Self::Model,
        input: Seq<u8>,
        offset: int,
        this_index: int,
        next_index: int,
        is_eof: bool,
    ) -> Result<(Self::Model, int, Seq<u8>), Error> {
        let (stack, has, out, keys) = m;
        let ch = input[this_index - offset];
        let keep = if stack.len() == 0 {
            next_index
        } else {
            offset
        };
        if ch == 0x28u8 {
            Ok(((step_top(stack, this_index, None).push(State::Start), has, out, keys), keep, seq![]))
        } else if ch == 0x29u8 {
            if stack.len() == 0 {
                Err(Error::UnmatchedCloseParen)
            } else {
                let rest = stack.drop_last();
                let (out1, bytes1, has1) = match stack.last() {
                    State::Selected(key_id, start) => {
                        let (o, b) = OutputT::spec_select(
                            out,
                            keys,
                            key_id as int,
                            input,
                            offset,
                            start as int,
                            this_index,
                            has,
                        );
                        (o, b, true)
                    },
                    _ => (out, seq![], has),
                };
                if rest.len() == 0 && has1 {
                    let (out2, bytes2) = OutputT::spec_eol(out1, input, offset);
                    Ok(((rest, false, out2, keys), keep, bytes1 + bytes2))
                } else {
                    Ok(((rest, has1, out1, keys), keep, bytes1))
                }
            }
        } else if ch == 0x20u8 || ch == 0x09u8 || ch == 0x0au8 {
            Ok((m, keep, seq![]))
        } else if is_eof && ch == 0x22u8 && spec_unescape(
            window_bytes(input, offset, this_index + 1, next_index),
        ) is None {
            Err(Error::BadQuotedAtom)
        } else {
            let key = if stack.len() > 0 && stack.last() == State::Start {
                atom_key(keys, input, offset, this_index, next_index)
            } else {
                None
            };
            Ok(((step_top(stack, this_index, key), has, out, keys), keep, seq![]))
        }
    }

    open spec fn spec_process_one_ok(
        m: Self::Model,
        input: Seq<u8>,
        offset: int,
        this_index: int,
        next_index: int,
        is_eof: bool,
    ) -> bool {
        let (stack, has, out, keys) = m;
        let ch = input[this_index - offset];
        ch == 0x29u8 && stack.len() > 0 ==> {
            let rest = stack.drop_last();
            match stack.last() {
                State::Selected(key_id, start) => {
                    &&& OutputT::select_ok(out, keys, key_id as int, input, offset, start as int, this_index)
                    &&& rest.len() == 0 ==> OutputT::eol_ok(
                        OutputT::spec_select(
                            out,
                            keys,
                            key_id as int,
                            input,
                            offset,
                            start as int,
                            this_index,
                            has,
                        ).0,
                        input,
                        offset,
                    )
                },
                _ => rest.len() == 0 && has ==> OutputT::eol_ok(out, input, offset),
            }
        }
    }

    open spec fn spec_process_eof(m: Self::Model) -> Result<Seq<u8>, Error> {
        if m.0.len() > 0 {
            Err(Error::UnmatchedOpenParen)
        } else {
            Ok(seq![])
        }
    }

    proof fn lemma_keep_bounds(
        m: Self::Model,
        input: Seq<u8>,
        offset: int,
        this_index: int,
        next_index: int,
        is_eof: bool,
    ) {
    }

    fn reset(&mut self) {
        self.output.reset(&self.select_vec);
    }

    fn process_one(
        &mut self,
        writer: &mut Vec<u8>,
        input: Input,
        this_index: usize,
        next_index: usize,
        is_eof: bool,
    ) -> (r: Result<usize, Error>) {
        let ch = input.input[this_index - input.offset];
        let input_index_to_keep = if self.stack.len() == 0 {
            next_index
        } else {
            input.offset
        };
        if ch == 0x28u8 {
            step_stack_top(&mut self.stack, this_index, None);
            self.stack.push(State::Start);
            assert(writer@ =~= old(writer)@ + Seq::<u8>::empty());
        } else if ch == 0x29u8 {
            let ghost stack0 = self.stack@;
            match self.stack.pop() {
                Some(State::Selected(key_id, start_offset)) => {
                    self.output.select(writer, &self.select_vec, key_id as usize, &input, (start_offset, this_index), self.has_output_on_line);
                    self.has_output_on_line = true;
                },
                None => {
                    return Err(Error::UnmatchedCloseParen);
                },
                Some(_) => {
                    assert(writer@ =~= old(writer)@ + Seq::<u8>::empty());
                },
            }
            proof {
                assert(self.stack@ =~= stack0.drop_last());
            }
            let ghost w1 = writer@;
            if self.stack.len() == 0 && self.has_output_on_line {
                self.output.eol(writer, &input);
                self.has_output_on_line = false;
            }
        } else if ch == 0x20u8 || ch == 0x09u8 || ch == 0x0au8 {
            assert(writer@ =~= old(writer)@ + Seq::<u8>::empty());
        } else {
            if is_eof && ch == 0x22u8 {
                // We have to attempt to unescape the last atom just to
                // check validity.
                let quoted = &input.input[(this_index + 1 - input.offset)..(next_index - input.offset)];
                let span = next_index - this_index;
                let mut out: Vec<u8> = vec![0u8; span];
                let checked = escape::GenericUnescape::new().unescape(quoted, out.as_mut_slice());
                if checked.is_none() {
                    return Err(Error::BadQuotedAtom);
                }
            }
            let n = self.stack.len();
            let key = if n > 0 && self.stack[n - 1] == State::Start {
                if ch == 0x22u8 {
                    let quoted = &input.input[(this_index + 1 - input.offset)..(next_index - input.offset)];
                    let span = next_index - this_index;
                    let mut buf: Vec<u8> = vec![0u8; span];
                    let res = self.unescape.unescape(quoted, buf.as_mut_slice());
                    match res {
                        Some((_, output_len)) => {
                            let name = &buf.as_slice()[0..output_len];
                            self.lookup(name)
                        },
                        None => None,
                    }
                } else {
                    self.lookup(&input.input[(this_index - input.offset)..(next_index - input.offset)])
                }
            } else {
                None
            };
            step_stack_top(&mut self.stack, this_index, key);
            assert(writer@ =~= old(writer)@ + Seq::<u8>::empty());
        }
        Ok(input_index_to_keep)
    }

    fn process_eof(&mut self, _writer: &mut Vec<u8>) -> (r: Result<(), Error>) {
        if self.stack.len() > 0 {
            return Err(Error::UnmatchedOpenParen);
        }
        assert(_writer@ =~= old(_writer)@ + Seq::<u8>::empty());
        Ok(())
    }
}

/// A selecting parser, for one of the kinds of output.
pub enum SelectParser {
    Values(parser::State<structural::Generic, WritingStage2Adapter<Stage2<OutputValues>>>),
    Labeled(parser::State<structural::Generic, WritingStage2Adapter<Stage2<OutputLabeled>>>),
    Csv(parser::State<structural::Generic, WritingStage2Adapter<Stage2<OutputCsv>>>),
}

/// Whether `p` is a parser that has seen no input yet, whose selector has
/// the keys `keys` and whose output is in model `out`.
pub open spec fn fresh_select_parser<OutputT: Output>(
    p: parser::State<structural::Generic, WritingStage2Adapter<Stage2<OutputT>>>,
    keys: Seq<Seq<u8>>,
    out: OutputT::Model,
) -> bool {
    &&& p.wf()
    &&& p.stream_inv()
    &&& p.stage2_model() == ((Seq::<State>::empty(), false, out, keys), Seq::<u8>::empty())
    &&& p.scan_state() == structural::initial_scan_state()
    &&& p.stream_scan() == structural::initial_scan_state()
    &&& p.consumed() == Seq::<u8>::empty()
}

/// A parser that selects the values of `keys` and writes them as
/// `output_kind` says, together with what has to be written before any
/// input: the header line, for CSV.
pub fn make_parser(keys: Vec<Vec<u8>>, output_kind: OutputKind) -> (r: (Vec<u8>, SelectParser))
    requires
        keys@.len() <= u32::MAX + 1,
    ensures
        r.0@ == match output_kind {
            OutputKind::Csv { .. } => csv_header(keys_view(keys@)) + seq![0x0au8],
            _ => Seq::<u8>::empty(),
        },
        match output_kind {
            OutputKind::Values => r.1 matches SelectParser::Values(p) && fresh_select_parser(
                p,
                keys_view(keys@),
                (),
            ),
            OutputKind::Labeled => r.1 matches SelectParser::Labeled(p) && fresh_select_parser(
                p,
                keys_view(keys@),
                (),
            ),
            OutputKind::Csv { atoms_as_sexps } => r.1 matches SelectParser::Csv(p) && fresh_select_parser(
                p,
                keys_view(keys@),
                (atoms_as_sexps, Seq::<(usize, usize)>::empty()),
            ),
        },
{
    let mut header: Vec<u8> = Vec::new();
    match output_kind {
        OutputKind::Values => {
            let parser = parser::parser_from_writing_stage2(Stage2::new(keys, OutputValues::new()));
            (header, SelectParser::Values(parser))
        },
        OutputKind::Labeled => {
            let parser = parser::parser_from_writing_stage2(Stage2::new(keys, OutputLabeled::new()));
            (header, SelectParser::Labeled(parser))
        },
        OutputKind::Csv { atoms_as_sexps } => {
            OutputCsv::print_header(&keys, &mut header);
            assert(header@ =~= csv_header(keys_view(keys@)) + seq![0x0au8]);
            let parser = parser::parser_from_writing_stage2(Stage2::new(keys, OutputCsv::new(atoms_as_sexps)));
            (header, SelectParser::Csv(parser))
        },
    }
}


/// Law: a labeled selection writes the list of the key and the value: an
/// open paren for the line when it is the first selection on it, then an
/// open paren, the key, a space, the value and a close paren.
pub proof fn lemma_labeled_selection(
    keys: Seq<Seq<u8>>,
    key_id: int,
    input: Seq<u8>,
    offset: int,
    start: int,
    end: int,
    has_output_on_line: bool,
)
    requires
        0 <= key_id < keys.len(),
    ensures
        ({
            let w = OutputLabeled::spec_select((), keys, key_id, input, offset, start, end, has_output_on_line).1;
            let k = keys[key_id];
            let v = window_bytes(input, offset, start, end);
            let p: int = if has_output_on_line {
                0
            } else {
                1
            };
            &&& w.len() == p + k.len() + v.len() + 3
            &&& forall|j: int| 0 <= j <= p ==> w[j] == 0x28u8
            &&& w.subrange(p + 1, p + 1 + k.len()) == k
            &&& w[p + 1 + k.len()] == 0x20u8
            &&& w.subrange(p + 2 + k.len(), p + 2 + k.len() + v.len()) == v
            &&& w[w.len() - 1] == 0x29u8
        }),
{
    let w = OutputLabeled::spec_select((), keys, key_id, input, offset, start, end, has_output_on_line).1;
    let k = keys[key_id];
    let v = window_bytes(input, offset, start, end);
    let p: int = if has_output_on_line {
        0
    } else {
        1
    };
    assert(w.subrange(p + 1, p + 1 + k.len()) =~= k);
    assert(w.subrange(p + 2 + k.len(), p + 2 + k.len() + v.len()) =~= v);
}

} // verus!
