use vstd::prelude::*;
use crate::escape::{self, Unescape, escape_is_necessary, spec_escape, spec_unescape};
use crate::parser::{self, Error, Input, WritingStage2, WritingStage2Adapter};
use crate::rust_generator::atom_needs_quotes;
use crate::select::window_bytes;
use crate::structural;

verus! {

/// What printing an atom writes, given the nesting depth and whether a
/// naked atom needs a space before it; and whether the next one will. A
/// top-level atom ends its line.
pub open spec fn print_atom(atom: Seq<u8>, depth: int, needs_space: bool) -> (Seq<u8>, bool) {
    let (bytes, ns) = if atom_needs_quotes(atom) {
        (seq![0x22u8] + spec_escape(atom) + seq![0x22u8], false)
    } else if needs_space {
        (seq![0x20u8] + atom, true)
    } else {
        (atom, true)
    };
    if depth == 0 {
        (bytes + seq![0x0au8], false)
    } else {
        (bytes, ns)
    }
}

/// Prints the sexps of its input one per line, each in its shortest form.
pub struct Stage2 {
    unescape: escape::GenericUnescape,
    naked_atom_needs_space: bool,
    depth: usize,
}

impl Stage2 {
    pub fn new() -> (r: Self)
        ensures
            r.inv(),
            r.model() == (false, 0int),
    {
        Self { unescape: escape::GenericUnescape::new(), naked_atom_needs_space: false, depth: 0 }
    }

    fn write_all(writer: &mut Vec<u8>, bytes: &[u8])
        ensures
            final(writer)@ == old(writer)@ + bytes@,
    {
        let mut i: usize = 0;
        while i < bytes.len()
            invariant
                i <= bytes@.len(),
                writer@ == old(writer)@ + bytes@.take(i as int),
            decreases bytes@.len() - i,
        {
            writer.push(bytes[i]);
            assert(bytes@.take(i + 1) =~= bytes@.take(i as int).push(bytes@[i as int]));
            i += 1;
        }
        assert(bytes@.take(bytes@.len() as int) =~= bytes@);
    }

    fn output_atom(&mut self, writer: &mut Vec<u8>, atom: &[u8])
        ensures
            final(self).depth == old(self).depth,
            ({
                let (bytes, ns) = print_atom(atom@, old(self).depth as int, old(self).naked_atom_needs_space);
                final(writer)@ == old(writer)@ + bytes && final(self).naked_atom_needs_space == ns
            }),
    {
        if escape_is_necessary(atom) {
            writer.push(0x22u8);
            let escaped = escape::escape(atom);
            Self::write_all(writer, escaped.as_slice());
            writer.push(0x22u8);
            self.naked_atom_needs_space = false;
        } else {
            if self.naked_atom_needs_space {
                writer.push(0x20u8);
            }
            Self::write_all(writer, atom);
            self.naked_atom_needs_space = true;
        }
        if self.depth == 0 {
            writer.push(0x0au8);
            self.naked_atom_needs_space = false;
        }
        proof {
            let (bytes, ns) = print_atom(atom@, old(self).depth as int, old(self).naked_atom_needs_space);
            assert(writer@ =~= old(writer)@ + bytes);
        }
    }
}

impl WritingStage2 for Stage2 {
    /// Whether a naked atom written next needs a space before it, and the
    /// nesting depth.
    type Model = (bool, int);

    open spec fn inv(&self) -> bool {
        true
    }

    closed spec fn model(&self) -> Self::Model {
        (self.naked_atom_needs_space, self.depth as int)
    }

    open spec fn spec_reset(m: Self::Model) -> Self::Model {
        (false, 0)
    }

    open spec fn spec_process_one(
        m: Self::Model,
        input: Seq<u8>,
        offset: int,
        this_index: int,
        next_index: int,
        is_eof: bool,
    ) -> Result<(Self::Model, int, Seq<u8>), Error> {
        let (ns, depth) = m;
        let ch = input[this_index - offset];
        if ch == 0x28u8 {
            Ok(((false, depth + 1), next_index, seq![0x28u8]))
        } else if ch == 0x29u8 {
            Ok((
                (false, depth - 1),
                next_index,
                if depth - 1 == 0 {
                    seq![0x29u8, 0x0au8]
                } else {
                    seq![0x29u8]
                },
            ))
        } else if ch == 0x20u8 || ch == 0x09u8 || ch == 0x0au8 {
            Ok((m, next_index, seq![]))
        } else {
            let atom = if ch == 0x22u8 {
                match spec_unescape(window_bytes(input, offset, this_index + 1, next_index)) {
                    Some((_, out)) => out,
                    None => seq![],
                }
            } else {
                window_bytes(input, offset, this_index, next_index)
            };
            let (bytes, ns2) = print_atom(atom, depth, ns);
            Ok(((ns2, depth), next_index, bytes))
        }
    }

    open spec fn spec_process_one_ok(
        m: Self::Model,
        input: Seq<u8>,
        offset: int,
        this_index: int,
        next_index: int,
        is_eof: bool,
    ) -> bool {
        let ch = input[this_index - offset];
        &&& ch == 0x28u8 ==> m.1 < usize::MAX
        &&& ch == 0x29u8 ==> m.1 > 0
        &&& ch == 0x22u8 ==> spec_unescape(window_bytes(input, offset, this_index + 1, next_index)) is Some
    }

    open spec fn spec_process_eof(m: Self::Model) -> Result<Seq<u8>, Error> {
        Ok(seq![])
    }

    proof fn lemma_keep_bounds(
        m: Self::Model,
        input: Seq<u8>,
        offset: int,
        this_index: int,
        next_index: int,
        is_eof: bool,
    ) {
    }

    fn reset(&mut self) {
        self.naked_atom_needs_space = false;
        self.depth = 0;
    }

    fn process_one(
        &mut self,
        writer: &mut Vec<u8>,
        input: Input,
        this_index: usize,
        next_index: usize,
        _is_eof: bool,
    ) -> (r: Result<usize, Error>) {
        let ch = input.input[this_index - input.offset];
        if ch == 0x28u8 {
            writer.push(0x28u8);
            self.depth = self.depth + 1;
            self.naked_atom_needs_space = false;
            assert(writer@ =~= old(writer)@ + seq![0x28u8]);
        } else if ch == 0x29u8 {
            writer.push(0x29u8);
            self.depth = self.depth - 1;
            self.naked_atom_needs_space = false;
            if self.depth == 0 {
                writer.push(0x0au8);
                assert(writer@ =~= old(writer)@ + seq![0x29u8, 0x0au8]);
            } else {
                assert(writer@ =~= old(writer)@ + seq![0x29u8]);
            }
        } else if ch == 0x20u8 || ch == 0x09u8 || ch == 0x0au8 {
            assert(writer@ =~= old(writer)@ + Seq::<u8>::empty());
        } else if ch == 0x22u8 {
            let quoted = &input.input[(this_index + 1 - input.offset)..(next_index - input.offset)];
            let span = next_index - this_index;
            let mut buf: Vec<u8> = vec![0u8; span];
            let res = self.unescape.unescape(quoted, buf.as_mut_slice());
            match res {
                Some((_, output_index)) => {
                    let atom = &buf.as_slice()[0..output_index];
                    self.output_atom(writer, atom);
                },
                None => {
                    assert(false);
                },
            }
        } else {
            let atom = &input.input[(this_index - input.offset)..(next_index - input.offset)];
            self.output_atom(writer, atom);
        }
        Ok(next_index)
    }

    fn process_eof(&mut self, _writer: &mut Vec<u8>) -> (r: Result<(), Error>) {
        assert(_writer@ =~= old(_writer)@ + Seq::<u8>::empty());
        Ok(())
    }
}

/// A parser that prints the sexps of its input one per line; the result of
/// a parse is the text printed.
pub fn make() -> (r: parser::State<structural::Generic, WritingStage2Adapter<Stage2>>)
    ensures
        r.wf(),
        r.stream_inv(),
        r.stage2_model() == ((false, 0int), Seq::<u8>::empty()),
        r.scan_state() == structural::initial_scan_state(),
        r.stream_scan() == structural::initial_scan_state(),
        r.consumed() == Seq::<u8>::empty(),
{
    parser::parser_from_writing_stage2(Stage2::new())
}


/// Law: a printed atom reads back as that atom. An atom with a byte that
/// needs escaping (a terminator, a backslash, a control or non-ASCII byte)
/// is written as a double quote followed by a body that unescapes to
/// exactly the atom, up to a closing double quote that is the last byte
/// written for it. Any other atom is written as it is, after a space when
/// one is needed, and holds no space, tab, newline, paren or double quote.
/// At the top level a newline follows.
pub proof fn lemma_print_atom_reads_back(atom: Seq<u8>, depth: int, needs_space: bool)
    ensures
        ({
            let bytes = print_atom(atom, depth, needs_space).0;
            let body = if depth == 0 {
                bytes.drop_last()
            } else {
                bytes
            };
            &&& depth == 0 ==> bytes.len() > 0 && bytes.last() == 0x0au8
            &&& (exists|i: int| 0 <= i < atom.len() && #[trigger] escape::needs_escape(atom[i])) ==> {
                &&& body.len() >= 2
                &&& body[0] == 0x22u8
                &&& spec_unescape(body.skip(1)) == Some(((body.len() - 2) as int, atom))
            }
            &&& !(exists|i: int| 0 <= i < atom.len() && #[trigger] escape::needs_escape(atom[i])) ==> {
                &&& (body == atom || body == seq![0x20u8] + atom)
                &&& forall|i: int|
                    0 <= i < atom.len() ==> !(atom[i] == 0x20u8 || atom[i] == 0x09u8 || atom[i] == 0x0au8
                        || atom[i] == 0x28u8 || atom[i] == 0x29u8 || atom[i] == 0x22u8)
            }
        }),
{
    let bytes = print_atom(atom, depth, needs_space).0;
    let e = spec_escape(atom);
    if atom_needs_quotes(atom) {
        let q = seq![0x22u8] + e + seq![0x22u8];
        escape::lemma_unescape_escape(atom);
        assert(q.skip(1) =~= e + seq![0x22u8]);
        if depth == 0 {
            assert((q + seq![0x0au8]).drop_last() =~= q);
        }
    } else {
        assert forall|i: int| 0 <= i < atom.len() implies !(atom[i] == 0x20u8 || atom[i] == 0x09u8
            || atom[i] == 0x0au8 || atom[i] == 0x28u8 || atom[i] == 0x29u8 || atom[i] == 0x22u8) by {
            assert(!escape::needs_escape(atom[i]));
        }
        if depth == 0 {
            let b = if needs_space {
                seq![0x20u8] + atom
            } else {
                atom
            };
            assert((b + seq![0x0au8]).drop_last() =~= b);
        }
    }
}

} // verus!
