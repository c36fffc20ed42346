use vstd::prelude::*;
use crate::escape::{escape, escape_is_necessary, needs_escape, spec_escape};
use crate::visitor::{ReadEvent, ReadVisitable, ReadVisitor, run_events};

verus! {

/// Whether an atom has to be written quoted.
pub open spec fn atom_needs_quotes(atom: Seq<u8>) -> bool {
    exists|i: int| 0 <= i < atom.len() && #[trigger] needs_escape(atom[i])
}

/// What the generator writes for one event, given whether a naked atom
/// written now needs a space before it; and whether the next one will.
pub open spec fn generate_event(needs_space: bool, e: ReadEvent) -> (Seq<u8>, bool) {
    match e {
        ReadEvent::Reset => (Seq::empty(), false),
        ReadEvent::Atom(a) => if atom_needs_quotes(a) {
            (seq![0x22u8] + spec_escape(a) + seq![0x22u8], false)
        } else if needs_space {
            (seq![0x20u8] + a, true)
        } else {
            (a, true)
        },
        ReadEvent::ListOpen => (seq![0x28u8], false),
        ReadEvent::ListClose => (seq![0x29u8], false),
        ReadEvent::Eof => (Seq::empty(), needs_space),
    }
}

/// Writes the sexps it visits in their shortest text form: lists in
/// parens, atoms naked where they can be, with a single space between two
/// naked atoms, and quoted and escaped otherwise.
pub struct Generator {
    writer: Vec<u8>,
    // varying
    needs_space_before_naked_atom: bool,
}

impl Generator {
    /// A generator that appends to `writer`.
    pub fn new(writer: Vec<u8>) -> (r: Self)
        ensures
            r.model() == (writer@, false),
    {
        Self { writer, needs_space_before_naked_atom: false }
    }

    /// The bytes written, after those the generator started with.
    pub fn into_output(self) -> (r: Vec<u8>)
        ensures
            r@ == self.model().0,
    {
        self.writer
    }

    fn write_all(&mut self, bytes: &[u8])
        ensures
            final(self).needs_space_before_naked_atom == old(self).needs_space_before_naked_atom,
            final(self).writer@ == old(self).writer@ + bytes@,
    {
        let mut i: usize = 0;
        while i < bytes.len()
            invariant
                i <= bytes@.len(),
                self.needs_space_before_naked_atom == old(self).needs_space_before_naked_atom,
                self.writer@ == old(self).writer@ + bytes@.take(i as int),
            decreases bytes@.len() - i,
        {
            self.writer.push(bytes[i]);
            assert(bytes@.take(i + 1) =~= bytes@.take(i as int).push(bytes@[i as int]));
            i += 1;
        }
        assert(bytes@.take(bytes@.len() as int) =~= bytes@);
    }
}

impl ReadVisitor for Generator {
    /// The bytes written so far, and whether a naked atom written next
    /// needs a space before it.
    type Model = (Seq<u8>, bool);

    closed spec fn model(&self) -> Self::Model {
        (self.writer@, self.needs_space_before_naked_atom)
    }

    open spec fn spec_event(m: Self::Model, e: ReadEvent) -> Self::Model {
        let (out, ns) = generate_event(m.1, e);
        (m.0 + out, ns)
    }

    fn reset(&mut self) {
        self.needs_space_before_naked_atom = false;
        assert(self.writer@ =~= self.writer@ + Seq::<u8>::empty());
    }

    fn atom(&mut self, atom: &[u8]) {
        if escape_is_necessary(atom) {
            self.write_all(&[0x22u8]);
            let escaped = escape(atom);
            self.write_all(escaped.as_slice());
            self.write_all(&[0x22u8]);
            self.needs_space_before_naked_atom = false;
        } else {
            if self.needs_space_before_naked_atom {
                self.write_all(&[0x20u8]);
            }
            self.write_all(atom);
            self.needs_space_before_naked_atom = true;
        }
        assert(self.writer@ =~= old(self).writer@ + generate_event(old(self).needs_space_before_naked_atom, ReadEvent::Atom(atom@)).0);
    }

    fn list_open(&mut self) {
        let open: [u8; 1] = [0x28u8];
        assert(open@ =~= seq![0x28u8]);
        self.write_all(&open);
        self.needs_space_before_naked_atom = false;
    }

    fn list_close(&mut self) {
        let close: [u8; 1] = [0x29u8];
        assert(close@ =~= seq![0x29u8]);
        self.write_all(&close);
        self.needs_space_before_naked_atom = false;
    }

    fn eof(&mut self) {
        assert(self.writer@ =~= self.writer@ + Seq::<u8>::empty());
    }
}

/// Whether every byte is ASCII.
pub open spec fn is_ascii(s: Seq<u8>) -> bool {
    forall|i: int| 0 <= i < s.len() ==> s[i] < 0x80u8
}

/// The characters of an ASCII text.
pub open spec fn ascii_chars(s: Seq<u8>) -> Seq<char> {
    s.map_values(|b: u8| b as char)
}

/// `String::from_utf8`: on ASCII bytes it succeeds, with one character per
/// byte.
#[verifier::external_body]
fn string_from_ascii(bytes: Vec<u8>) -> (r: String)
    requires
        is_ascii(bytes@),
    ensures
        r@ == ascii_chars(bytes@),
{
    String::from_utf8(bytes).unwrap()
}

proof fn lemma_escape_ascii(a: Seq<u8>)
    ensures
        is_ascii(spec_escape(a)),
    decreases a.len(),
{
    if a.len() > 0 {
        lemma_escape_ascii(a.drop_last());
        let c = a.last();
        assert(crate::escape::dec_char(c / 100) < 0x80u8);
        assert(crate::escape::dec_char((c / 10) % 10) < 0x80u8);
        assert(crate::escape::dec_char(c % 10) < 0x80u8);
        let e = crate::escape::escape_byte(c);
        assert(is_ascii(e));
    }
}

proof fn lemma_generate_ascii(needs_space: bool, e: ReadEvent)
    ensures
        is_ascii(generate_event(needs_space, e).0),
{
    match e {
        ReadEvent::Atom(a) => {
            if atom_needs_quotes(a) {
                lemma_escape_ascii(a);
            } else {
                assert forall|i: int| 0 <= i < a.len() implies a[i] < 0x80u8 by {
                    assert(!needs_escape(a[i]));
                }
            }
        },
        _ => {},
    }
}

proof fn lemma_run_ascii(m: (Seq<u8>, bool), events: Seq<ReadEvent>)
    requires
        is_ascii(m.0),
    ensures
        is_ascii(run_events::<Generator>(m, events).0),
    decreases events.len(),
{
    if events.len() > 0 {
        lemma_run_ascii(m, events.drop_last());
        let m1 = run_events::<Generator>(m, events.drop_last());
        lemma_generate_ascii(m1.1, events.last());
    }
}

/// The text of `sexp`, as the generator writes it.
pub fn fmt<SexpT: ReadVisitable>(sexp: &SexpT) -> (r: String)
    requires
        sexp.visitable(),
    ensures
        r@ == ascii_chars(run_events::<Generator>((Seq::empty(), false), sexp.events()).0),
{
    let mut generator = Generator::new(Vec::new());
    sexp.visit(&mut generator);
    let output = generator.into_output();
    proof {
        lemma_run_ascii((Seq::empty(), false), sexp.events());
    }
    string_from_ascii(output)
}

} // verus!
