use vstd::prelude::*;
use crate::parser::ExtractPartialResult;
use crate::visitor::{Visitor, visitor_build, visitor_build_one};
use crate::rust_generator;
use crate::visitor::{
    self, ReadEvent, ReadVisitable, ReadVisitor, lemma_run_events_append, lemma_run_events_push,
    lemma_run_events_single, run_events,
};

verus! {

/// The value of a sexp: an atom's bytes, or a list's elements.
pub enum SexpView {
    Atom(Seq<u8>),
    List(Seq<SexpView>),
}

/// The events of a traversal of one sexp.
pub open spec fn sexp_events(x: SexpView) -> Seq<ReadEvent>
    decreases x,
{
    match x {
        SexpView::Atom(a) => seq![ReadEvent::Atom(a)],
        SexpView::List(l) => seq![ReadEvent::ListOpen] + sexps_events(l) + seq![ReadEvent::ListClose],
    }
}

/// The events of a traversal of a sequence of sexps, one after another.
pub open spec fn sexps_events(xs: Seq<SexpView>) -> Seq<ReadEvent>
    decreases xs,
{
    if xs.len() == 0 {
        seq![]
    } else {
        sexps_events(xs.drop_last()) + sexp_events(xs.last())
    }
}

pub proof fn lemma_sexps_events_push(xs: Seq<SexpView>, x: SexpView)
    ensures
        sexps_events(xs.push(x)) == sexps_events(xs) + sexp_events(x),
{
    assert(xs.push(x).drop_last() =~= xs);
}

/// The events of a whole traversal of a sequence of sexps.
pub open spec fn document_events(xs: Seq<SexpView>) -> Seq<ReadEvent> {
    seq![ReadEvent::Reset] + sexps_events(xs) + seq![ReadEvent::Eof]
}

pub enum Sexp {
    Atom(Vec<u8>),
    List(Vec<Sexp>),
}

impl Sexp {
    pub open spec fn view_list(l: Seq<Sexp>) -> Seq<SexpView>
        decreases l,
    {
        if l.len() == 0 {
            seq![]
        } else {
            Self::view_list(l.drop_last()).push(l.last().view_rec())
        }
    }

    pub open spec fn view_rec(self) -> SexpView
        decreases self,
    {
        match self {
            Sexp::Atom(a) => SexpView::Atom(a@),
            Sexp::List(l) => SexpView::List(Self::view_list(l@)),
        }
    }

    pub proof fn lemma_view_list_map(l: Seq<Sexp>)
        ensures
            Self::view_list(l) == l.map_values(|s: Sexp| s.view_rec()),
        decreases l.len(),
    {
        if l.len() > 0 {
            Self::lemma_view_list_map(l.drop_last());
            assert(l.map_values(|s: Sexp| s.view_rec()) =~= l.drop_last().map_values(
                |s: Sexp| s.view_rec(),
            ).push(l.last().view_rec()));
        } else {
            assert(l.map_values(|s: Sexp| s.view_rec()) =~= Seq::<SexpView>::empty());
        }
    }

    fn visit_internal<VisitorT: ReadVisitor>(&self, visitor: &mut VisitorT)
        ensures
            final(visitor).model() == run_events::<VisitorT>(
                old(visitor).model(),
                sexp_events(self.view_rec()),
            ),
        decreases self,
    {
        match self {
            Sexp::Atom(a) => {
                let ghost m0 = visitor.model();
                visitor.atom(a.as_slice());
                proof {
                    lemma_run_events_single::<VisitorT>(m0, ReadEvent::Atom(a@));
                }
            },
            Sexp::List(l) => {
                let ghost m0 = visitor.model();
                visitor.list_open();
                proof {
                    lemma_run_events_single::<VisitorT>(m0, ReadEvent::ListOpen);
                    assert(l@.take(0) =~= Seq::<Sexp>::empty());
                    assert(seq![ReadEvent::ListOpen] + sexps_events(Self::view_list(l@.take(0)))
                        =~= seq![ReadEvent::ListOpen]);
                }
                let mut i: usize = 0;
                while i < l.len()
                    invariant
                        i <= l@.len(),
                        *self == Sexp::List(*l),
                        visitor.model() == run_events::<VisitorT>(
                            m0,
                            seq![ReadEvent::ListOpen] + sexps_events(Self::view_list(l@.take(i as int))),
                        ),
                    decreases l@.len() - i,
                {
                    let ghost before = seq![ReadEvent::ListOpen] + sexps_events(Self::view_list(l@.take(i as int)));
                    proof {
                        let ll = *l;
                        assert(decreases_to!(*self => (*self)->List_0));
                        assert((*self)->List_0 == ll);
                        assert(decreases_to!(ll => ll@));
                        assert(decreases_to!(ll@ => ll@[i as int]));
                    }
                    l[i].visit_internal(visitor);
                    proof {
                        assert(l@.take(i + 1).drop_last() =~= l@.take(i as int));
                        lemma_sexps_events_push(Self::view_list(l@.take(i as int)), l@[i as int].view_rec());
                        lemma_run_events_append::<VisitorT>(m0, before, sexp_events(l@[i as int].view_rec()));
                        assert(before + sexp_events(l@[i as int].view_rec()) =~= seq![ReadEvent::ListOpen]
                            + sexps_events(Self::view_list(l@.take(i + 1))));
                    }
                    i += 1;
                }
                let ghost before = seq![ReadEvent::ListOpen] + sexps_events(Self::view_list(l@));
                assert(l@.take(l@.len() as int) =~= l@);
                visitor.list_close();
                proof {
                    lemma_run_events_push::<VisitorT>(m0, before, ReadEvent::ListClose);
                }
            },
        }
    }

    /// The text of the sexp.
    pub fn to_string(&self) -> (r: String)
        ensures
            r@ == rust_generator::ascii_chars(
                run_events::<rust_generator::Generator>(
                    (Seq::empty(), false),
                    document_events(seq![self.view_rec()]),
                ).0,
            ),
    {
        rust_generator::fmt(self)
    }
}

impl ReadVisitable for Sexp {
    open spec fn visitable(&self) -> bool {
        true
    }

    open spec fn events(&self) -> Seq<ReadEvent> {
        document_events(seq![self.view_rec()])
    }

    fn visit<VisitorT: ReadVisitor>(&self, visitor: &mut VisitorT) {
        let ghost m0 = visitor.model();
        visitor.reset();
        proof {
            lemma_run_events_single::<VisitorT>(m0, ReadEvent::Reset);
        }
        self.visit_internal(visitor);
        let ghost body = seq![ReadEvent::Reset] + sexp_events(self.view_rec());
        proof {
            lemma_run_events_append::<VisitorT>(m0, seq![ReadEvent::Reset], sexp_events(self.view_rec()));
        }
        visitor.eof();
        proof {
            lemma_run_events_push::<VisitorT>(m0, body, ReadEvent::Eof);
            lemma_sexps_events_push(Seq::empty(), self.view_rec());
            assert(Seq::<SexpView>::empty().push(self.view_rec()) =~= seq![self.view_rec()]);
            assert(sexps_events(Seq::<SexpView>::empty()) =~= Seq::<ReadEvent>::empty());
            assert(document_events(seq![self.view_rec()]) =~= body + seq![ReadEvent::Eof]);
        }
    }
}

/// A sequence of sexps, printed one after another.
pub struct SexpMulti(pub Vec<Sexp>);

impl ReadVisitable for SexpMulti {
    open spec fn visitable(&self) -> bool {
        true
    }

    open spec fn events(&self) -> Seq<ReadEvent> {
        document_events(Sexp::view_list(self.0@))
    }

    fn visit<VisitorT: ReadVisitor>(&self, visitor: &mut VisitorT) {
        let ghost m0 = visitor.model();
        visitor.reset();
        proof {
            lemma_run_events_single::<VisitorT>(m0, ReadEvent::Reset);
            assert(self.0@.take(0) =~= Seq::<Sexp>::empty());
            assert(seq![ReadEvent::Reset] + sexps_events(Sexp::view_list(self.0@.take(0)))
                =~= seq![ReadEvent::Reset]);
        }
        let mut i: usize = 0;
        while i < self.0.len()
            invariant
                i <= self.0@.len(),
                visitor.model() == run_events::<VisitorT>(
                    m0,
                    seq![ReadEvent::Reset] + sexps_events(Sexp::view_list(self.0@.take(i as int))),
                ),
            decreases self.0@.len() - i,
        {
            let ghost before = seq![ReadEvent::Reset] + sexps_events(Sexp::view_list(self.0@.take(i as int)));
            self.0[i].visit_internal(visitor);
            proof {
                assert(self.0@.take(i + 1).drop_last() =~= self.0@.take(i as int));
                lemma_sexps_events_push(Sexp::view_list(self.0@.take(i as int)), self.0@[i as int].view_rec());
                lemma_run_events_append::<VisitorT>(m0, before, sexp_events(self.0@[i as int].view_rec()));
                assert(before + sexp_events(self.0@[i as int].view_rec()) =~= seq![ReadEvent::Reset]
                    + sexps_events(Sexp::view_list(self.0@.take(i + 1))));
            }
            i += 1;
        }
        let ghost body = seq![ReadEvent::Reset] + sexps_events(Sexp::view_list(self.0@));
        assert(self.0@.take(self.0@.len() as int) =~= self.0@);
        visitor.eof();
        proof {
            lemma_run_events_push::<VisitorT>(m0, body, ReadEvent::Eof);
        }
    }
}

impl SexpMulti {
    /// The text of the sexps, one after another.
    pub fn to_string(&self) -> (r: String)
        ensures
            r@ == rust_generator::ascii_chars(
                run_events::<rust_generator::Generator>(
                    (Seq::empty(), false),
                    document_events(Sexp::view_list(self.0@)),
                ).0,
            ),
    {
        rust_generator::fmt(self)
    }
}

/// Builds [`Sexp`]s.
pub struct SexpFactory();

impl SexpFactory {
    pub fn new() -> Self {
        SexpFactory()
    }
}

impl visitor::SexpFactory for SexpFactory {
    type Sexp = Sexp;
    type SexpModel = SexpView;

    open spec fn sexp_model(s: Sexp) -> SexpView {
        s.view_rec()
    }

    open spec fn spec_atom(a: Seq<u8>) -> SexpView {
        SexpView::Atom(a)
    }

    open spec fn spec_list(xs: Seq<SexpView>) -> SexpView {
        SexpView::List(xs)
    }

    fn atom(&self, a: Vec<u8>) -> (r: Sexp) {
        Sexp::Atom(a)
    }

    fn list(&self, xs: Vec<Sexp>) -> (r: Sexp) {
        proof {
            Sexp::lemma_view_list_map(xs@);
            assert(xs@.map_values(|s: Sexp| <SexpFactory as visitor::SexpFactory>::sexp_model(s))
                =~= xs@.map_values(|s: Sexp| s.view_rec()));
        }
        Sexp::List(xs)
    }
}

/// The split-tape encoding of `xs`, with the atoms' bytes going on the
/// atom tape from index `base` on: an atom is its length times two and the
/// index of its bytes; a list is the length of its elements' encoding times
/// two plus one, followed by that encoding.
pub open spec fn split_encode(xs: Seq<SexpView>, base: int) -> (Seq<u32>, Seq<u8>)
    decreases xs,
{
    if xs.len() == 0 {
        (seq![], seq![])
    } else {
        let (t, a) = split_encode(xs.drop_last(), base);
        let (t2, a2) = split_encode_one(xs.last(), base + a.len());
        (t + t2, a + a2)
    }
}

pub open spec fn split_encode_one(x: SexpView, base: int) -> (Seq<u32>, Seq<u8>)
    decreases x,
{
    match x {
        SexpView::Atom(a) => (seq![(a.len() * 2) as u32, base as u32], a),
        SexpView::List(l) => {
            let (t, a) = split_encode(l, base);
            (seq![(t.len() * 2 + 1) as u32] + t, a)
        },
    }
}

/// Whether every number of the split-tape encoding of `xs` fits a `u32`.
pub open spec fn split_fits(xs: Seq<SexpView>, base: int) -> bool
    decreases xs,
{
    if xs.len() == 0 {
        true
    } else {
        split_fits(xs.drop_last(), base) && split_fits_one(
            xs.last(),
            base + split_encode(xs.drop_last(), base).1.len(),
        )
    }
}

pub open spec fn split_fits_one(x: SexpView, base: int) -> bool
    decreases x,
{
    match x {
        SexpView::Atom(a) => a.len() * 2 <= u32::MAX && 0 <= base <= u32::MAX,
        SexpView::List(l) => split_fits(l, base) && split_encode(l, base).0.len() * 2 + 1 <= u32::MAX,
    }
}

proof fn lemma_split_append(a: Seq<SexpView>, b: Seq<SexpView>, base: int)
    ensures
        split_encode(a + b, base) == ({
            let (ta, aa) = split_encode(a, base);
            let (tb, ab) = split_encode(b, base + aa.len());
            (ta + tb, aa + ab)
        }),
        split_fits(a + b, base) == (split_fits(a, base) && split_fits(
            b,
            base + split_encode(a, base).1.len(),
        )),
    decreases b.len(),
{
    if b.len() == 0 {
        assert(a + b =~= a);
        let (ta, aa) = split_encode(a, base);
        assert(ta + Seq::<u32>::empty() =~= ta);
        assert(aa + Seq::<u8>::empty() =~= aa);
    } else {
        lemma_split_append(a, b.drop_last(), base);
        assert((a + b).drop_last() =~= a + b.drop_last());
        assert((a + b).last() == b.last());
        let (ta, aa) = split_encode(a, base);
        let (tb, ab) = split_encode(b.drop_last(), base + aa.len());
        let (t1, a1) = split_encode_one(b.last(), base + aa.len() + ab.len());
        assert(ta + tb + t1 =~= ta + (tb + t1));
        assert(aa + ab + a1 =~= aa + (ab + a1));
    }
}

proof fn lemma_split_single(x: SexpView, base: int)
    ensures
        split_encode(seq![x], base) == split_encode_one(x, base),
        split_fits(seq![x], base) == split_fits_one(x, base),
{
    assert(seq![x].drop_last() =~= Seq::<SexpView>::empty());
    assert(seq![x].last() == x);
    assert(split_encode(Seq::<SexpView>::empty(), base) == (Seq::<u32>::empty(), Seq::<u8>::empty()));
    assert(split_fits(Seq::<SexpView>::empty(), base));
    let (t, a) = split_encode_one(x, base);
    assert(Seq::<u32>::empty() + t =~= t);
    assert(Seq::<u8>::empty() + a =~= a);
}

/// Taking the `k`-th sexp off the front of `xs.skip(k)`.
proof fn lemma_split_step(xs: Seq<SexpView>, k: int, base: int)
    requires
        0 <= k < xs.len(),
    ensures
        ({
            let tk = split_encode(xs.take(k), base);
            let ab = base + tk.1.len();
            let e1 = split_encode_one(xs[k], ab);
            let rest = split_encode(xs.skip(k + 1), ab + e1.1.len());
            &&& split_encode(xs.skip(k), ab) == (e1.0 + rest.0, e1.1 + rest.1)
            &&& split_fits(xs.skip(k), ab) == (split_fits_one(xs[k], ab) && split_fits(
                xs.skip(k + 1),
                ab + e1.1.len(),
            ))
            &&& split_encode(xs.take(k + 1), base) == (tk.0 + e1.0, tk.1 + e1.1)
            &&& split_fits(xs.take(k + 1), base) == (split_fits(xs.take(k), base) && split_fits_one(
                xs[k],
                ab,
            ))
        }),
{
    let tk = split_encode(xs.take(k), base);
    let ab = base + tk.1.len();
    assert(xs.skip(k) =~= seq![xs[k]] + xs.skip(k + 1));
    lemma_split_append(seq![xs[k]], xs.skip(k + 1), ab);
    lemma_split_single(xs[k], ab);
    assert(xs.take(k + 1) =~= xs.take(k) + seq![xs[k]]);
    lemma_split_append(xs.take(k), seq![xs[k]], base);
}

/**
Split tape representation (atoms are on a separate tape)
Atom: <len*2 as u32><offset as u32>
List: <len*2+1 as u32>Repr(X1)Repr(X2)...
*/
#[derive(Default)]
pub struct SplitTape {
    pub tape: Vec<u32>,
    pub atoms: Vec<u8>,
}

impl SplitTape {
    fn new() -> (r: Self)
        ensures
            r.tape@ == Seq::<u32>::empty(),
            r.atoms@ == Seq::<u8>::empty(),
    {
        Self { tape: Vec::new(), atoms: Vec::new() }
    }

    /// Whether the tapes hold the encoding of `xs`.
    pub open spec fn encodes(&self, xs: Seq<SexpView>) -> bool {
        &&& split_encode(xs, 0) == (self.tape@, self.atoms@)
        &&& split_fits(xs, 0)
    }

    /// Visits the sexps `xs` whose encoding is `tape[start..end]`, with
    /// their atoms' bytes from `atoms[base]` on.
    fn visit_range<VisitorT: ReadVisitor>(
        &self,
        visitor: &mut VisitorT,
        start: usize,
        end: usize,
        Ghost(xs): Ghost<Seq<SexpView>>,
        Ghost(base): Ghost<int>,
    )
        requires
            start <= end <= self.tape@.len(),
            self.tape@.subrange(start as int, end as int) == split_encode(xs, base).0,
            0 <= base,
            base + split_encode(xs, base).1.len() <= self.atoms@.len(),
            self.atoms@.subrange(base, base + split_encode(xs, base).1.len()) == split_encode(xs, base).1,
            split_fits(xs, base),
        ensures
            final(visitor).model() == run_events::<VisitorT>(old(visitor).model(), sexps_events(xs)),
        decreases end - start,
    {
        let ghost m0 = visitor.model();
        let mut i: usize = start;
        let ghost mut k: int = 0;
        proof {
            assert(xs.take(0) =~= Seq::<SexpView>::empty());
            lemma_split_append(xs.take(0), xs.skip(0), base);
            assert(xs.take(0) + xs.skip(0) =~= xs);
        }
        while i < end
            invariant
                start <= i <= end <= self.tape@.len(),
                0 <= k <= xs.len(),
                0 <= base,
                self.tape@.subrange(start as int, end as int) == split_encode(xs, base).0,
                base + split_encode(xs, base).1.len() <= self.atoms@.len(),
                self.atoms@.subrange(base, base + split_encode(xs, base).1.len()) == split_encode(xs, base).1,
                split_fits(xs, base),
                i - start == split_encode(xs.take(k), base).0.len(),
                split_encode(xs, base).0 == split_encode(xs.take(k), base).0 + split_encode(
                    xs.skip(k),
                    base + split_encode(xs.take(k), base).1.len(),
                ).0,
                split_encode(xs, base).1 == split_encode(xs.take(k), base).1 + split_encode(
                    xs.skip(k),
                    base + split_encode(xs.take(k), base).1.len(),
                ).1,
                split_fits(xs.skip(k), base + split_encode(xs.take(k), base).1.len()),
                visitor.model() == run_events::<VisitorT>(m0, sexps_events(xs.take(k))),
            decreases end - i,
        {
            let ghost tk = split_encode(xs.take(k), base);
            let ghost ab = base + tk.1.len();
            proof {
                if k == xs.len() {
                    assert(xs.skip(k) =~= Seq::<SexpView>::empty());
                    assert(false);
                }
            }
            let ghost x0 = xs[k];
            let ghost e1 = split_encode_one(x0, ab);
            let ghost rest = split_encode(xs.skip(k + 1), ab + e1.1.len());
            proof {
                lemma_split_step(xs, k, base);
                assert(split_encode(xs, base).0 =~= tk.0 + e1.0 + rest.0);
                assert(split_encode(xs, base).1 =~= tk.1 + e1.1 + rest.1);
                assert forall|j: int| 0 <= j < e1.0.len() implies self.tape@[i + j] == e1.0[j] by {
                    assert(self.tape@.subrange(start as int, end as int)[i - start + j] == self.tape@[i + j]);
                }
                assert forall|j: int| 0 <= j < e1.1.len() implies self.atoms@[ab + j] == e1.1[j] by {
                    assert(self.atoms@.subrange(base, base + split_encode(xs, base).1.len())[ab - base + j]
                        == self.atoms@[ab + j]);
                }
            }
            let x = self.tape[i];
            let ghost m1 = visitor.model();
            proof {
                assert(self.tape@[i as int] == e1.0[0]);
                assert(split_fits_one(x0, ab));
                assert(ab + e1.1.len() <= self.atoms@.len());
            }
            if x % 2 == 0 {
                let ghost a = match x0 {
                    SexpView::Atom(a) => a,
                    SexpView::List(_) => Seq::empty(),
                };
                proof {
                    match x0 {
                        SexpView::Atom(a2) => {
                            assert(a2 == a);
                        },
                        SexpView::List(l) => {
                            assert(e1.0[0] == (split_encode(l, ab).0.len() * 2 + 1) as u32);
                            assert(false);
                        },
                    }
                    assert(e1.0 == seq![(a.len() * 2) as u32, ab as u32]);
                    assert(x == a.len() * 2);
                }
                let len = (x / 2) as usize;
                let y = self.tape[i + 1] as usize;
                proof {
                    assert(y == ab);
                    assert(y + len <= self.atoms@.len());
                    assert(self.atoms@.subrange(y as int, y + len) =~= a);
                }
                let n_atoms = self.atoms.len();
                assert(y + len <= n_atoms);
                let atom = &self.atoms.as_slice()[y..y + len];
                visitor.atom(atom);
                i = i + 2;
                proof {
                    lemma_run_events_single::<VisitorT>(m1, ReadEvent::Atom(atom@));
                    assert(sexp_events(x0) == seq![ReadEvent::Atom(a)]);
                }
            } else {
                let ghost l = match x0 {
                    SexpView::List(l) => l,
                    SexpView::Atom(_) => Seq::empty(),
                };
                proof {
                    match x0 {
                        SexpView::Atom(a) => {
                            assert(e1.0[0] == (a.len() * 2) as u32);
                            assert(false);
                        },
                        SexpView::List(l2) => {
                            assert(l2 == l);
                            assert(e1.0[0] == (split_encode(l, ab).0.len() * 2 + 1) as u32);
                        },
                    }
                    assert(e1.0 == seq![(split_encode(l, ab).0.len() * 2 + 1) as u32] + split_encode(l, ab).0);
                }
                let len = (x / 2) as usize;
                proof {
                    assert(len == split_encode(l, ab).0.len());
                    assert forall|j: int| 0 <= j < len implies self.tape@[i + 1 + j] == split_encode(l, ab).0[j] by {
                        assert(e1.0[1 + j] == split_encode(l, ab).0[j]);
                    }
                    assert(self.tape@.subrange(i + 1, i + 1 + len) =~= split_encode(l, ab).0);
                    assert(self.atoms@.subrange(ab, ab + split_encode(l, ab).1.len()) =~= split_encode(l, ab).1);
                }
                visitor.list_open();
                self.visit_range(visitor, i + 1, i + 1 + len, Ghost(l), Ghost(ab));
                visitor.list_close();
                i = i + 1 + len;
                proof {
                    lemma_run_events_single::<VisitorT>(m1, ReadEvent::ListOpen);
                    lemma_run_events_append::<VisitorT>(m1, seq![ReadEvent::ListOpen], sexps_events(l));
                    lemma_run_events_push::<VisitorT>(m1, seq![ReadEvent::ListOpen] + sexps_events(l), ReadEvent::ListClose);
                }
            }
            proof {
                lemma_sexps_events_push(xs.take(k), x0);
                assert(xs.take(k).push(x0) =~= xs.take(k + 1));
                lemma_run_events_append::<VisitorT>(m0, sexps_events(xs.take(k)), sexp_events(x0));
                assert(tk.0 + e1.0 + rest.0 =~= (tk.0 + e1.0) + rest.0);
                assert(tk.1 + e1.1 + rest.1 =~= (tk.1 + e1.1) + rest.1);
                k = k + 1;
            }
        }
        proof {
            if k < xs.len() {
                lemma_split_step(xs, k, base);
                let tk = split_encode(xs.take(k), base);
                let ab = base + tk.1.len();
                match xs[k] {
                    SexpView::Atom(a) => {},
                    SexpView::List(l) => {},
                }
                assert(split_encode_one(xs[k], ab).0.len() > 0);
                assert(false);
            }
            assert(xs.take(k) =~= xs);
        }
    }
}

impl ReadVisitable for SplitTape {
    open spec fn visitable(&self) -> bool {
        exists|xs: Seq<SexpView>| self.encodes(xs)
    }

    open spec fn events(&self) -> Seq<ReadEvent> {
        document_events(choose|xs: Seq<SexpView>| self.encodes(xs))
    }

    fn visit<VisitorT: ReadVisitor>(&self, visitor: &mut VisitorT) {
        let ghost xs = choose|xs: Seq<SexpView>| self.encodes(xs);
        let ghost m0 = visitor.model();
        visitor.reset();
        proof {
            lemma_run_events_single::<VisitorT>(m0, ReadEvent::Reset);
            assert(self.tape@.subrange(0, self.tape@.len() as int) =~= self.tape@);
            assert(self.atoms@.subrange(0, self.atoms@.len() as int) =~= self.atoms@);
        }
        self.visit_range(visitor, 0, self.tape.len(), Ghost(xs), Ghost(0));
        proof {
            lemma_run_events_append::<VisitorT>(m0, seq![ReadEvent::Reset], sexps_events(xs));
        }
        visitor.eof();
        proof {
            lemma_run_events_push::<VisitorT>(m0, seq![ReadEvent::Reset] + sexps_events(xs), ReadEvent::Eof);
        }
    }
}

impl SplitTape {
    /// The text of the sexps on the tape.
    pub fn to_string(&self) -> (r: String)
        requires
            self.visitable(),
        ensures
            r@ == rust_generator::ascii_chars(
                run_events::<rust_generator::Generator>((Seq::empty(), false), self.events()).0,
            ),
    {
        rust_generator::fmt(self)
    }
}

/// Two sequences of sexps whose split-tape encodings agree on the tape,
/// and whose atoms' bytes are both read from `atoms`, are the same.
#[verifier::rlimit(50)]
proof fn lemma_split_injective(xs: Seq<SexpView>, ys: Seq<SexpView>, base: int, atoms: Seq<u8>)
    requires
        0 <= base,
        split_encode(xs, base).0 == split_encode(ys, base).0,
        split_fits(xs, base),
        split_fits(ys, base),
        base + split_encode(xs, base).1.len() <= atoms.len(),
        base + split_encode(ys, base).1.len() <= atoms.len(),
        atoms.subrange(base, base + split_encode(xs, base).1.len()) == split_encode(xs, base).1,
        atoms.subrange(base, base + split_encode(ys, base).1.len()) == split_encode(ys, base).1,
    ensures
        xs == ys,
    decreases split_encode(xs, base).0.len(),
{
    if xs.len() == 0 || ys.len() == 0 {
        if xs.len() > 0 {
            lemma_split_step(xs, 0, base);
            assert(xs.take(0) =~= Seq::<SexpView>::empty());
            match xs[0] {
                SexpView::Atom(a) => {},
                SexpView::List(l) => {},
            }
            assert(split_encode(xs.skip(0), base).0.len() > 0);
            assert(xs.skip(0) =~= xs);
            assert(false);
        }
        if ys.len() > 0 {
            lemma_split_step(ys, 0, base);
            assert(ys.take(0) =~= Seq::<SexpView>::empty());
            match ys[0] {
                SexpView::Atom(a) => {},
                SexpView::List(l) => {},
            }
            assert(split_encode(ys.skip(0), base).0.len() > 0);
            assert(ys.skip(0) =~= ys);
            assert(false);
        }
        assert(xs =~= ys);
    } else {
        lemma_split_step(xs, 0, base);
        lemma_split_step(ys, 0, base);
        assert(xs.take(0) =~= Seq::<SexpView>::empty());
        assert(ys.take(0) =~= Seq::<SexpView>::empty());
        assert(xs.skip(0) =~= xs);
        assert(ys.skip(0) =~= ys);
        let ex = split_encode_one(xs[0], base);
        let ey = split_encode_one(ys[0], base);
        let rx = split_encode(xs.skip(1), base + ex.1.len());
        let ry = split_encode(ys.skip(1), base + ey.1.len());
        assert(split_encode(xs, base).0 == ex.0 + rx.0);
        assert(split_encode(ys, base).0 == ey.0 + ry.0);
        assert(split_encode(xs, base).0[0] == ex.0[0]);
        assert(split_encode(ys, base).0[0] == ey.0[0]);
        match xs[0] {
            SexpView::Atom(a) => {
                match ys[0] {
                    SexpView::Atom(b) => {
                        assert(ex.0[1] == split_encode(xs, base).0[1]);
                        assert(ey.0[1] == split_encode(ys, base).0[1]);
                        assert(a.len() == b.len());
                        assert(a =~= atoms.subrange(base, base + a.len()));
                        assert(b =~= atoms.subrange(base, base + b.len()));
                    },
                    SexpView::List(l) => {
                        assert(false);
                    },
                }
            },
            SexpView::List(l) => {
                match ys[0] {
                    SexpView::Atom(b) => {
                        assert(false);
                    },
                    SexpView::List(m) => {
                        let tl = split_encode(l, base).0;
                        let tm = split_encode(m, base).0;
                        assert(tl.len() == tm.len());
                        assert(tl =~= split_encode(xs, base).0.subrange(1, 1 + tl.len() as int));
                        assert(tm =~= split_encode(ys, base).0.subrange(1, 1 + tm.len() as int));
                        assert(atoms.subrange(base, base + split_encode(l, base).1.len()) =~= split_encode(l, base).1);
                        assert(atoms.subrange(base, base + split_encode(m, base).1.len()) =~= split_encode(m, base).1);
                        lemma_split_injective(l, m, base, atoms);
                    },
                }
            },
        }
        assert(xs[0] == ys[0]);
        assert(rx.0 =~= split_encode(xs, base).0.skip(ex.0.len() as int));
        assert(ry.0 =~= split_encode(ys, base).0.skip(ey.0.len() as int));
        let b2 = base + ex.1.len();
        assert(ex == ey);
        assert(split_encode(xs, base).1 == ex.1 + rx.1);
        assert(split_encode(ys, base).1 == ey.1 + ry.1);
        assert forall|j: int| 0 <= j < rx.1.len() implies atoms[b2 + j] == rx.1[j] by {
            assert(atoms.subrange(base, base + split_encode(xs, base).1.len())[ex.1.len() + j] == atoms[b2 + j]);
            assert((ex.1 + rx.1)[ex.1.len() + j] == rx.1[j]);
        }
        assert forall|j: int| 0 <= j < ry.1.len() implies atoms[b2 + j] == ry.1[j] by {
            assert(atoms.subrange(base, base + split_encode(ys, base).1.len())[ey.1.len() + j] == atoms[b2 + j]);
            assert((ey.1 + ry.1)[ey.1.len() + j] == ry.1[j]);
        }
        assert(atoms.subrange(b2, b2 + rx.1.len()) =~= rx.1);
        assert(atoms.subrange(b2, b2 + ry.1.len()) =~= ry.1);
        lemma_split_injective(xs.skip(1), ys.skip(1), b2, atoms);
        assert(xs =~= seq![xs[0]] + xs.skip(1));
        assert(ys =~= seq![ys[0]] + ys.skip(1));
    }
}

/// Builds a [`SplitTape`] from the atoms and lists it is handed.
pub struct SplitTapeVisitor {
    tape: SplitTape,
}

impl SplitTapeVisitor {
    pub fn new() -> (r: SplitTapeVisitor)
        ensures
            r.inv(),
            r.model() == (Seq::<u32>::empty(), Seq::<u8>::empty()),
    {
        Self { tape: SplitTape::new() }
    }
}

/// Where an open list's header is on the tape.
pub struct SplitTapeVisitorContext {
    pub tape_start_index: usize,
}

impl Visitor for SplitTapeVisitor {
    type Context = SplitTapeVisitorContext;
    type Return = SplitTape;
    /// The tape and the atom tape built so far.
    type Model = (Seq<u32>, Seq<u8>);
    type ReturnModel = (Seq<u32>, Seq<u8>);

    open spec fn inv(&self) -> bool {
        true
    }

    closed spec fn model(&self) -> Self::Model {
        (self.tape.tape@, self.tape.atoms@)
    }

    open spec fn return_model(r: SplitTape) -> Self::ReturnModel {
        (r.tape@, r.atoms@)
    }

    open spec fn stack_ok(m: Self::Model, stack: Seq<SplitTapeVisitorContext>) -> bool {
        &&& forall|i: int| 0 <= i < stack.len() ==> stack[i].tape_start_index < m.0.len()
        &&& forall|i: int, j: int|
            0 <= i < j < stack.len() ==> stack[i].tape_start_index < stack[j].tape_start_index
    }

    open spec fn atom_ok(m: Self::Model, len: int) -> bool {
        &&& len * 2 <= u32::MAX
        &&& m.1.len() <= u32::MAX
        &&& m.0.len() + 2 <= usize::MAX
        &&& m.1.len() + len <= usize::MAX
    }

    open spec fn list_ok(m: Self::Model) -> bool {
        m.0.len() + 1 <= usize::MAX
    }

    open spec fn close_ok(m: Self::Model, context: SplitTapeVisitorContext) -> bool {
        (m.0.len() - context.tape_start_index - 1) * 2 + 1 <= u32::MAX
    }

    open spec fn spec_reset(m: Self::Model, input_size_hint: Option<usize>) -> Self::Model {
        m
    }

    open spec fn spec_atom(m: Self::Model, atom: Seq<u8>, parent: Option<SplitTapeVisitorContext>) -> Self::Model {
        (m.0 + seq![(atom.len() * 2) as u32, m.1.len() as u32], m.1 + atom)
    }

    open spec fn spec_list_open(m: Self::Model, parent: Option<SplitTapeVisitorContext>) -> (
        Self::Model,
        SplitTapeVisitorContext,
    ) {
        ((m.0.push(0u32), m.1), SplitTapeVisitorContext { tape_start_index: m.0.len() as usize })
    }

    open spec fn spec_list_close(
        m: Self::Model,
        context: SplitTapeVisitorContext,
        parent: Option<SplitTapeVisitorContext>,
    ) -> Self::Model {
        (
            m.0.update(
                context.tape_start_index as int,
                ((m.0.len() - context.tape_start_index - 1) * 2 + 1) as u32,
            ),
            m.1,
        )
    }

    open spec fn spec_eof(m: Self::Model) -> (Self::Model, Self::ReturnModel) {
        ((Seq::empty(), Seq::empty()), m)
    }

    fn reset(&mut self, _input_size_hint: Option<usize>) {
    }

    fn atom(&mut self, atom: &[u8], _parent_context: Option<&SplitTapeVisitorContext>) {
        let atoms_start_index: u32 = self.tape.atoms.len() as u32;
        let length: u32 = (atom.len() * 2) as u32;
        self.tape.tape.push(length);
        self.tape.tape.push(atoms_start_index);
        let ghost before = self.tape.atoms@;
        self.tape.atoms.extend_from_slice(atom);
        proof {
            assert forall|i: int| 0 <= i < self.tape.atoms@.len() implies self.tape.atoms@[i] == (before + atom@)[i] by {
                if i >= before.len() {
                    assert(cloned::<u8>(atom@[i - before.len()], self.tape.atoms@[i]));
                }
            }
            assert(self.tape.atoms@ =~= before + atom@);
            assert(self.tape.tape@ =~= old(self).tape.tape@ + seq![(atom@.len() * 2) as u32, before.len() as u32]);
        }
    }

    fn list_open(&mut self, _parent_context: Option<&SplitTapeVisitorContext>) -> (r: SplitTapeVisitorContext) {
        let tape_start_index = self.tape.tape.len();
        self.tape.tape.push(0);
        let r = SplitTapeVisitorContext { tape_start_index };
        proof {
            let m = old(self).model();
            assert forall|st: Seq<SplitTapeVisitorContext>| Self::stack_ok(m, st) implies Self::stack_ok(self.model(), st.push(r)) by {
                assert forall|i: int, j: int| 0 <= i < j < st.push(r).len() implies st.push(r)[i].tape_start_index < st.push(r)[j].tape_start_index by {
                    if j == st.len() {
                        assert(st.push(r)[i] == st[i]);
                    } else {
                        assert(st.push(r)[i] == st[i]);
                        assert(st.push(r)[j] == st[j]);
                    }
                }
                assert forall|i: int| 0 <= i < st.push(r).len() implies st.push(r)[i].tape_start_index < self.model().0.len() by {
                    if i < st.len() {
                        assert(st.push(r)[i] == st[i]);
                    }
                }
            }
        }
        r
    }

    fn list_close(&mut self, context: SplitTapeVisitorContext, _parent_context: Option<&SplitTapeVisitorContext>) {
        proof {
            let st = choose|st: Seq<SplitTapeVisitorContext>| Self::stack_ok(self.model(), st.push(context));
            assert(st.push(context)[st.len() as int] == context);
        }
        let x: u32 = ((self.tape.tape.len() - context.tape_start_index - 1) * 2 + 1) as u32;
        self.tape.tape.set(context.tape_start_index, x);
        proof {
            let m = old(self).model();
            assert forall|st: Seq<SplitTapeVisitorContext>| Self::stack_ok(m, st.push(context)) implies Self::stack_ok(self.model(), st) by {
                assert forall|i: int| 0 <= i < st.len() implies st[i].tape_start_index < self.model().0.len() by {
                    assert(st.push(context)[i] == st[i]);
                }
                assert forall|i: int, j: int| 0 <= i < j < st.len() implies st[i].tape_start_index < st[j].tape_start_index by {
                    assert(st.push(context)[i] == st[i]);
                    assert(st.push(context)[j] == st[j]);
                }
            }
        }
    }

    fn eof(&mut self) -> (r: SplitTape) {
        let mut out = SplitTape::new();
        std::mem::swap(&mut out, &mut self.tape);
        out
    }
}

/// The tape that a [`SplitTapeVisitor`] builds for the sexps `xs`, after
/// what it already holds, is their split-tape encoding.
pub proof fn lemma_split_tape_visitor_builds(
    m: (Seq<u32>, Seq<u8>),
    xs: Seq<SexpView>,
    parent: Option<SplitTapeVisitorContext>,
)
    requires
        m.0.len() + split_encode(xs, m.1.len() as int).0.len() <= usize::MAX,
    ensures
        visitor_build::<SplitTapeVisitor>(m, xs, parent) == (
            m.0 + split_encode(xs, m.1.len() as int).0,
            m.1 + split_encode(xs, m.1.len() as int).1,
        ),
    decreases xs,
{
    if xs.len() == 0 {
        assert(m.0 + Seq::<u32>::empty() =~= m.0);
        assert(m.1 + Seq::<u8>::empty() =~= m.1);
    } else {
        let b = m.1.len() as int;
        let (t0, a0) = split_encode(xs.drop_last(), b);
        lemma_split_tape_visitor_builds(m, xs.drop_last(), parent);
        let m1 = (m.0 + t0, m.1 + a0);
        assert(m1.1.len() == b + a0.len());
        lemma_split_tape_visitor_builds_one(m1, xs.last(), parent);
        let (t1, a1) = split_encode_one(xs.last(), b + a0.len());
        assert(m.0 + t0 + t1 =~= m.0 + (t0 + t1));
        assert(m.1 + a0 + a1 =~= m.1 + (a0 + a1));
    }
}

pub proof fn lemma_split_tape_visitor_builds_one(
    m: (Seq<u32>, Seq<u8>),
    x: SexpView,
    parent: Option<SplitTapeVisitorContext>,
)
    requires
        m.0.len() + split_encode_one(x, m.1.len() as int).0.len() <= usize::MAX,
    ensures
        visitor_build_one::<SplitTapeVisitor>(m, x, parent) == (
            m.0 + split_encode_one(x, m.1.len() as int).0,
            m.1 + split_encode_one(x, m.1.len() as int).1,
        ),
    decreases x,
{
    match x {
        SexpView::Atom(a) => {},
        SexpView::List(l) => {
            let b = m.1.len() as int;
            let (m1, c) = SplitTapeVisitor::spec_list_open(m, parent);
            let (t, a) = split_encode(l, b);
            lemma_split_tape_visitor_builds(m1, l, Some(c));
            let m2 = visitor_build::<SplitTapeVisitor>(m1, l, Some(c));
            assert(m2.0 == m.0.push(0u32) + t);
            assert(c.tape_start_index == m.0.len());
            assert(m2.0.len() - c.tape_start_index - 1 == t.len());
            assert(m2.0.update(m.0.len() as int, ((t.len() * 2 + 1) as u32)) =~= m.0 + (seq![(t.len() * 2 + 1) as u32] + t));
        },
    }
}

/// Reading back the tape that a [`SplitTapeVisitor`] builds for the sexps
/// `xs` gives back `xs`.
pub proof fn lemma_split_tape_roundtrip(xs: Seq<SexpView>, tape: SplitTape)
    requires
        split_fits(xs, 0),
        split_encode(xs, 0).0.len() <= usize::MAX,
        (tape.tape@, tape.atoms@) == visitor_build::<SplitTapeVisitor>(
            (Seq::<u32>::empty(), Seq::<u8>::empty()),
            xs,
            None,
        ),
    ensures
        tape.visitable(),
        tape.events() == document_events(xs),
{
    lemma_split_tape_visitor_builds((Seq::<u32>::empty(), Seq::<u8>::empty()), xs, None);
    assert(Seq::<u32>::empty() + split_encode(xs, 0).0 =~= split_encode(xs, 0).0);
    assert(Seq::<u8>::empty() + split_encode(xs, 0).1 =~= split_encode(xs, 0).1);
    assert(tape.encodes(xs));
    let ys = choose|ys: Seq<SexpView>| tape.encodes(ys);
    assert(tape.atoms@.subrange(0, split_encode(xs, 0).1.len() as int) =~= split_encode(xs, 0).1);
    assert(tape.atoms@.subrange(0, split_encode(ys, 0).1.len() as int) =~= split_encode(ys, 0).1);
    lemma_split_injective(xs, ys, 0, tape.atoms@);
}

/// A word made of four bytes, the first the least significant.
pub open spec fn word_of(b0: u8, b1: u8, b2: u8, b3: u8) -> u32 {
    (b0 as u32) | ((b1 as u32) << 8u32) | ((b2 as u32) << 16u32) | ((b3 as u32) << 24u32)
}

/// Byte `k` of a word, the first the least significant.
pub open spec fn word_byte(w: u32, k: u32) -> u8 {
    ((w >> (8 * k)) & 0xffu32) as u8
}

/// The bytes, four to a word, as words.
pub open spec fn pack_words(b: Seq<u8>) -> Seq<u32>
    decreases b.len(),
{
    if b.len() < 4 {
        seq![]
    } else {
        let n = b.len() - 4;
        pack_words(b.take(n)) + seq![word_of(b[n], b[n + 1], b[n + 2], b[n + 3])]
    }
}

/// The four bytes of a word.
pub open spec fn word_bytes(w: u32) -> Seq<u8> {
    seq![word_byte(w, 0), word_byte(w, 1), word_byte(w, 2), word_byte(w, 3)]
}

/// The words as bytes, four to a word.
pub open spec fn unpack_words(w: Seq<u32>) -> Seq<u8>
    decreases w.len(),
{
    if w.len() == 0 {
        seq![]
    } else {
        unpack_words(w.drop_last()) + word_bytes(w.last())
    }
}

/// The number of words an atom of `len` bytes takes on a single tape.
pub open spec fn atom_words(len: int) -> int {
    len / 4 + 1
}

/// An atom padded to whole words: zero bytes after it, and in the last
/// byte the number of padding bytes less one.
pub open spec fn pad_atom(a: Seq<u8>) -> Seq<u8> {
    let p = atom_words(a.len() as int) * 4 - a.len();
    a + Seq::new((p - 1) as nat, |i: int| 0u8) + seq![(p - 1) as u8]
}

/// The single-tape encoding of `xs`: an atom is its length in words times
/// two, followed by its padded bytes; a list is the length of its elements'
/// encoding times two plus one, followed by that encoding.
pub open spec fn single_encode(xs: Seq<SexpView>) -> Seq<u32>
    decreases xs,
{
    if xs.len() == 0 {
        seq![]
    } else {
        single_encode(xs.drop_last()) + single_encode_one(xs.last())
    }
}

pub open spec fn single_encode_one(x: SexpView) -> Seq<u32>
    decreases x,
{
    match x {
        SexpView::Atom(a) => seq![(atom_words(a.len() as int) * 2) as u32] + pack_words(pad_atom(a)),
        SexpView::List(l) => seq![(single_encode(l).len() * 2 + 1) as u32] + single_encode(l),
    }
}

/// Whether every header of the single-tape encoding of `xs` fits a `u32`.
pub open spec fn single_fits(xs: Seq<SexpView>) -> bool
    decreases xs,
{
    if xs.len() == 0 {
        true
    } else {
        single_fits(xs.drop_last()) && single_fits_one(xs.last())
    }
}

pub open spec fn single_fits_one(x: SexpView) -> bool
    decreases x,
{
    match x {
        SexpView::Atom(a) => atom_words(a.len() as int) * 2 <= u32::MAX,
        SexpView::List(l) => single_fits(l) && single_encode(l).len() * 2 + 1 <= u32::MAX,
    }
}

proof fn lemma_word_bytes(b0: u8, b1: u8, b2: u8, b3: u8)
    ensures
        word_byte(word_of(b0, b1, b2, b3), 0) == b0,
        word_byte(word_of(b0, b1, b2, b3), 1) == b1,
        word_byte(word_of(b0, b1, b2, b3), 2) == b2,
        word_byte(word_of(b0, b1, b2, b3), 3) == b3,
{
    let w = word_of(b0, b1, b2, b3);
    assert(((w >> 0u32) & 0xffu32) as u8 == b0) by (bit_vector)
        requires
            w == (b0 as u32) | ((b1 as u32) << 8u32) | ((b2 as u32) << 16u32) | ((b3 as u32) << 24u32),
    ;
    assert(((w >> 8u32) & 0xffu32) as u8 == b1) by (bit_vector)
        requires
            w == (b0 as u32) | ((b1 as u32) << 8u32) | ((b2 as u32) << 16u32) | ((b3 as u32) << 24u32),
    ;
    assert(((w >> 16u32) & 0xffu32) as u8 == b2) by (bit_vector)
        requires
            w == (b0 as u32) | ((b1 as u32) << 8u32) | ((b2 as u32) << 16u32) | ((b3 as u32) << 24u32),
    ;
    assert(((w >> 24u32) & 0xffu32) as u8 == b3) by (bit_vector)
        requires
            w == (b0 as u32) | ((b1 as u32) << 8u32) | ((b2 as u32) << 16u32) | ((b3 as u32) << 24u32),
    ;
}

/// Packing bytes into words and reading them back gives the bytes.
proof fn lemma_unpack_pack(b: Seq<u8>)
    requires
        b.len() % 4 == 0,
    ensures
        unpack_words(pack_words(b)) == b,
        pack_words(b).len() == b.len() / 4,
    decreases b.len(),
{
    if b.len() >= 4 {
        let n = b.len() - 4;
        lemma_unpack_pack(b.take(n));
        let w = word_of(b[n], b[n + 1], b[n + 2], b[n + 3]);
        lemma_word_bytes(b[n], b[n + 1], b[n + 2], b[n + 3]);
        let p = pack_words(b.take(n)) + seq![w];
        assert(p.drop_last() =~= pack_words(b.take(n)));
        assert(p.last() == w);
        assert(b =~= b.take(n) + word_bytes(w));
    } else {
        assert(b.len() == 0);
        assert(b =~= Seq::<u8>::empty());
    }
}

proof fn lemma_atom_packing(a: Seq<u8>)
    ensures
        pad_atom(a).len() == atom_words(a.len() as int) * 4,
        pack_words(pad_atom(a)).len() == atom_words(a.len() as int),
        unpack_words(pack_words(pad_atom(a))) == pad_atom(a),
{
    let p = atom_words(a.len() as int) * 4 - a.len();
    assert(1 <= p <= 4);
    let w = atom_words(a.len() as int);
    assert(pad_atom(a).len() == w * 4);
    assert((w * 4) % 4 == 0 && (w * 4) / 4 == w) by (nonlinear_arith);
    lemma_unpack_pack(pad_atom(a));
}

/// The atom back from its padded bytes: as many bytes as the padding does
/// not take.
pub open spec fn unpad_atom(p: Seq<u8>) -> Seq<u8> {
    p.take(p.len() - p.last() - 1)
}

proof fn lemma_unpad_pad(a: Seq<u8>)
    ensures
        pad_atom(a).len() == atom_words(a.len() as int) * 4,
        unpad_atom(pad_atom(a)) == a,
{
    let p = atom_words(a.len() as int) * 4 - a.len();
    assert(1 <= p <= 4);
    let padded = pad_atom(a);
    assert(padded.last() == (p - 1) as u8);
    assert(unpad_atom(padded) =~= a);
}

proof fn lemma_single_append(a: Seq<SexpView>, b: Seq<SexpView>)
    ensures
        single_encode(a + b) == single_encode(a) + single_encode(b),
        single_fits(a + b) == (single_fits(a) && single_fits(b)),
    decreases b.len(),
{
    if b.len() == 0 {
        assert(a + b =~= a);
        assert(single_encode(a) + Seq::<u32>::empty() =~= single_encode(a));
    } else {
        lemma_single_append(a, b.drop_last());
        assert((a + b).drop_last() =~= a + b.drop_last());
        assert((a + b).last() == b.last());
        assert(single_encode(a) + single_encode(b.drop_last()) + single_encode_one(b.last()) =~= single_encode(
            a,
        ) + (single_encode(b.drop_last()) + single_encode_one(b.last())));
    }
}

proof fn lemma_single_single(x: SexpView)
    ensures
        single_encode(seq![x]) == single_encode_one(x),
        single_fits(seq![x]) == single_fits_one(x),
{
    assert(seq![x].drop_last() =~= Seq::<SexpView>::empty());
    assert(seq![x].last() == x);
    assert(single_encode(Seq::<SexpView>::empty()) == Seq::<u32>::empty());
    assert(single_fits(Seq::<SexpView>::empty()));
    assert(Seq::<u32>::empty() + single_encode_one(x) =~= single_encode_one(x));
}

proof fn lemma_single_step(xs: Seq<SexpView>, k: int)
    requires
        0 <= k < xs.len(),
    ensures
        single_encode(xs.skip(k)) == single_encode_one(xs[k]) + single_encode(xs.skip(k + 1)),
        single_fits(xs.skip(k)) == (single_fits_one(xs[k]) && single_fits(xs.skip(k + 1))),
        single_encode(xs.take(k + 1)) == single_encode(xs.take(k)) + single_encode_one(xs[k]),
        single_fits(xs.take(k + 1)) == (single_fits(xs.take(k)) && single_fits_one(xs[k])),
{
    assert(xs.skip(k) =~= seq![xs[k]] + xs.skip(k + 1));
    lemma_single_append(seq![xs[k]], xs.skip(k + 1));
    lemma_single_single(xs[k]);
    assert(xs.take(k + 1) =~= xs.take(k) + seq![xs[k]]);
    lemma_single_append(xs.take(k), seq![xs[k]]);
}

/**
Single tape representation
Atom: <words_len*2 as u32><data as [u8] padded like ocaml strings>
List: <words_len*2+1 as u32>Repr(X1)Repr(X2)...
*/
#[derive(Default)]
pub struct SingleTape {
    pub tape: Vec<u32>,
}

/// The bytes of `words[start..end]`, four to a word.
fn unpack_range(words: &Vec<u32>, start: usize, end: usize) -> (r: Vec<u8>)
    requires
        start <= end <= words@.len(),
        (end - start) * 4 <= usize::MAX,
    ensures
        r@ == unpack_words(words@.subrange(start as int, end as int)),
{
    let mut out: Vec<u8> = Vec::new();
    let mut i: usize = start;
    proof {
        assert(words@.subrange(start as int, start as int) =~= Seq::<u32>::empty());
    }
    while i < end
        invariant
            start <= i <= end <= words@.len(),
            (end - start) * 4 <= usize::MAX,
            out@ == unpack_words(words@.subrange(start as int, i as int)),
            out@.len() == (i - start) * 4,
        decreases end - i,
    {
        let w = words[i];
        let ghost before = out@;
        out.push((w & 0xffu32) as u8);
        out.push(((w >> 8u32) & 0xffu32) as u8);
        out.push(((w >> 16u32) & 0xffu32) as u8);
        out.push(((w >> 24u32) & 0xffu32) as u8);
        proof {
            assert(((w >> 0u32) & 0xffu32) == (w & 0xffu32)) by (bit_vector);
            let sub = words@.subrange(start as int, i + 1);
            assert(sub.drop_last() =~= words@.subrange(start as int, i as int));
            assert(sub.last() == w);
            assert(out@ =~= before + word_bytes(w));
        }
        i += 1;
    }
    out
}

impl SingleTape {
    fn new() -> (r: Self)
        ensures
            r.tape@ == Seq::<u32>::empty(),
    {
        Self { tape: Vec::new() }
    }

    /// Whether the tape holds the encoding of `xs` (and its bytes fit in
    /// memory).
    pub open spec fn encodes(&self, xs: Seq<SexpView>) -> bool {
        &&& single_encode(xs) == self.tape@
        &&& single_fits(xs)
        &&& self.tape@.len() * 4 <= usize::MAX
    }

    /// Visits the atom `a` whose encoding starts at `tape[i]`, taking `len`
    /// words after the header.
    fn visit_atom_at<VisitorT: ReadVisitor>(&self, visitor: &mut VisitorT, i: usize, len: usize, Ghost(a): Ghost<Seq<u8>>)
        requires
            len == atom_words(a.len() as int),
            i + 1 + len <= self.tape@.len(),
            self.tape@.len() * 4 <= usize::MAX,
            self.tape@.subrange(i + 1, i + 1 + len) == pack_words(pad_atom(a)),
        ensures
            final(visitor).model() == VisitorT::spec_event(old(visitor).model(), ReadEvent::Atom(a)),
    {
        let ghost pa = pad_atom(a);
        proof {
            lemma_unpad_pad(a);
            lemma_atom_packing(a);
            assert(len * 4 <= usize::MAX) by (nonlinear_arith)
                requires
                    len <= self.tape@.len(),
                    self.tape@.len() * 4 <= usize::MAX,
            ;
        }
        let padded = unpack_range(&self.tape, i + 1, i + 1 + len);
        assert(padded@ == pa);
        let last = padded[padded.len() - 1];
        let atom_len = padded.len() - (last as usize) - 1;
        let atom = &padded.as_slice()[0..atom_len];
        proof {
            assert(atom@ =~= unpad_atom(pa));
        }
        visitor.atom(atom);
    }

    /// Visits the sexps `xs` whose encoding is `tape[start..end]`.
    fn visit_range<VisitorT: ReadVisitor>(
        &self,
        visitor: &mut VisitorT,
        start: usize,
        end: usize,
        Ghost(xs): Ghost<Seq<SexpView>>,
    )
        requires
            start <= end <= self.tape@.len(),
            self.tape@.len() * 4 <= usize::MAX,
            self.tape@.subrange(start as int, end as int) == single_encode(xs),
            single_fits(xs),
        ensures
            final(visitor).model() == run_events::<VisitorT>(old(visitor).model(), sexps_events(xs)),
        decreases end - start,
    {
        let ghost m0 = visitor.model();
        let mut i: usize = start;
        let ghost mut k: int = 0;
        proof {
            assert(xs.take(0) =~= Seq::<SexpView>::empty());
            assert(xs.skip(0) =~= xs);
        }
        while i < end
            invariant
                start <= i <= end <= self.tape@.len(),
                self.tape@.len() * 4 <= usize::MAX,
                0 <= k <= xs.len(),
                self.tape@.subrange(start as int, end as int) == single_encode(xs),
                single_fits(xs),
                i - start == single_encode(xs.take(k)).len(),
                single_encode(xs) == single_encode(xs.take(k)) + single_encode(xs.skip(k)),
                single_fits(xs.skip(k)),
                visitor.model() == run_events::<VisitorT>(m0, sexps_events(xs.take(k))),
            decreases end - i,
        {
            proof {
                if k == xs.len() {
                    assert(xs.skip(k) =~= Seq::<SexpView>::empty());
                    assert(false);
                }
            }
            let ghost x0 = xs[k];
            let ghost e1 = single_encode_one(x0);
            let ghost rest = single_encode(xs.skip(k + 1));
            proof {
                lemma_single_step(xs, k);
                assert(single_encode(xs) =~= single_encode(xs.take(k)) + e1 + rest);
                assert forall|j: int| 0 <= j < e1.len() implies self.tape@[i + j] == e1[j] by {
                    assert(self.tape@.subrange(start as int, end as int)[i - start + j] == self.tape@[i + j]);
                }
            }
            let x = self.tape[i];
            let ghost m1 = visitor.model();
            proof {
                assert(self.tape@[i as int] == e1[0]);
                assert(single_fits_one(x0));
                assert(i + e1.len() <= end);
            }
            if x % 2 == 0 {
                let ghost a = match x0 {
                    SexpView::Atom(a) => a,
                    SexpView::List(_) => Seq::empty(),
                };
                proof {
                    match x0 {
                        SexpView::Atom(a2) => {
                            assert(a2 == a);
                        },
                        SexpView::List(l) => {
                            assert(e1[0] == (single_encode(l).len() * 2 + 1) as u32);
                            assert(false);
                        },
                    }
                    lemma_unpad_pad(a);
                    assert(e1 == seq![(atom_words(a.len() as int) * 2) as u32] + pack_words(pad_atom(a)));
                }
                let len = (x / 2) as usize;
                proof {
                    lemma_atom_packing(a);
                    assert(len == atom_words(a.len() as int));
                    assert forall|j: int| 0 <= j < len implies self.tape@[i + 1 + j] == pack_words(pad_atom(a))[j] by {
                        assert(e1[1 + j] == pack_words(pad_atom(a))[j]);
                    }
                    assert(self.tape@.subrange(i + 1, i + 1 + len) =~= pack_words(pad_atom(a)));
                }
                self.visit_atom_at(visitor, i, len, Ghost(a));
                i = i + 1 + len;
                proof {
                    lemma_run_events_single::<VisitorT>(m1, ReadEvent::Atom(a));
                }
            } else {
                let ghost l = match x0 {
                    SexpView::List(l) => l,
                    SexpView::Atom(_) => Seq::empty(),
                };
                proof {
                    match x0 {
                        SexpView::Atom(a) => {
                            assert(e1[0] == (atom_words(a.len() as int) * 2) as u32);
                            assert(false);
                        },
                        SexpView::List(l2) => {
                            assert(l2 == l);
                        },
                    }
                    assert(e1 == seq![(single_encode(l).len() * 2 + 1) as u32] + single_encode(l));
                }
                let len = (x / 2) as usize;
                proof {
                    assert(len == single_encode(l).len());
                    assert forall|j: int| 0 <= j < len implies self.tape@[i + 1 + j] == single_encode(l)[j] by {
                        assert(e1[1 + j] == single_encode(l)[j]);
                    }
                    assert(self.tape@.subrange(i + 1, i + 1 + len) =~= single_encode(l));
                }
                visitor.list_open();
                self.visit_range(visitor, i + 1, i + 1 + len, Ghost(l));
                visitor.list_close();
                i = i + 1 + len;
                proof {
                    lemma_run_events_single::<VisitorT>(m1, ReadEvent::ListOpen);
                    lemma_run_events_append::<VisitorT>(m1, seq![ReadEvent::ListOpen], sexps_events(l));
                    lemma_run_events_push::<VisitorT>(m1, seq![ReadEvent::ListOpen] + sexps_events(l), ReadEvent::ListClose);
                }
            }
            proof {
                lemma_sexps_events_push(xs.take(k), x0);
                assert(xs.take(k).push(x0) =~= xs.take(k + 1));
                lemma_run_events_append::<VisitorT>(m0, sexps_events(xs.take(k)), sexp_events(x0));
                assert(single_encode(xs.take(k)) + e1 + rest =~= single_encode(xs.take(k + 1)) + rest);
                k = k + 1;
            }
        }
        proof {
            if k < xs.len() {
                lemma_single_step(xs, k);
                match xs[k] {
                    SexpView::Atom(a) => {},
                    SexpView::List(l) => {},
                }
                assert(single_encode_one(xs[k]).len() > 0);
                assert(false);
            }
            assert(xs.take(k) =~= xs);
        }
    }
}

impl ReadVisitable for SingleTape {
    open spec fn visitable(&self) -> bool {
        exists|xs: Seq<SexpView>| self.encodes(xs)
    }

    open spec fn events(&self) -> Seq<ReadEvent> {
        document_events(choose|xs: Seq<SexpView>| self.encodes(xs))
    }

    fn visit<VisitorT: ReadVisitor>(&self, visitor: &mut VisitorT) {
        let ghost xs = choose|xs: Seq<SexpView>| self.encodes(xs);
        let ghost m0 = visitor.model();
        visitor.reset();
        proof {
            lemma_run_events_single::<VisitorT>(m0, ReadEvent::Reset);
            assert(self.tape@.subrange(0, self.tape@.len() as int) =~= self.tape@);
        }
        self.visit_range(visitor, 0, self.tape.len(), Ghost(xs));
        proof {
            lemma_run_events_append::<VisitorT>(m0, seq![ReadEvent::Reset], sexps_events(xs));
        }
        visitor.eof();
        proof {
            lemma_run_events_push::<VisitorT>(m0, seq![ReadEvent::Reset] + sexps_events(xs), ReadEvent::Eof);
        }
    }
}

impl SingleTape {
    /// The text of the sexps on the tape.
    pub fn to_string(&self) -> (r: String)
        requires
            self.visitable(),
        ensures
            r@ == rust_generator::ascii_chars(
                run_events::<rust_generator::Generator>((Seq::empty(), false), self.events()).0,
            ),
    {
        rust_generator::fmt(self)
    }
}

/// Byte `j` of atom `a` padded to `w` words.
fn padded_byte(a: &[u8], j: usize, w: usize) -> (r: u8)
    requires
        w == atom_words(a@.len() as int),
        w * 4 <= usize::MAX,
        j < w * 4,
    ensures
        r == pad_atom(a@)[j as int],
{
    let n = a.len();
    if j < n {
        a[j]
    } else if j + 1 == w * 4 {
        (w * 4 - n - 1) as u8
    } else {
        0
    }
}

/// The words of atom `a` padded to `w` words.
fn pack_atom(a: &[u8], w: usize) -> (r: Vec<u32>)
    requires
        w == atom_words(a@.len() as int),
        w * 4 <= usize::MAX,
    ensures
        r@ == pack_words(pad_atom(a@)),
{
    let ghost pa = pad_atom(a@);
    proof {
        lemma_atom_packing(a@);
    }
    let mut out: Vec<u32> = Vec::new();
    let mut k: usize = 0;
    proof {
        assert(pa.take(0) =~= Seq::<u8>::empty());
    }
    while k < w
        invariant
            k <= w,
            w == atom_words(a@.len() as int),
            w * 4 <= usize::MAX,
            pa == pad_atom(a@),
            pa.len() == w * 4,
            out@ == pack_words(pa.take(4 * k)),
        decreases w - k,
    {
        let b0 = padded_byte(a, 4 * k, w);
        let b1 = padded_byte(a, 4 * k + 1, w);
        let b2 = padded_byte(a, 4 * k + 2, w);
        let b3 = padded_byte(a, 4 * k + 3, w);
        let word: u32 = (b0 as u32) | ((b1 as u32) << 8u32) | ((b2 as u32) << 16u32) | ((b3 as u32) << 24u32);
        out.push(word);
        proof {
            let t = pa.take(4 * k + 4);
            assert(t.take(4 * k) =~= pa.take(4 * k));
            assert(t[4 * k] == b0 && t[4 * k + 1] == b1 && t[4 * k + 2] == b2 && t[4 * k + 3] == b3);
        }
        k += 1;
    }
    proof {
        assert(pa.take(4 * w) =~= pa);
    }
    out
}

/// Builds a [`SingleTape`] from the atoms and lists it is handed, and
/// remembers how much of it holds complete top-level sexps.
pub struct SingleTapeVisitor {
    tape: SingleTape,
    len_of_valid_partial_result_prefix: usize,
}

impl SingleTapeVisitor {
    pub fn new() -> (r: SingleTapeVisitor)
        ensures
            r.inv(),
            r.model() == (Seq::<u32>::empty(), 0int),
    {
        Self { tape: SingleTape::new(), len_of_valid_partial_result_prefix: 0 }
    }
}

/// Where an open list's header is on the tape.
pub struct SingleTapeVisitorContext {
    pub tape_start_index: usize,
}

impl ExtractPartialResult for SingleTapeVisitor {
    type PartialReturn = SingleTape;

    closed spec fn can_extract(&self) -> bool {
        self.inv()
    }

    /// The complete top-level sexps are handed out and taken off the tape.
    closed spec fn extracted(before: Self, after: Self, r: SingleTape) -> bool {
        let n = before.len_of_valid_partial_result_prefix as int;
        &&& r.tape@ == before.tape.tape@.take(n)
        &&& after.tape.tape@ == before.tape.tape@.skip(n)
        &&& after.len_of_valid_partial_result_prefix == 0
    }

    fn extract_partial_result(&mut self) -> (r: SingleTape) {
        let mut split_tape = self.tape.tape.split_off(self.len_of_valid_partial_result_prefix);
        std::mem::swap(&mut split_tape, &mut self.tape.tape);
        // now split_tape contains elements in the range
        // [0..self.len_of_valid_partial_result_prefix]
        self.len_of_valid_partial_result_prefix = 0;
        SingleTape { tape: split_tape }
    }
}

impl Visitor for SingleTapeVisitor {
    type Context = SingleTapeVisitorContext;
    type Return = SingleTape;
    /// The tape built so far, and how much of it holds complete top-level
    /// sexps.
    type Model = (Seq<u32>, int);
    type ReturnModel = Seq<u32>;

    closed spec fn inv(&self) -> bool {
        self.len_of_valid_partial_result_prefix <= self.tape.tape@.len()
    }

    closed spec fn model(&self) -> Self::Model {
        (self.tape.tape@, self.len_of_valid_partial_result_prefix as int)
    }

    open spec fn return_model(r: SingleTape) -> Seq<u32> {
        r.tape@
    }

    open spec fn stack_ok(m: Self::Model, stack: Seq<SingleTapeVisitorContext>) -> bool {
        &&& forall|i: int| 0 <= i < stack.len() ==> stack[i].tape_start_index < m.0.len()
        &&& forall|i: int, j: int|
            0 <= i < j < stack.len() ==> stack[i].tape_start_index < stack[j].tape_start_index
    }

    open spec fn atom_ok(m: Self::Model, len: int) -> bool {
        &&& atom_words(len) * 2 <= u32::MAX
        &&& m.0.len() + 1 + atom_words(len) * 4 <= usize::MAX
    }

    open spec fn list_ok(m: Self::Model) -> bool {
        m.0.len() + 1 <= usize::MAX
    }

    open spec fn close_ok(m: Self::Model, context: SingleTapeVisitorContext) -> bool {
        (m.0.len() - context.tape_start_index - 1) * 2 + 1 <= u32::MAX
    }

    open spec fn spec_reset(m: Self::Model, input_size_hint: Option<usize>) -> Self::Model {
        m
    }

    open spec fn spec_atom(m: Self::Model, atom: Seq<u8>, parent: Option<SingleTapeVisitorContext>) -> Self::Model {
        let t = m.0 + single_encode_one(SexpView::Atom(atom));
        (t, if parent is None {
            t.len() as int
        } else {
            m.1
        })
    }

    open spec fn spec_list_open(m: Self::Model, parent: Option<SingleTapeVisitorContext>) -> (
        Self::Model,
        SingleTapeVisitorContext,
    ) {
        ((m.0.push(0u32), m.1), SingleTapeVisitorContext { tape_start_index: m.0.len() as usize })
    }

    open spec fn spec_list_close(
        m: Self::Model,
        context: SingleTapeVisitorContext,
        parent: Option<SingleTapeVisitorContext>,
    ) -> Self::Model {
        (
            m.0.update(
                context.tape_start_index as int,
                ((m.0.len() - context.tape_start_index - 1) * 2 + 1) as u32,
            ),
            if parent is None {
                m.0.len() as int
            } else {
                m.1
            },
        )
    }

    open spec fn spec_eof(m: Self::Model) -> (Self::Model, Self::ReturnModel) {
        ((Seq::empty(), 0), m.0)
    }

    fn reset(&mut self, _input_size_hint: Option<usize>) {
    }

    fn atom(&mut self, atom: &[u8], parent_context: Option<&SingleTapeVisitorContext>) {
        let ghost before = self.tape.tape@;
        let padded_length_in_words = atom.len() / 4 + 1;
        assert(padded_length_in_words * 4 <= usize::MAX);
        self.tape.tape.push((padded_length_in_words * 2) as u32);
        let words = pack_atom(atom, padded_length_in_words);
        let mut k: usize = 0;
        while k < words.len()
            invariant
                k <= words@.len(),
                self.tape.tape@ == before.push((padded_length_in_words * 2) as u32) + words@.take(k as int),
                self.len_of_valid_partial_result_prefix == old(self).len_of_valid_partial_result_prefix,
                self.len_of_valid_partial_result_prefix <= before.len(),
            decreases words@.len() - k,
        {
            self.tape.tape.push(words[k]);
            assert(words@.take(k + 1) =~= words@.take(k as int).push(words@[k as int]));
            k += 1;
        }
        proof {
            assert(words@.take(words@.len() as int) =~= words@);
            assert(self.tape.tape@ =~= before + single_encode_one(SexpView::Atom(atom@)));
        }
        if parent_context.is_none() {
            // We know this atom is at the top-level.
            self.len_of_valid_partial_result_prefix = self.tape.tape.len();
        }
        proof {
            let m = old(self).model();
            assert forall|st: Seq<SingleTapeVisitorContext>| Self::stack_ok(m, st) implies Self::stack_ok(self.model(), st) by {
                assert forall|i: int| 0 <= i < st.len() implies st[i].tape_start_index < self.model().0.len() by {}
            }
        }
    }

    fn list_open(&mut self, _parent_context: Option<&SingleTapeVisitorContext>) -> (r: SingleTapeVisitorContext) {
        let tape_start_index = self.tape.tape.len();
        self.tape.tape.push(0);
        let r = SingleTapeVisitorContext { tape_start_index };
        proof {
            let m = old(self).model();
            assert forall|st: Seq<SingleTapeVisitorContext>| Self::stack_ok(m, st) implies Self::stack_ok(self.model(), st.push(r)) by {
                assert forall|i: int, j: int| 0 <= i < j < st.push(r).len() implies st.push(r)[i].tape_start_index < st.push(r)[j].tape_start_index by {
                    if j == st.len() {
                        assert(st.push(r)[i] == st[i]);
                    } else {
                        assert(st.push(r)[i] == st[i]);
                        assert(st.push(r)[j] == st[j]);
                    }
                }
                assert forall|i: int| 0 <= i < st.push(r).len() implies st.push(r)[i].tape_start_index < self.model().0.len() by {
                    if i < st.len() {
                        assert(st.push(r)[i] == st[i]);
                    }
                }
            }
        }
        r
    }

    fn list_close(&mut self, context: SingleTapeVisitorContext, parent_context: Option<&SingleTapeVisitorContext>) {
        proof {
            let st = choose|st: Seq<SingleTapeVisitorContext>| Self::stack_ok(self.model(), st.push(context));
            assert(st.push(context)[st.len() as int] == context);
        }
        let x: u32 = ((self.tape.tape.len() - context.tape_start_index - 1) * 2 + 1) as u32;
        self.tape.tape.set(context.tape_start_index, x);
        if parent_context.is_none() {
            // We know this list_close is closing a top-level sexp.
            self.len_of_valid_partial_result_prefix = self.tape.tape.len();
        }
        proof {
            let m = old(self).model();
            assert forall|st: Seq<SingleTapeVisitorContext>| Self::stack_ok(m, st.push(context)) implies Self::stack_ok(self.model(), st) by {
                assert forall|i: int| 0 <= i < st.len() implies st[i].tape_start_index < self.model().0.len() by {
                    assert(st.push(context)[i] == st[i]);
                }
                assert forall|i: int, j: int| 0 <= i < j < st.len() implies st[i].tape_start_index < st[j].tape_start_index by {
                    assert(st.push(context)[i] == st[i]);
                    assert(st.push(context)[j] == st[j]);
                }
            }
        }
    }

    fn eof(&mut self) -> (r: SingleTape) {
        let mut out = SingleTape::new();
        std::mem::swap(&mut out, &mut self.tape);
        self.len_of_valid_partial_result_prefix = 0;
        out
    }
}

/// The tape that a [`SingleTapeVisitor`] builds for the sexps `xs`, after
/// what it already holds, is their single-tape encoding.
pub proof fn lemma_single_tape_visitor_builds(
    m: (Seq<u32>, int),
    xs: Seq<SexpView>,
    parent: Option<SingleTapeVisitorContext>,
)
    requires
        m.0.len() + single_encode(xs).len() <= usize::MAX,
    ensures
        visitor_build::<SingleTapeVisitor>(m, xs, parent).0 == m.0 + single_encode(xs),
    decreases xs,
{
    if xs.len() == 0 {
        assert(m.0 + Seq::<u32>::empty() =~= m.0);
    } else {
        lemma_single_tape_visitor_builds(m, xs.drop_last(), parent);
        let m1 = visitor_build::<SingleTapeVisitor>(m, xs.drop_last(), parent);
        lemma_single_tape_visitor_builds_one(m1, xs.last(), parent);
        assert(m.0 + single_encode(xs.drop_last()) + single_encode_one(xs.last()) =~= m.0 + (single_encode(
            xs.drop_last(),
        ) + single_encode_one(xs.last())));
    }
}

pub proof fn lemma_single_tape_visitor_builds_one(
    m: (Seq<u32>, int),
    x: SexpView,
    parent: Option<SingleTapeVisitorContext>,
)
    requires
        m.0.len() + single_encode_one(x).len() <= usize::MAX,
    ensures
        visitor_build_one::<SingleTapeVisitor>(m, x, parent).0 == m.0 + single_encode_one(x),
    decreases x,
{
    match x {
        SexpView::Atom(a) => {},
        SexpView::List(l) => {
            let (m1, c) = SingleTapeVisitor::spec_list_open(m, parent);
            let t = single_encode(l);
            lemma_single_tape_visitor_builds(m1, l, Some(c));
            let m2 = visitor_build::<SingleTapeVisitor>(m1, l, Some(c));
            assert(m2.0 == m.0.push(0u32) + t);
            assert(m2.0.update(m.0.len() as int, ((t.len() * 2 + 1) as u32)) =~= m.0 + (seq![(t.len() * 2 + 1) as u32] + t));
        },
    }
}

/// Two sequences of sexps with the same single-tape encoding are the same.
#[verifier::rlimit(50)]
proof fn lemma_single_injective(xs: Seq<SexpView>, ys: Seq<SexpView>)
    requires
        single_encode(xs) == single_encode(ys),
        single_fits(xs),
        single_fits(ys),
    ensures
        xs == ys,
    decreases single_encode(xs).len(),
{
    if xs.len() == 0 || ys.len() == 0 {
        if xs.len() > 0 {
            lemma_single_step(xs, 0);
            assert(xs.skip(0) =~= xs);
            match xs[0] {
                SexpView::Atom(a) => {},
                SexpView::List(l) => {},
            }
            assert(false);
        }
        if ys.len() > 0 {
            lemma_single_step(ys, 0);
            assert(ys.skip(0) =~= ys);
            match ys[0] {
                SexpView::Atom(a) => {},
                SexpView::List(l) => {},
            }
            assert(false);
        }
        assert(xs =~= ys);
    } else {
        lemma_single_step(xs, 0);
        lemma_single_step(ys, 0);
        assert(xs.skip(0) =~= xs);
        assert(ys.skip(0) =~= ys);
        let ex = single_encode_one(xs[0]);
        let ey = single_encode_one(ys[0]);
        let rx = single_encode(xs.skip(1));
        let ry = single_encode(ys.skip(1));
        assert(single_encode(xs) == ex + rx);
        assert(single_encode(ys) == ey + ry);
        assert(single_encode(xs)[0] == ex[0]);
        assert(single_encode(ys)[0] == ey[0]);
        match xs[0] {
            SexpView::Atom(a) => {
                match ys[0] {
                    SexpView::Atom(b) => {
                        lemma_atom_packing(a);
                        lemma_atom_packing(b);
                        lemma_unpad_pad(a);
                        lemma_unpad_pad(b);
                        let w = atom_words(a.len() as int);
                        assert(w == atom_words(b.len() as int));
                        assert(pack_words(pad_atom(a)) =~= single_encode(xs).subrange(1, 1 + w));
                        assert(pack_words(pad_atom(b)) =~= single_encode(ys).subrange(1, 1 + w));
                        assert(pad_atom(a) == pad_atom(b));
                    },
                    SexpView::List(l) => {
                        assert(false);
                    },
                }
            },
            SexpView::List(l) => {
                match ys[0] {
                    SexpView::Atom(b) => {
                        assert(false);
                    },
                    SexpView::List(m) => {
                        let tl = single_encode(l);
                        let tm = single_encode(m);
                        assert(tl.len() == tm.len());
                        assert(tl =~= single_encode(xs).subrange(1, 1 + tl.len() as int));
                        assert(tm =~= single_encode(ys).subrange(1, 1 + tm.len() as int));
                        lemma_single_injective(l, m);
                    },
                }
            },
        }
        assert(xs[0] == ys[0]);
        assert(rx =~= single_encode(xs).skip(ex.len() as int));
        assert(ry =~= single_encode(ys).skip(ey.len() as int));
        lemma_single_injective(xs.skip(1), ys.skip(1));
        assert(xs =~= seq![xs[0]] + xs.skip(1));
        assert(ys =~= seq![ys[0]] + ys.skip(1));
    }
}

/// Reading back the tape that a [`SingleTapeVisitor`] builds for the sexps
/// `xs` gives back `xs`.
pub proof fn lemma_single_tape_roundtrip(xs: Seq<SexpView>, tape: SingleTape)
    requires
        single_fits(xs),
        single_encode(xs).len() * 4 <= usize::MAX,
        tape.tape@ == visitor_build::<SingleTapeVisitor>((Seq::<u32>::empty(), 0int), xs, None).0,
    ensures
        tape.visitable(),
        tape.events() == document_events(xs),
{
    lemma_single_tape_visitor_builds((Seq::<u32>::empty(), 0int), xs, None);
    assert(Seq::<u32>::empty() + single_encode(xs) =~= single_encode(xs));
    assert(tape.encodes(xs));
    let ys = choose|ys: Seq<SexpView>| tape.encodes(ys);
    lemma_single_injective(xs, ys);
}

} // verus!
