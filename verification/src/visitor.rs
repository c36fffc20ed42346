use vstd::prelude::*;

verus! {

/// Builds sexps of some type from atoms and lists.
pub trait SexpFactory {
    type Sexp;
    /// What a sexp stands for.
    type SexpModel;

    spec fn sexp_model(s: Self::Sexp) -> Self::SexpModel;

    spec fn spec_atom(a: Seq<u8>) -> Self::SexpModel;

    spec fn spec_list(xs: Seq<Self::SexpModel>) -> Self::SexpModel;

    fn atom(&self, a: Vec<u8>) -> (r: Self::Sexp)
        ensures
            Self::sexp_model(r) == Self::spec_atom(a@),
    ;

    fn list(&self, xs: Vec<Self::Sexp>) -> (r: Self::Sexp)
        ensures
            Self::sexp_model(r) == Self::spec_list(xs@.map_values(|s: Self::Sexp| Self::sexp_model(s))),
    ;
}

/// An event of a traversal of a fully parsed sexp.
pub enum ReadEvent {
    Reset,
    Atom(Seq<u8>),
    ListOpen,
    ListClose,
    Eof,
}

/// Visitor for traversing a sexp type that is already fully parsed and
/// validated
pub trait ReadVisitor {
    type Model;

    spec fn model(&self) -> Self::Model;

    /// The effect of one event.
    spec fn spec_event(m: Self::Model, e: ReadEvent) -> Self::Model;

    fn reset(&mut self)
        ensures
            final(self).model() == Self::spec_event(old(self).model(), ReadEvent::Reset),
    ;

    fn atom(&mut self, atom: &[u8])
        ensures
            final(self).model() == Self::spec_event(old(self).model(), ReadEvent::Atom(atom@)),
    ;

    fn list_open(&mut self)
        ensures
            final(self).model() == Self::spec_event(old(self).model(), ReadEvent::ListOpen),
    ;

    fn list_close(&mut self)
        ensures
            final(self).model() == Self::spec_event(old(self).model(), ReadEvent::ListClose),
    ;

    fn eof(&mut self)
        ensures
            final(self).model() == Self::spec_event(old(self).model(), ReadEvent::Eof),
    ;
}

/// The effect of a sequence of events, one after another.
pub open spec fn run_events<V: ReadVisitor>(m: V::Model, events: Seq<ReadEvent>) -> V::Model
    decreases events.len(),
{
    if events.len() == 0 {
        m
    } else {
        V::spec_event(run_events::<V>(m, events.drop_last()), events.last())
    }
}

pub proof fn lemma_run_events_append<V: ReadVisitor>(m: V::Model, a: Seq<ReadEvent>, b: Seq<ReadEvent>)
    ensures
        run_events::<V>(m, a + b) == run_events::<V>(run_events::<V>(m, a), b),
    decreases b.len(),
{
    if b.len() == 0 {
        assert(a + b =~= a);
    } else {
        lemma_run_events_append::<V>(m, a, b.drop_last());
        assert((a + b).drop_last() =~= a + b.drop_last());
    }
}

pub proof fn lemma_run_events_single<V: ReadVisitor>(m: V::Model, e: ReadEvent)
    ensures
        run_events::<V>(m, seq![e]) == V::spec_event(m, e),
{
    assert(seq![e].drop_last() =~= Seq::<ReadEvent>::empty());
    assert(run_events::<V>(m, seq![e].drop_last()) == m);
    assert(seq![e].last() == e);
}

/// Running `a` and then one more event.
pub proof fn lemma_run_events_push<V: ReadVisitor>(m: V::Model, a: Seq<ReadEvent>, e: ReadEvent)
    ensures
        run_events::<V>(m, a + seq![e]) == V::spec_event(run_events::<V>(m, a), e),
{
    assert((a + seq![e]).drop_last() =~= a);
}

/// A fully parsed sexp, or sequence of sexps, that can be traversed.
pub trait ReadVisitable {
    /// Whether the value is well formed enough to be traversed.
    spec fn visitable(&self) -> bool;

    /// The events of a traversal.
    spec fn events(&self) -> Seq<ReadEvent>;

    fn visit<VisitorT: ReadVisitor>(&self, visitor: &mut VisitorT)
        requires
            self.visitable(),
        ensures
            final(visitor).model() == run_events::<VisitorT>(old(visitor).model(), self.events()),
    ;
}

/// Visitor for constructing a sexp type by parsing a potentially invalid
/// string.
pub trait Visitor: Sized {
    type Context;
    type Return;
    type Model;
    type ReturnModel;

    spec fn inv(&self) -> bool;

    spec fn model(&self) -> Self::Model;

    spec fn return_model(r: Self::Return) -> Self::ReturnModel;

    /// Whether `stack` is a stack of contexts of open lists that the visitor
    /// in `m` can go on with.
    spec fn stack_ok(m: Self::Model, stack: Seq<Self::Context>) -> bool;

    /// Whether an atom of `len` bytes fits what the visitor can represent.
    spec fn atom_ok(m: Self::Model, len: int) -> bool;

    /// Whether one more list fits what the visitor can represent.
    spec fn list_ok(m: Self::Model) -> bool;

    /// Whether closing the list with context `context` now fits what the
    /// visitor can represent.
    spec fn close_ok(m: Self::Model, context: Self::Context) -> bool;

    spec fn spec_reset(m: Self::Model, input_size_hint: Option<usize>) -> Self::Model;

    spec fn spec_atom(m: Self::Model, atom: Seq<u8>, parent: Option<Self::Context>) -> Self::Model;

    spec fn spec_list_open(m: Self::Model, parent: Option<Self::Context>) -> (Self::Model, Self::Context);

    spec fn spec_list_close(m: Self::Model, context: Self::Context, parent: Option<Self::Context>) -> Self::Model;

    spec fn spec_eof(m: Self::Model) -> (Self::Model, Self::ReturnModel);

    fn reset(&mut self, input_size_hint: Option<usize>)
        requires
            old(self).inv(),
        ensures
            final(self).inv(),
            final(self).model() == Self::spec_reset(old(self).model(), input_size_hint),
            forall|st: Seq<Self::Context>| Self::stack_ok(old(self).model(), st) ==> Self::stack_ok(final(self).model(), st),
    ;

    fn atom(&mut self, atom: &[u8], parent_context: Option<&Self::Context>)
        requires
            old(self).inv(),
            Self::atom_ok(old(self).model(), atom@.len() as int),
        ensures
            final(self).inv(),
            final(self).model() == Self::spec_atom(
                old(self).model(),
                atom@,
                match parent_context {
                    Some(c) => Some(*c),
                    None => None,
                },
            ),
            forall|st: Seq<Self::Context>| Self::stack_ok(old(self).model(), st) ==> Self::stack_ok(final(self).model(), st),
    ;

    fn list_open(&mut self, parent_context: Option<&Self::Context>) -> (r: Self::Context)
        requires
            old(self).inv(),
            Self::list_ok(old(self).model()),
        ensures
            final(self).inv(),
            (final(self).model(), r) == Self::spec_list_open(
                old(self).model(),
                match parent_context {
                    Some(c) => Some(*c),
                    None => None,
                },
            ),
            forall|st: Seq<Self::Context>| Self::stack_ok(old(self).model(), st) ==> Self::stack_ok(final(self).model(), st.push(r)),
    ;

    fn list_close(&mut self, context: Self::Context, parent_context: Option<&Self::Context>)
        requires
            old(self).inv(),
            exists|st: Seq<Self::Context>| Self::stack_ok(old(self).model(), st.push(context)),
            Self::close_ok(old(self).model(), context),
        ensures
            final(self).inv(),
            final(self).model() == Self::spec_list_close(
                old(self).model(),
                context,
                match parent_context {
                    Some(c) => Some(*c),
                    None => None,
                },
            ),
            forall|st: Seq<Self::Context>| Self::stack_ok(old(self).model(), st.push(context)) ==> Self::stack_ok(final(self).model(), st),
    ;

    fn eof(&mut self) -> (r: Self::Return)
        requires
            old(self).inv(),
        ensures
            final(self).inv(),
            (final(self).model(), Self::return_model(r)) == Self::spec_eof(old(self).model()),
            Self::stack_ok(final(self).model(), Seq::empty()),
    ;
}

/// Adapter to allow a SexpFactory to become a Visitor
pub struct SimpleVisitor<SexpFactoryT: SexpFactory> {
    sexp_factory: SexpFactoryT,
    sexp_stack: Vec<SexpFactoryT::Sexp>,
}

impl<SexpFactoryT: SexpFactory> SimpleVisitor<SexpFactoryT> {
    pub fn new(sexp_factory: SexpFactoryT) -> (r: Self)
        ensures
            r.model() == Seq::<SexpFactoryT::SexpModel>::empty(),
    {
        let r = SimpleVisitor { sexp_factory, sexp_stack: Vec::new() };
        assert(r.sexp_stack@.map_values(|s: SexpFactoryT::Sexp| SexpFactoryT::sexp_model(s)) =~= Seq::<SexpFactoryT::SexpModel>::empty());
        r
    }
}

impl<SexpFactoryT: SexpFactory> Visitor for SimpleVisitor<SexpFactoryT> {
    type Context = usize;
    type Return = Vec<SexpFactoryT::Sexp>;
    /// The stack of sexps built so far.
    type Model = Seq<SexpFactoryT::SexpModel>;
    type ReturnModel = Seq<SexpFactoryT::SexpModel>;

    open spec fn inv(&self) -> bool {
        true
    }

    closed spec fn model(&self) -> Self::Model {
        self.sexp_stack@.map_values(|s: SexpFactoryT::Sexp| SexpFactoryT::sexp_model(s))
    }

    open spec fn return_model(r: Self::Return) -> Self::ReturnModel {
        r@.map_values(|s: SexpFactoryT::Sexp| SexpFactoryT::sexp_model(s))
    }

    open spec fn stack_ok(m: Self::Model, stack: Seq<usize>) -> bool {
        &&& forall|i: int| 0 <= i < stack.len() ==> stack[i] <= m.len()
        &&& forall|i: int, j: int| 0 <= i <= j < stack.len() ==> stack[i] <= stack[j]
    }

    open spec fn atom_ok(m: Self::Model, len: int) -> bool {
        true
    }

    open spec fn list_ok(m: Self::Model) -> bool {
        true
    }

    open spec fn close_ok(m: Self::Model, context: usize) -> bool {
        true
    }

    open spec fn spec_reset(m: Self::Model, input_size_hint: Option<usize>) -> Self::Model {
        m
    }

    open spec fn spec_atom(m: Self::Model, atom: Seq<u8>, parent: Option<usize>) -> Self::Model {
        m.push(SexpFactoryT::spec_atom(atom))
    }

    open spec fn spec_list_open(m: Self::Model, parent: Option<usize>) -> (Self::Model, usize) {
        (m, m.len() as usize)
    }

    open spec fn spec_list_close(m: Self::Model, context: usize, parent: Option<usize>) -> Self::Model {
        m.take(context as int).push(SexpFactoryT::spec_list(m.skip(context as int)))
    }

    open spec fn spec_eof(m: Self::Model) -> (Self::Model, Self::ReturnModel) {
        (Seq::empty(), m)
    }

    fn reset(&mut self, _input_size_hint: Option<usize>) {
    }

    fn atom(&mut self, atom: &[u8], _parent_context: Option<&usize>) {
        let a = vstd::slice::slice_to_vec(atom);
        let s = self.sexp_factory.atom(a);
        let ghost before = self.sexp_stack@;
        self.sexp_stack.push(s);
        assert(self.sexp_stack@.map_values(|s: SexpFactoryT::Sexp| SexpFactoryT::sexp_model(s))
            =~= before.map_values(|s: SexpFactoryT::Sexp| SexpFactoryT::sexp_model(s)).push(SexpFactoryT::spec_atom(atom@)));
    }

    fn list_open(&mut self, _parent_context: Option<&usize>) -> (r: usize) {
        self.sexp_stack.len()
    }

    fn list_close(&mut self, context: usize, _parent_context: Option<&usize>) {
        let ghost before = self.sexp_stack@;
        let ghost m = self.model();
        proof {
            let st = choose|st: Seq<usize>| Self::stack_ok(m, st.push(context));
            assert(st.push(context)[st.len() as int] == context);
        }
        let inner = self.sexp_stack.split_off(context);
        assert(inner@.map_values(|s: SexpFactoryT::Sexp| SexpFactoryT::sexp_model(s)) =~= m.skip(context as int));
        let sexp = self.sexp_factory.list(inner);
        self.sexp_stack.push(sexp);
        assert(self.sexp_stack@.map_values(|s: SexpFactoryT::Sexp| SexpFactoryT::sexp_model(s))
            =~= m.take(context as int).push(SexpFactoryT::spec_list(m.skip(context as int))));
        proof {
            let m2 = self.model();
            assert forall|st: Seq<usize>| Self::stack_ok(m, st.push(context)) implies Self::stack_ok(m2, st) by {
                assert forall|i: int| 0 <= i < st.len() implies st[i] <= m2.len() by {
                    assert(st.push(context)[i] == st[i]);
                    assert(st.push(context)[st.len() as int] == context);
                }
                assert forall|i: int, j: int| 0 <= i <= j < st.len() implies st[i] <= st[j] by {
                    assert(st.push(context)[i] == st[i]);
                    assert(st.push(context)[j] == st[j]);
                }
            }
        }
    }

    fn eof(&mut self) -> (r: Vec<SexpFactoryT::Sexp>) {
        let mut out: Vec<SexpFactoryT::Sexp> = Vec::new();
        std::mem::swap(&mut out, &mut self.sexp_stack);
        assert(self.model() =~= Seq::<SexpFactoryT::SexpModel>::empty());
        out
    }
}

/// What a visitor in model `m` becomes when it is handed, in order, the
/// atoms and lists of `xs`, all inside the open list with context `parent`.
pub open spec fn visitor_build<V: Visitor>(
    m: V::Model,
    xs: Seq<crate::rust_parser::SexpView>,
    parent: Option<V::Context>,
) -> V::Model
    decreases xs,
{
    if xs.len() == 0 {
        m
    } else {
        visitor_build_one::<V>(visitor_build::<V>(m, xs.drop_last(), parent), xs.last(), parent)
    }
}

/// What a visitor in model `m` becomes when it is handed the sexp `x`
/// inside the open list with context `parent`.
pub open spec fn visitor_build_one<V: Visitor>(
    m: V::Model,
    x: crate::rust_parser::SexpView,
    parent: Option<V::Context>,
) -> V::Model
    decreases x,
{
    match x {
        crate::rust_parser::SexpView::Atom(a) => V::spec_atom(m, a, parent),
        crate::rust_parser::SexpView::List(l) => {
            let (m1, c) = V::spec_list_open(m, parent);
            V::spec_list_close(visitor_build::<V>(m1, l, Some(c)), c, parent)
        },
    }
}

} // verus!
