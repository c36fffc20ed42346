use vstd::prelude::*;
use crate::escape::spec_unescape;
use crate::parser::{
    Error, Stage2, VisitorState, fold_pairs, fold_window_ok, is_whitespace, spec_parse_all,
    stream_eof_ok, stream_feed_ok, structural_positions, top_context,
};
use crate::structural::ScanState;
use crate::rust_parser::{
    self, SexpView, SingleTape, SingleTapeVisitor, SplitTape, SplitTapeVisitor, document_events,
    single_encode, single_fits, split_encode, split_fits,
};
use crate::visitor::{ReadVisitable, SimpleVisitor};
use crate::visitor::{ReadEvent, Visitor, visitor_build, visitor_build_one};

verus! {

/// What the structural index `this_index`, followed by `next_index`, of
/// `input` tells a visitor when `depth` lists are open: an event, nothing
/// (white space), or an error. No visitor takes part in this.
pub open spec fn pair_event(input: Seq<u8>, this_index: int, next_index: int, depth: int) -> Result<
    Option<ReadEvent>,
    Error,
> {
    let ch = input[this_index];
    if ch == 0x28u8 {
        Ok(Some(ReadEvent::ListOpen))
    } else if ch == 0x29u8 {
        if depth == 0 {
            Err(Error::UnmatchedCloseParen)
        } else {
            Ok(Some(ReadEvent::ListClose))
        }
    } else if ch == 0x22u8 {
        match spec_unescape(input.skip(this_index + 1)) {
            Some((_, out)) => Ok(Some(ReadEvent::Atom(out))),
            None => Err(Error::BadQuotedAtom),
        }
    } else if is_whitespace(ch) {
        Ok(None)
    } else {
        Ok(Some(ReadEvent::Atom(input.subrange(this_index, next_index))))
    }
}

/// The number of lists open after `e`, when `depth` were open before.
pub open spec fn depth_after(depth: int, e: Option<ReadEvent>) -> int {
    match e {
        Some(ReadEvent::ListOpen) => depth + 1,
        Some(ReadEvent::ListClose) => depth - 1,
        _ => depth,
    }
}

/// The events of the first `count` pairs of consecutive structural indices
/// `p[k]`, `p[k + 1]` of `input`, with `depth` lists open at the start, and
/// the number of lists open after them; or the first error.
pub open spec fn pairs_events(input: Seq<u8>, p: Seq<usize>, count: int, depth: int) -> Result<
    (Seq<ReadEvent>, int),
    Error,
>
    decreases count,
{
    if count <= 0 {
        Ok((seq![], depth))
    } else {
        match pairs_events(input, p, count - 1, depth) {
            Err(e) => Err(e),
            Ok((evs, d)) => match pair_event(input, p[count - 1] as int, p[count] as int, d) {
                Err(e) => Err(e),
                Ok(None) => Ok((evs, d)),
                Ok(Some(ev)) => Ok((evs.push(ev), depth_after(d, Some(ev)))),
            },
        }
    }
}

/// The events of a whole input, scanned from `s0`: every structural index
/// with the next one, the last with the end of input; an error when a list
/// is still open at the end.
pub open spec fn document_parse(s0: ScanState, input: Seq<u8>) -> Result<Seq<ReadEvent>, Error> {
    let p = structural_positions(s0, input, input.len() as int);
    let n = p.len() as int;
    match pairs_events(input, p, n - 1, 0) {
        Err(e) => Err(e),
        Ok((evs, d)) => {
            let last = if n == 0 {
                Ok((evs, d))
            } else {
                match pair_event(input, p[n - 1] as int, input.len() as int, d) {
                    Err(e) => Err(e),
                    Ok(None) => Ok((evs, d)),
                    Ok(Some(ev)) => Ok((evs.push(ev), depth_after(d, Some(ev)))),
                }
            };
            match last {
                Err(e) => Err(e),
                Ok((evs2, d2)) => if d2 > 0 {
                    Err(Error::UnmatchedOpenParen)
                } else {
                    Ok(evs2)
                },
            }
        },
    }
}

/// What one event does to a visitor in model `vm` with the contexts
/// `stack` of its open lists.
pub open spec fn visit_step<V: Visitor>(s: (V::Model, Seq<V::Context>), e: ReadEvent) -> (
    V::Model,
    Seq<V::Context>,
) {
    let (vm, stack) = s;
    match e {
        ReadEvent::ListOpen => {
            let (vm2, c) = V::spec_list_open(vm, top_context(stack));
            (vm2, stack.push(c))
        },
        ReadEvent::ListClose => if stack.len() == 0 {
            s
        } else {
            let rest = stack.drop_last();
            (V::spec_list_close(vm, stack.last(), top_context(rest)), rest)
        },
        ReadEvent::Atom(a) => (V::spec_atom(vm, a, top_context(stack)), stack),
        _ => s,
    }
}

/// What a sequence of events does to a visitor.
pub open spec fn visit_run<V: Visitor>(s: (V::Model, Seq<V::Context>), evs: Seq<ReadEvent>) -> (
    V::Model,
    Seq<V::Context>,
)
    decreases evs.len(),
{
    if evs.len() == 0 {
        s
    } else {
        visit_step::<V>(visit_run::<V>(s, evs.drop_last()), evs.last())
    }
}

proof fn lemma_pair_step<V: Visitor>(
    s: (V::Model, Seq<V::Context>),
    evs: Seq<ReadEvent>,
    input: Seq<u8>,
    this_index: int,
    next_index: int,
    is_eof: bool,
)
    requires
        0 <= this_index < next_index <= input.len(),
    ensures
        ({
            let m = visit_run::<V>(s, evs);
            match pair_event(input, this_index, next_index, m.1.len() as int) {
                Err(e) => VisitorState::<V>::spec_process_one(m, input, 0, this_index, next_index, is_eof)
                    == Err::<((V::Model, Seq<V::Context>), int), Error>(e),
                Ok(None) => VisitorState::<V>::spec_process_one(m, input, 0, this_index, next_index, is_eof)
                    == Ok::<((V::Model, Seq<V::Context>), int), Error>((m, next_index)),
                Ok(Some(ev)) => {
                    &&& VisitorState::<V>::spec_process_one(m, input, 0, this_index, next_index, is_eof)
                        == Ok::<((V::Model, Seq<V::Context>), int), Error>((visit_run::<V>(s, evs.push(ev)), next_index))
                    &&& visit_run::<V>(s, evs.push(ev)).1.len() == depth_after(m.1.len() as int, Some(ev))
                },
            }
        }),
{
    let m = visit_run::<V>(s, evs);
    assert(evs.push(ReadEvent::ListOpen).drop_last() =~= evs);
    assert(evs.push(ReadEvent::ListClose).drop_last() =~= evs);
    assert(input.subrange(this_index - 0, next_index - 0) =~= input.subrange(this_index, next_index));
    assert(input.skip(this_index + 1 - 0) =~= input.skip(this_index + 1));
    match pair_event(input, this_index, next_index, m.1.len() as int) {
        Ok(Some(ev)) => {
            assert(evs.push(ev).drop_last() =~= evs);
        },
        _ => {},
    }
}

proof fn lemma_pairs<V: Visitor>(
    vm: V::Model,
    stack: Seq<V::Context>,
    input: Seq<u8>,
    p: Seq<usize>,
    count: int,
)
    requires
        count < p.len(),
        forall|k: int| 0 <= k < p.len() ==> #[trigger] p[k] < input.len(),
        forall|j: int, k: int| 0 <= j < k < p.len() ==> p[j] < p[k],
    ensures
        match pairs_events(input, p, count, stack.len() as int) {
            Err(e) => fold_pairs::<VisitorState<V>>((vm, stack), input, p, count) == Err::<
                (V::Model, Seq<V::Context>),
                Error,
            >(e),
            Ok((evs, d)) => {
                &&& fold_pairs::<VisitorState<V>>((vm, stack), input, p, count) == Ok::<
                    (V::Model, Seq<V::Context>),
                    Error,
                >(visit_run::<V>((vm, stack), evs))
                &&& visit_run::<V>((vm, stack), evs).1.len() == d
            },
        },
    decreases count,
{
    if count > 0 {
        lemma_pairs::<V>(vm, stack, input, p, count - 1);
        match pairs_events(input, p, count - 1, stack.len() as int) {
            Err(e) => {},
            Ok((evs, d)) => {
                lemma_pair_step::<V>((vm, stack), evs, input, p[count - 1] as int, p[count] as int, false);
            },
        }
    }
}

/// Law: parsing hands every visitor the same events. Whatever the visitor,
/// parsing `input` fails exactly when `document_parse` does, with the same
/// error; otherwise the visitor is reset, is handed the events of
/// `document_parse` in order, and its result is what it gives at the end of
/// input.
pub proof fn lemma_visitors_see_the_same_events<V: Visitor>(vm: V::Model, s0: ScanState, input: Seq<u8>)
    requires
        input.len() <= usize::MAX,
    ensures
        spec_parse_all::<VisitorState<V>>((vm, Seq::empty()), s0, input) == match document_parse(
            s0,
            input,
        ) {
            Err(e) => Err::<V::ReturnModel, Error>(e),
            Ok(evs) => Ok(
                V::spec_eof(
                    visit_run::<V>((V::spec_reset(vm, Some(input.len() as usize)), Seq::empty()), evs).0,
                ).1,
            ),
        },
        document_parse(s0, input) matches Ok(evs) ==> visit_run::<V>(
            (V::spec_reset(vm, Some(input.len() as usize)), Seq::empty()),
            evs,
        ).1.len() == 0,
{
    let p = structural_positions(s0, input, input.len() as int);
    let n = p.len() as int;
    let vm0 = V::spec_reset(vm, Some(input.len() as usize));
    let st0 = Seq::<V::Context>::empty();
    crate::parser::lemma_positions_bounds(s0, input, input.len() as int);
    assert(VisitorState::<V>::spec_reset((vm, st0), Some(input.len() as usize)) == (vm0, st0));
    if n > 0 {
        lemma_pairs::<V>(vm0, st0, input, p, n - 1);
        match pairs_events(input, p, n - 1, 0) {
            Err(e) => {},
            Ok((evs, d)) => {
                lemma_pair_step::<V>((vm0, st0), evs, input, p[n - 1] as int, input.len() as int, true);
            },
        }
    }
}

/// The sexps being built after a sequence of events: the finished sexps of
/// each open level, outermost first; a close with no open list is ignored.
pub open spec fn tree_step(levels: Seq<Seq<SexpView>>, e: ReadEvent) -> Seq<Seq<SexpView>> {
    match e {
        ReadEvent::ListOpen => levels.push(seq![]),
        ReadEvent::ListClose => if levels.len() <= 1 {
            levels
        } else {
            let rest = levels.drop_last();
            rest.update(rest.len() - 1, rest.last().push(SexpView::List(levels.last())))
        },
        ReadEvent::Atom(a) => levels.update(levels.len() - 1, levels.last().push(SexpView::Atom(a))),
        _ => levels,
    }
}

/// The levels of sexps after a sequence of events, from `levels`.
pub open spec fn tree_run(levels: Seq<Seq<SexpView>>, evs: Seq<ReadEvent>) -> Seq<Seq<SexpView>>
    decreases evs.len(),
{
    if evs.len() == 0 {
        levels
    } else {
        tree_step(tree_run(levels, evs.drop_last()), evs.last())
    }
}

/// The sexps that a sequence of events builds at the top level.
pub open spec fn document_trees(evs: Seq<ReadEvent>) -> Seq<SexpView> {
    tree_run(seq![seq![]], evs)[0]
}

/// A visitor that started in `vm` and has been handed the sexps of
/// `levels`: those of the first level at the top, then each further level
/// inside a list opened after the sexps of the level before it.
pub open spec fn visitor_partial<V: Visitor>(vm: V::Model, levels: Seq<Seq<SexpView>>) -> (
    V::Model,
    Seq<V::Context>,
)
    decreases levels.len(),
{
    if levels.len() <= 1 {
        (
            visitor_build::<V>(
                vm,
                if levels.len() == 1 {
                    levels[0]
                } else {
                    seq![]
                },
                None,
            ),
            seq![],
        )
    } else {
        let (m, st) = visitor_partial::<V>(vm, levels.drop_last());
        let (m1, c) = V::spec_list_open(m, top_context(st));
        (visitor_build::<V>(m1, levels.last(), Some(c)), st.push(c))
    }
}

proof fn lemma_partial_depth<V: Visitor>(vm: V::Model, levels: Seq<Seq<SexpView>>)
    requires
        levels.len() >= 1,
    ensures
        visitor_partial::<V>(vm, levels).1.len() == levels.len() - 1,
    decreases levels.len(),
{
    if levels.len() > 1 {
        lemma_partial_depth::<V>(vm, levels.drop_last());
    }
}

proof fn lemma_tree_step<V: Visitor>(vm: V::Model, levels: Seq<Seq<SexpView>>, e: ReadEvent)
    requires
        levels.len() >= 1,
    ensures
        tree_step(levels, e).len() >= 1,
        visit_step::<V>(visitor_partial::<V>(vm, levels), e) == visitor_partial::<V>(vm, tree_step(levels, e)),
{
    lemma_partial_depth::<V>(vm, levels);
    let p = visitor_partial::<V>(vm, levels);
    let l2 = tree_step(levels, e);
    match e {
        ReadEvent::ListOpen => {
            assert(l2.drop_last() =~= levels);
            let (m1, c) = V::spec_list_open(p.0, top_context(p.1));
            assert(l2.last().len() == 0);
            assert(visitor_build::<V>(m1, l2.last(), Some(c)) == m1);
            assert(visitor_partial::<V>(vm, l2) == (m1, p.1.push(c)));
            assert(visit_step::<V>(p, e) == (m1, p.1.push(c)));
        },
        ReadEvent::ListClose => {
            if levels.len() > 1 {
                let rest = levels.drop_last();
                let x = SexpView::List(levels.last());
                let lk = rest.last();
                assert(lk.push(x).drop_last() =~= lk);
                assert(lk.push(x).last() == x);
                let q = visitor_partial::<V>(vm, rest);
                let (m1, c) = V::spec_list_open(q.0, top_context(q.1));
                assert(p == (visitor_build::<V>(m1, levels.last(), Some(c)), q.1.push(c)));
                assert(p.1.drop_last() =~= q.1);
                assert(visit_step::<V>(p, e) == (
                    V::spec_list_close(visitor_build::<V>(m1, levels.last(), Some(c)), c, top_context(q.1)),
                    q.1,
                ));
                if rest.len() == 1 {
                    assert(l2.len() == 1);
                    assert(l2[0] == lk.push(x));
                    assert(q == (visitor_build::<V>(vm, lk, None), Seq::<V::Context>::empty()));
                    assert(visitor_build::<V>(vm, lk.push(x), None) == visitor_build_one::<V>(
                        visitor_build::<V>(vm, lk, None),
                        x,
                        None,
                    ));
                    assert(visit_step::<V>(p, e) == visitor_partial::<V>(vm, l2));
                } else {
                    assert(l2.drop_last() =~= rest.drop_last());
                    assert(l2.last() == lk.push(x));
                    lemma_partial_depth::<V>(vm, rest.drop_last());
                    let r = visitor_partial::<V>(vm, rest.drop_last());
                    let (m0, c0) = V::spec_list_open(r.0, top_context(r.1));
                    assert(q == (visitor_build::<V>(m0, lk, Some(c0)), r.1.push(c0)));
                    assert(top_context(q.1) == Some(c0));
                    assert(visitor_build::<V>(m0, lk.push(x), Some(c0)) == visitor_build_one::<V>(
                        visitor_build::<V>(m0, lk, Some(c0)),
                        x,
                        Some(c0),
                    ));
                    assert(visitor_partial::<V>(vm, l2) == (
                        visitor_build::<V>(m0, lk.push(x), Some(c0)),
                        r.1.push(c0),
                    ));
                    assert(visit_step::<V>(p, e) == visitor_partial::<V>(vm, l2));
                }
            } else {
                assert(p.1.len() == 0);
            }
        },
        ReadEvent::Atom(a) => {
            let x = SexpView::Atom(a);
            let lk = levels.last();
            assert(lk.push(x).drop_last() =~= lk);
            assert(lk.push(x).last() == x);
            if levels.len() > 1 {
                assert(l2.drop_last() =~= levels.drop_last());
                assert(l2.last() == lk.push(x));
                let q = visitor_partial::<V>(vm, levels.drop_last());
                let (m1, c) = V::spec_list_open(q.0, top_context(q.1));
                assert(p == (visitor_build::<V>(m1, lk, Some(c)), q.1.push(c)));
                assert(visitor_build::<V>(m1, lk.push(x), Some(c)) == visitor_build_one::<V>(
                    visitor_build::<V>(m1, lk, Some(c)),
                    x,
                    Some(c),
                ));
                assert(visit_step::<V>(p, e) == visitor_partial::<V>(vm, l2));
            } else {
                assert(l2.len() == 1);
                assert(l2[0] == lk.push(x));
                assert(visitor_build::<V>(vm, lk.push(x), None) == visitor_build_one::<V>(
                    visitor_build::<V>(vm, lk, None),
                    x,
                    None,
                ));
                assert(visit_step::<V>(p, e) == visitor_partial::<V>(vm, l2));
            }
        },
        _ => {},
    }
}

proof fn lemma_tree_run<V: Visitor>(vm: V::Model, evs: Seq<ReadEvent>)
    ensures
        tree_run(seq![seq![]], evs).len() >= 1,
        visit_run::<V>((vm, Seq::empty()), evs) == visitor_partial::<V>(vm, tree_run(seq![seq![]], evs)),
    decreases evs.len(),
{
    if evs.len() == 0 {
        let l: Seq<Seq<SexpView>> = seq![seq![]];
        assert(visitor_build::<V>(vm, l[0], None) == vm);
    } else {
        lemma_tree_run::<V>(vm, evs.drop_last());
        lemma_tree_step::<V>(vm, tree_run(seq![seq![]], evs.drop_last()), evs.last());
    }
}

/// Law: parsing with any visitor builds the same sexps. Whatever the
/// visitor, parsing `input` fails exactly when `document_parse` does, with
/// the same error; otherwise the result is what the reset visitor gives at
/// the end of input after it has been handed the sexps `document_trees` of
/// the input's events, one after another at the top level.
pub proof fn lemma_visitors_build_the_same_sexps<V: Visitor>(vm: V::Model, s0: ScanState, input: Seq<u8>)
    requires
        input.len() <= usize::MAX,
    ensures
        spec_parse_all::<VisitorState<V>>((vm, Seq::empty()), s0, input) == match document_parse(
            s0,
            input,
        ) {
            Err(e) => Err::<V::ReturnModel, Error>(e),
            Ok(evs) => Ok(
                V::spec_eof(
                    visitor_build::<V>(
                        V::spec_reset(vm, Some(input.len() as usize)),
                        document_trees(evs),
                        None,
                    ),
                ).1,
            ),
        },
{
    lemma_visitors_see_the_same_events::<V>(vm, s0, input);
    match document_parse(s0, input) {
        Err(e) => {},
        Ok(evs) => {
            let vm0 = V::spec_reset(vm, Some(input.len() as usize));
            lemma_tree_run::<V>(vm0, evs);
            lemma_partial_depth::<V>(vm0, tree_run(seq![seq![]], evs));
        },
    }
}

/// The number of atoms and lists in `xs`, nested ones included.
pub open spec fn sexps_size(xs: Seq<SexpView>) -> nat
    decreases xs,
{
    if xs.len() == 0 {
        0
    } else {
        sexps_size(xs.drop_last()) + sexp_size(xs.last())
    }
}

/// The number of atoms and lists in `x`, itself included.
pub open spec fn sexp_size(x: SexpView) -> nat
    decreases x,
{
    match x {
        SexpView::Atom(_) => 1,
        SexpView::List(l) => 1 + sexps_size(l),
    }
}

proof fn lemma_sexps_size_len(xs: Seq<SexpView>)
    ensures
        sexps_size(xs) >= xs.len(),
    decreases xs.len(),
{
    if xs.len() > 0 {
        lemma_sexps_size_len(xs.drop_last());
        match xs.last() {
            SexpView::Atom(_) => {},
            SexpView::List(l) => {},
        }
        assert(sexps_size(xs) == sexps_size(xs.drop_last()) + sexp_size(xs.last()));
    }
}

proof fn lemma_sexps_build(m: Seq<SexpView>, xs: Seq<SexpView>, parent: Option<usize>)
    requires
        m.len() + sexps_size(xs) <= usize::MAX,
    ensures
        visitor_build::<SimpleVisitor<rust_parser::SexpFactory>>(m, xs, parent) == m + xs,
    decreases xs,
{
    if xs.len() == 0 {
        assert(m + xs =~= m);
    } else {
        lemma_sexps_build(m, xs.drop_last(), parent);
        lemma_sexps_size_len(xs.drop_last());
        lemma_sexps_build_one(m + xs.drop_last(), xs.last(), parent);
        assert((m + xs.drop_last()).push(xs.last()) =~= m + xs);
    }
}

proof fn lemma_sexps_build_one(m: Seq<SexpView>, x: SexpView, parent: Option<usize>)
    requires
        m.len() + sexp_size(x) <= usize::MAX,
    ensures
        visitor_build_one::<SimpleVisitor<rust_parser::SexpFactory>>(m, x, parent) == m.push(x),
    decreases x,
{
    match x {
        SexpView::Atom(a) => {},
        SexpView::List(l) => {
            lemma_sexps_build(m, l, Some(m.len() as usize));
            let b = m + l;
            assert(b.take(m.len() as int) =~= m);
            assert(b.skip(m.len() as int) =~= l);
        },
    }
}

/// Law: parsing into sexps gives the sexps of the input's events. A parse
/// into [`rust_parser::Sexp`]s that starts with no sexps fails exactly when
/// `document_parse` does, with the same error, and otherwise gives
/// `document_trees` of the events.
pub proof fn lemma_parse_into_sexps(s0: ScanState, input: Seq<u8>)
    requires
        input.len() <= usize::MAX,
        document_parse(s0, input) matches Ok(evs) ==> sexps_size(document_trees(evs)) <= usize::MAX,
    ensures
        spec_parse_all::<VisitorState<SimpleVisitor<rust_parser::SexpFactory>>>(
            (Seq::empty(), Seq::empty()),
            s0,
            input,
        ) == match document_parse(s0, input) {
            Err(e) => Err::<Seq<SexpView>, Error>(e),
            Ok(evs) => Ok(document_trees(evs)),
        },
{
    lemma_visitors_build_the_same_sexps::<SimpleVisitor<rust_parser::SexpFactory>>(Seq::empty(), s0, input);
    match document_parse(s0, input) {
        Err(e) => {},
        Ok(evs) => {
            lemma_sexps_build(Seq::empty(), document_trees(evs), None);
            assert(Seq::<SexpView>::empty() + document_trees(evs) =~= document_trees(evs));
        },
    }
}

/// Law: a split tape that a parse builds reads back as the sexps of the
/// input. When a parse into a split tape that starts empty gives `tape`,
/// the input's events succeed and `tape` is visited exactly as the sexps
/// `document_trees` of those events are.
pub proof fn lemma_split_tape_parse(s0: ScanState, input: Seq<u8>, tape: SplitTape)
    requires
        input.len() <= usize::MAX,
        spec_parse_all::<VisitorState<SplitTapeVisitor>>(
            ((Seq::empty(), Seq::empty()), Seq::empty()),
            s0,
            input,
        ) == Ok::<(Seq<u32>, Seq<u8>), Error>((tape.tape@, tape.atoms@)),
        document_parse(s0, input) matches Ok(evs) ==> split_fits(document_trees(evs), 0)
            && split_encode(document_trees(evs), 0).0.len() <= usize::MAX,
    ensures
        document_parse(s0, input) matches Ok(evs) && tape.visitable() && tape.events()
            == document_events(document_trees(evs)),
{
    lemma_visitors_build_the_same_sexps::<SplitTapeVisitor>((Seq::empty(), Seq::empty()), s0, input);
    match document_parse(s0, input) {
        Err(e) => {},
        Ok(evs) => {
            rust_parser::lemma_split_tape_roundtrip(document_trees(evs), tape);
        },
    }
}

/// Law: a single tape that a parse builds reads back as the sexps of the
/// input. When a parse into a single tape that starts empty gives `tape`,
/// the input's events succeed and `tape` is visited exactly as the sexps
/// `document_trees` of those events are.
pub proof fn lemma_single_tape_parse(s0: ScanState, input: Seq<u8>, tape: SingleTape)
    requires
        input.len() <= usize::MAX,
        spec_parse_all::<VisitorState<SingleTapeVisitor>>(
            ((Seq::empty(), 0int), Seq::empty()),
            s0,
            input,
        ) == Ok::<Seq<u32>, Error>(tape.tape@),
        document_parse(s0, input) matches Ok(evs) ==> single_fits(document_trees(evs))
            && single_encode(document_trees(evs)).len() * 4 <= usize::MAX,
    ensures
        document_parse(s0, input) matches Ok(evs) && tape.visitable() && tape.events()
            == document_events(document_trees(evs)),
{
    lemma_visitors_build_the_same_sexps::<SingleTapeVisitor>((Seq::empty(), 0int), s0, input);
    match document_parse(s0, input) {
        Err(e) => {},
        Ok(evs) => {
            rust_parser::lemma_single_tape_roundtrip(document_trees(evs), tape);
        },
    }
}

/// Whether a stage can represent whatever it is handed.
pub open spec fn never_overflows<S: Stage2>() -> bool {
    forall|m: S::Model, w: Seq<u8>, off: int, i: int, j: int, e: bool|
        #[trigger] S::spec_process_one_ok(m, w, off, i, j, e)
}

proof fn lemma_fold_window_ok_always<S: Stage2>(
    m: S::Model,
    w: Seq<u8>,
    off: int,
    p: Seq<usize>,
    lo: int,
    hi: int,
    keep: int,
)
    requires
        never_overflows::<S>(),
    ensures
        fold_window_ok::<S>(m, w, off, p, lo, hi, keep),
    decreases hi - lo,
{
    if hi > lo {
        lemma_fold_window_ok_always::<S>(m, w, off, p, lo, hi - 1, keep);
        match crate::parser::fold_window::<S>(m, w, off, p, lo, hi - 1, keep) {
            Ok((m1, _)) => {
                assert(S::spec_process_one_ok(m1, w, off, p[hi - 1] as int, p[hi] as int, false));
            },
            Err(_) => {},
        }
    }
}

/// A stream whose stage can represent whatever it is handed takes every
/// part of its input and every end of input: the conditions of
/// `process_partial` and `process_eof` on the stage always hold.
pub proof fn lemma_stream_never_overflows<S: Stage2>(
    m: S::Model,
    s0: ScanState,
    t: Seq<u8>,
    start: int,
    new_input: Seq<u8>,
)
    requires
        never_overflows::<S>(),
    ensures
        stream_feed_ok::<S>(m, s0, t, start, new_input),
        stream_eof_ok::<S>(m, s0, t, start),
{
    let t2 = t + new_input;
    let p = structural_positions(s0, t2, t2.len() as int);
    let n0 = structural_positions(s0, t, t.len() as int).len() as int;
    lemma_fold_window_ok_always::<S>(
        m,
        t2.skip(start),
        start,
        p,
        crate::parser::first_pending(n0),
        p.len() - 1,
        start,
    );
    let q = structural_positions(s0, t, t.len() as int);
    if q.len() > 0 {
        assert(S::spec_process_one_ok(m, t.skip(start), start, q.last() as int, t.len() as int, true));
    }
}

/// Law: a parse into the sexps of a factory never overflows; its stream
/// takes every input that fits in memory.
pub proof fn lemma_sexp_parse_never_overflows<F: crate::visitor::SexpFactory>()
    ensures
        never_overflows::<VisitorState<SimpleVisitor<F>>>(),
{
    assert forall|m: (Seq<F::SexpModel>, Seq<usize>), w: Seq<u8>, off: int, i: int, j: int, e: bool|
        #[trigger] VisitorState::<SimpleVisitor<F>>::spec_process_one_ok(m, w, off, i, j, e) by {
        match spec_unescape(w.skip(i + 1 - off)) {
            Some(_) => {},
            None => {},
        }
    }
}


/// Law: every quoted atom is an atom, whatever its length. At a double
/// quote whose body unescapes, the event is the atom of the unescaped bytes,
/// the empty atom included, and a visitor is handed exactly that atom in
/// the innermost open list; the number of open lists does not change.
pub proof fn lemma_quoted_atoms_are_atoms<V: Visitor>(
    m: (V::Model, Seq<V::Context>),
    input: Seq<u8>,
    this_index: int,
    next_index: int,
    depth: int,
    is_eof: bool,
)
    requires
        0 <= this_index < next_index <= input.len(),
        input[this_index] == 0x22u8,
        spec_unescape(input.skip(this_index + 1)) is Some,
    ensures
        ({
            let out = spec_unescape(input.skip(this_index + 1))->Some_0.1;
            &&& pair_event(input, this_index, next_index, depth) == Ok::<Option<ReadEvent>, Error>(
                Some(ReadEvent::Atom(out)),
            )
            &&& depth_after(depth, Some(ReadEvent::Atom(out))) == depth
            &&& VisitorState::<V>::spec_process_one(m, input, 0, this_index, next_index, is_eof)
                == Ok::<((V::Model, Seq<V::Context>), int), Error>(
                ((V::spec_atom(m.0, out, top_context(m.1)), m.1), next_index),
            )
        }),
{
    assert(input.skip(this_index + 1 - 0) =~= input.skip(this_index + 1));
}

} // verus!
