use vstd::prelude::*;
use crate::structural::{self, Classifier, ScanState, is_structural, scan_final, bit};
use crate::extract::{self, bit_positions};
use crate::escape::{self, Unescape, spec_unescape};
use crate::visitor::{SexpFactory, SimpleVisitor, Visitor};

verus! {

#[verifier::external_type_specification]
#[verifier::external_body]
pub struct ExIoErrorKind(std::io::ErrorKind);

#[derive(Copy, Clone)]
pub struct Input<'a> {
    pub offset: usize,
    pub input: &'a [u8],
}

#[derive(Copy, Clone, Debug, Eq, PartialEq)]
pub enum Error {
    UnmatchedOpenParen,
    UnmatchedCloseParen,
    BadQuotedAtom,
    IOError(std::io::ErrorKind),
}

/// A consumer of the structural indices of an input: it is handed each
/// structural index together with the next one (or the end of input, for
/// the last), and then the end of input.
///
/// Sometimes a `Stage2` is asked to produce a segment of an input sexp, not
/// the whole thing, so it works on a window of the input that starts at
/// `Input::offset`.
pub trait Stage2: Sized {
    type Return;
    /// What the stage remembers between calls.
    type Model;
    /// What its result stands for.
    type ReturnModel;

    spec fn inv(&self) -> bool;

    spec fn model(&self) -> Self::Model;

    spec fn return_model(r: Self::Return) -> Self::ReturnModel;

    spec fn spec_reset(m: Self::Model, input_size_hint: Option<usize>) -> Self::Model;

    /// The effect of one structural index `this_index`, followed by
    /// `next_index`, in the window `input` that starts at `offset`: the new
    /// model and the input index that must be kept for later calls.
    spec fn spec_process_one(
        m: Self::Model,
        input: Seq<u8>,
        offset: int,
        this_index: int,
        next_index: int,
        is_eof: bool,
    ) -> Result<(Self::Model, int), Error>;

    /// Whether `process_one` with these arguments stays within what the
    /// stage can represent (it panics otherwise).
    spec fn spec_process_one_ok(
        m: Self::Model,
        input: Seq<u8>,
        offset: int,
        this_index: int,
        next_index: int,
        is_eof: bool,
    ) -> bool;

    spec fn spec_process_eof(m: Self::Model) -> Result<Self::ReturnModel, Error>;

    /// The index a call asks to keep lies between the start of its window
    /// and `next_index`.
    proof fn lemma_keep_bounds(
        m: Self::Model,
        input: Seq<u8>,
        offset: int,
        this_index: int,
        next_index: int,
        is_eof: bool,
    )
        requires
            offset <= this_index < next_index <= offset + input.len(),
        ensures
            Self::spec_process_one(m, input, offset, this_index, next_index, is_eof) matches Ok(
                (_, keep),
            ) ==> offset <= keep <= next_index,
    ;

    fn reset(&mut self, input_size_hint: Option<usize>)
        requires
            old(self).inv(),
        ensures
            final(self).inv(),
            final(self).model() == Self::spec_reset(old(self).model(), input_size_hint),
    ;

    /// Returns the input index that must be preserved for next call.
    fn process_one(
        &mut self,
        input: Input,
        this_index: usize,
        next_index: usize,
        is_eof: bool,
    ) -> (r: Result<usize, Error>)
        requires
            old(self).inv(),
            input.offset <= this_index < next_index <= input.offset + input.input@.len(),
            Self::spec_process_one_ok(
                old(self).model(),
                input.input@,
                input.offset as int,
                this_index as int,
                next_index as int,
                is_eof,
            ),
        ensures
            final(self).inv(),
            match Self::spec_process_one(
                old(self).model(),
                input.input@,
                input.offset as int,
                this_index as int,
                next_index as int,
                is_eof,
            ) {
                Ok((m, keep)) => r == Ok::<usize, Error>(keep as usize) && final(self).model() == m,
                Err(e) => r == Err::<usize, Error>(e) && final(self).model() == old(self).model(),
            },
    ;

    fn process_eof(&mut self) -> (r: Result<Self::Return, Error>)
        requires
            old(self).inv(),
        ensures
            final(self).inv(),
            match Self::spec_process_eof(old(self).model()) {
                Ok(rm) => r matches Ok(v) && Self::return_model(v) == rm,
                Err(e) => r == Err::<Self::Return, Error>(e) && final(self).model() == old(self).model(),
            },
    ;
}

/// Something that can hand out the part of its result that is complete so
/// far, before the end of input.
pub trait ExtractPartialResult: Sized {
    type PartialReturn;

    /// Whether a partial result can be taken now.
    spec fn can_extract(&self) -> bool;

    /// Whether `after` is what `before` becomes when `r` is taken from it.
    spec fn extracted(before: Self, after: Self, r: Self::PartialReturn) -> bool;

    fn extract_partial_result(&mut self) -> (r: Self::PartialReturn)
        requires
            old(self).can_extract(),
        ensures
            Self::extracted(*old(self), *final(self), r),
    ;
}

/// Whether a byte is a space, a tab or a newline.
pub open spec fn is_whitespace(ch: u8) -> bool {
    ch == 0x20u8 || ch == 0x09u8 || ch == 0x0au8
}

/// The innermost open list's context, if any.
pub open spec fn top_context<C>(stack: Seq<C>) -> Option<C> {
    if stack.len() == 0 {
        None
    } else {
        Some(stack.last())
    }
}

/// A stage that writes its output as it goes, rather than returning it.
pub trait WritingStage2: Sized {
    /// What the stage remembers between calls.
    type Model;

    spec fn inv(&self) -> bool;

    spec fn model(&self) -> Self::Model;

    spec fn spec_reset(m: Self::Model) -> Self::Model;

    /// The effect of one structural index `this_index`, followed by
    /// `next_index`, in the window `input` that starts at `offset`: the new
    /// model, the input index that must be kept for later calls, and the
    /// bytes written.
    spec fn spec_process_one(
        m: Self::Model,
        input: Seq<u8>,
        offset: int,
        this_index: int,
        next_index: int,
        is_eof: bool,
    ) -> Result<(Self::Model, int, Seq<u8>), Error>;

    /// Whether `process_one` with these arguments stays within what the
    /// stage can represent (it panics otherwise).
    spec fn spec_process_one_ok(
        m: Self::Model,
        input: Seq<u8>,
        offset: int,
        this_index: int,
        next_index: int,
        is_eof: bool,
    ) -> bool;

    /// The bytes written at the end of input, or the error found there.
    spec fn spec_process_eof(m: Self::Model) -> Result<Seq<u8>, Error>;

    /// The index a call asks to keep lies between the start of its window
    /// and `next_index`.
    proof fn lemma_keep_bounds(
        m: Self::Model,
        input: Seq<u8>,
        offset: int,
        this_index: int,
        next_index: int,
        is_eof: bool,
    )
        requires
            offset <= this_index < next_index <= offset + input.len(),
        ensures
            Self::spec_process_one(m, input, offset, this_index, next_index, is_eof) matches Ok(
                (_, keep, _),
            ) ==> offset <= keep <= next_index,
    ;

    fn reset(&mut self)
        requires
            old(self).inv(),
        ensures
            final(self).inv(),
            final(self).model() == Self::spec_reset(old(self).model()),
    ;

    /// Returns the input index that must be preserved for next call.
    fn process_one(
        &mut self,
        writer: &mut Vec<u8>,
        input: Input,
        this_index: usize,
        next_index: usize,
        is_eof: bool,
    ) -> (r: Result<usize, Error>)
        requires
            old(self).inv(),
            input.offset <= this_index < next_index <= input.offset + input.input@.len(),
            Self::spec_process_one_ok(
                old(self).model(),
                input.input@,
                input.offset as int,
                this_index as int,
                next_index as int,
                is_eof,
            ),
        ensures
            final(self).inv(),
            match Self::spec_process_one(
                old(self).model(),
                input.input@,
                input.offset as int,
                this_index as int,
                next_index as int,
                is_eof,
            ) {
                Ok((m, keep, out)) => {
                    &&& r == Ok::<usize, Error>(keep as usize)
                    &&& final(self).model() == m
                    &&& final(writer)@ == old(writer)@ + out
                },
                Err(e) => {
                    &&& r == Err::<usize, Error>(e)
                    &&& final(self).model() == old(self).model()
                    &&& final(writer)@ == old(writer)@
                },
            },
    ;

    fn process_eof(&mut self, writer: &mut Vec<u8>) -> (r: Result<(), Error>)
        requires
            old(self).inv(),
        ensures
            final(self).inv(),
            match Self::spec_process_eof(old(self).model()) {
                Ok(out) => r is Ok && final(writer)@ == old(writer)@ + out,
                Err(e) => {
                    &&& r == Err::<(), Error>(e)
                    &&& final(self).model() == old(self).model()
                    &&& final(writer)@ == old(writer)@
                },
            },
    ;
}

/// Adapter for a WritingStage2 to become a Stage2. The adapter holds the
/// bytes written that nobody has taken yet: the partial result hands them
/// out, and the end of input returns the rest.
pub struct WritingStage2Adapter<WritingStage2T> {
    writing_stage2: WritingStage2T,
    writer: Vec<u8>,
}

impl<WritingStage2T: WritingStage2> WritingStage2Adapter<WritingStage2T> {
    pub fn new(writing_stage2: WritingStage2T) -> (r: Self)
        requires
            writing_stage2.inv(),
        ensures
            r.inv(),
            r.model() == (writing_stage2.model(), Seq::<u8>::empty()),
    {
        Self { writing_stage2, writer: Vec::new() }
    }
}

impl<WritingStage2T: WritingStage2> Stage2 for WritingStage2Adapter<WritingStage2T> {
    type Return = Vec<u8>;
    /// The stage's model and the bytes written that nobody has taken yet.
    type Model = (WritingStage2T::Model, Seq<u8>);
    type ReturnModel = Seq<u8>;

    closed spec fn inv(&self) -> bool {
        self.writing_stage2.inv()
    }

    closed spec fn model(&self) -> Self::Model {
        (self.writing_stage2.model(), self.writer@)
    }

    open spec fn return_model(r: Self::Return) -> Self::ReturnModel {
        r@
    }

    open spec fn spec_reset(m: Self::Model, input_size_hint: Option<usize>) -> Self::Model {
        (WritingStage2T::spec_reset(m.0), m.1)
    }

    open spec fn spec_process_one(
        m: Self::Model,
        input: Seq<u8>,
        offset: int,
        this_index: int,
        next_index: int,
        is_eof: bool,
    ) -> Result<(Self::Model, int), Error> {
        match WritingStage2T::spec_process_one(m.0, input, offset, this_index, next_index, is_eof) {
            Ok((m2, keep, out)) => Ok(((m2, m.1 + out), keep)),
            Err(e) => Err(e),
        }
    }

    open spec fn spec_process_one_ok(
        m: Self::Model,
        input: Seq<u8>,
        offset: int,
        this_index: int,
        next_index: int,
        is_eof: bool,
    ) -> bool {
        WritingStage2T::spec_process_one_ok(m.0, input, offset, this_index, next_index, is_eof)
    }

    open spec fn spec_process_eof(m: Self::Model) -> Result<Self::ReturnModel, Error> {
        match WritingStage2T::spec_process_eof(m.0) {
            Ok(out) => Ok(m.1 + out),
            Err(e) => Err(e),
        }
    }

    proof fn lemma_keep_bounds(
        m: Self::Model,
        input: Seq<u8>,
        offset: int,
        this_index: int,
        next_index: int,
        is_eof: bool,
    ) {
        WritingStage2T::lemma_keep_bounds(m.0, input, offset, this_index, next_index, is_eof);
    }

    fn reset(&mut self, _input_size_hint: Option<usize>) {
        self.writing_stage2.reset();
    }

    fn process_one(&mut self, input: Input, this_index: usize, next_index: usize, is_eof: bool) -> (r: Result<usize, Error>) {
        self.writing_stage2.process_one(&mut self.writer, input, this_index, next_index, is_eof)
    }

    fn process_eof(&mut self) -> (r: Result<Vec<u8>, Error>) {
        let res = self.writing_stage2.process_eof(&mut self.writer);
        match res {
            Err(e) => Err(e),
            Ok(()) => {
                let mut out: Vec<u8> = Vec::new();
                std::mem::swap(&mut out, &mut self.writer);
                Ok(out)
            },
        }
    }
}

impl<WritingStage2T: WritingStage2> ExtractPartialResult for WritingStage2Adapter<WritingStage2T> {
    type PartialReturn = Vec<u8>;

    open spec fn can_extract(&self) -> bool {
        true
    }

    /// The bytes written so far are handed out; nothing else changes.
    closed spec fn extracted(before: Self, after: Self, r: Vec<u8>) -> bool {
        &&& r@ == before.writer@
        &&& after.writer@ == Seq::<u8>::empty()
        &&& after.writing_stage2 == before.writing_stage2
    }

    fn extract_partial_result(&mut self) -> (r: Vec<u8>) {
        let mut out: Vec<u8> = Vec::new();
        std::mem::swap(&mut out, &mut self.writer);
        out
    }
}

/// Adapter for a Visitor to become a Stage2
pub struct VisitorState<VisitorT: Visitor> {
    visitor: VisitorT,
    context_stack: Vec<VisitorT::Context>,
    unescape: escape::GenericUnescape,
}

impl<VisitorT: Visitor> VisitorState<VisitorT> {
    pub fn new(visitor: VisitorT) -> (r: Self)
        requires
            visitor.inv(),
            VisitorT::stack_ok(visitor.model(), Seq::empty()),
        ensures
            r.inv(),
            r.model() == (visitor.model(), Seq::<VisitorT::Context>::empty()),
    {
        let unescape = escape::GenericUnescape::new();
        let r = Self { visitor, context_stack: Vec::new(), unescape };
        assert(r.context_stack@ =~= Seq::<VisitorT::Context>::empty());
        r
    }
}

impl<VisitorT: Visitor> Stage2 for VisitorState<VisitorT> {
    type Return = VisitorT::Return;
    /// The visitor's model and the contexts of the open lists.
    type Model = (VisitorT::Model, Seq<VisitorT::Context>);
    type ReturnModel = VisitorT::ReturnModel;

    closed spec fn inv(&self) -> bool {
        &&& self.visitor.inv()
        &&& VisitorT::stack_ok(self.visitor.model(), self.context_stack@)
    }

    closed spec fn model(&self) -> Self::Model {
        (self.visitor.model(), self.context_stack@)
    }

    open spec fn return_model(r: Self::Return) -> Self::ReturnModel {
        VisitorT::return_model(r)
    }

    open spec fn spec_reset(m: Self::Model, input_size_hint: Option<usize>) -> Self::Model {
        (VisitorT::spec_reset(m.0, input_size_hint), m.1)
    }

    open spec fn spec_process_one(
        m: Self::Model,
        input: Seq<u8>,
        offset: int,
        this_index: int,
        next_index: int,
        is_eof: bool,
    ) -> Result<(Self::Model, int), Error> {
        let ch = input[this_index - offset];
        let (vm, stack) = m;
        if ch == 0x28u8 {
            let (vm2, c) = VisitorT::spec_list_open(vm, top_context(stack));
            Ok(((vm2, stack.push(c)), next_index))
        } else if ch == 0x29u8 {
            if stack.len() == 0 {
                Err(Error::UnmatchedCloseParen)
            } else {
                let rest = stack.drop_last();
                Ok(((VisitorT::spec_list_close(vm, stack.last(), top_context(rest)), rest), next_index))
            }
        } else if ch == 0x22u8 {
            match spec_unescape(input.skip(this_index + 1 - offset)) {
                Some((_, out)) => Ok(((VisitorT::spec_atom(vm, out, top_context(stack)), stack), next_index)),
                None => Err(Error::BadQuotedAtom),
            }
        } else if is_whitespace(ch) {
            Ok((m, next_index))
        } else {
            Ok((
                (
                    VisitorT::spec_atom(
                        vm,
                        input.subrange(this_index - offset, next_index - offset),
                        top_context(stack),
                    ),
                    stack,
                ),
                next_index,
            ))
        }
    }

    open spec fn spec_process_one_ok(
        m: Self::Model,
        input: Seq<u8>,
        offset: int,
        this_index: int,
        next_index: int,
        is_eof: bool,
    ) -> bool {
        let ch = input[this_index - offset];
        if ch == 0x28u8 {
            VisitorT::list_ok(m.0)
        } else if ch == 0x29u8 {
            m.1.len() > 0 ==> VisitorT::close_ok(m.0, m.1.last())
        } else if ch == 0x22u8 {
            match spec_unescape(input.skip(this_index + 1 - offset)) {
                Some((_, out)) => VisitorT::atom_ok(m.0, out.len() as int),
                None => true,
            }
        } else if is_whitespace(ch) {
            true
        } else {
            VisitorT::atom_ok(m.0, next_index - this_index)
        }
    }

    open spec fn spec_process_eof(m: Self::Model) -> Result<Self::ReturnModel, Error> {
        if m.1.len() > 0 {
            Err(Error::UnmatchedOpenParen)
        } else {
            Ok(VisitorT::spec_eof(m.0).1)
        }
    }

    proof fn lemma_keep_bounds(
        m: Self::Model,
        input: Seq<u8>,
        offset: int,
        this_index: int,
        next_index: int,
        is_eof: bool,
    ) {
    }

    fn reset(&mut self, input_size_hint: Option<usize>) {
        self.visitor.reset(input_size_hint);
    }

    fn process_one(&mut self, input: Input, this_index: usize, next_index: usize, _is_eof: bool) -> (r: Result<usize, Error>) {
        let ch = input.input[this_index - input.offset];
        if ch == 0x28u8 {
            let new_context = self.visitor.list_open(self.context_stack.as_slice().last());
            self.context_stack.push(new_context);
        } else if ch == 0x29u8 {
            let ghost st = self.context_stack@;
            let context = match self.context_stack.pop() {
                Some(c) => c,
                None => {
                    return Err(Error::UnmatchedCloseParen);
                },
            };
            proof {
                assert(st =~= self.context_stack@.push(context));
            }
            self.visitor.list_close(context, self.context_stack.as_slice().last());
        } else if ch == 0x22u8 {
            let start_index = this_index + 1;
            let rest = &input.input[(start_index - input.offset)..input.input.len()];
            let mut atom: Vec<u8> = vec![0u8; rest.len()];
            let res = self.unescape.unescape(rest, atom.as_mut_slice());
            match res {
                None => {
                    return Err(Error::BadQuotedAtom);
                },
                Some((_input_consumed, atom_string_len)) => {
                    let atom_slice = &atom.as_slice()[0..atom_string_len];
                    proof {
                        assert(rest@ == input.input@.skip(this_index + 1 - input.offset));
                    }
                    self.visitor.atom(atom_slice, self.context_stack.as_slice().last());
                },
            }
        } else if ch != 0x20u8 && ch != 0x09u8 && ch != 0x0au8 {
            let atom_slice = &input.input[(this_index - input.offset)..(next_index - input.offset)];
            self.visitor.atom(atom_slice, self.context_stack.as_slice().last());
        }
        Ok(next_index)
    }

    fn process_eof(&mut self) -> (r: Result<VisitorT::Return, Error>) {
        if self.context_stack.len() > 0 {
            return Err(Error::UnmatchedOpenParen);
        }
        let r = self.visitor.eof();
        assert(self.context_stack@ =~= Seq::<VisitorT::Context>::empty());
        Ok(r)
    }
}

impl<VisitorT: Visitor + ExtractPartialResult> ExtractPartialResult for VisitorState<VisitorT> {
    type PartialReturn = VisitorT::PartialReturn;

    closed spec fn can_extract(&self) -> bool {
        self.visitor.can_extract()
    }

    closed spec fn extracted(before: Self, after: Self, r: Self::PartialReturn) -> bool {
        &&& VisitorT::extracted(before.visitor, after.visitor, r)
        &&& after.context_stack == before.context_stack
    }

    fn extract_partial_result(&mut self) -> (r: Self::PartialReturn) {
        self.visitor.extract_partial_result()
    }
}

/// The structural indices below `n` of `input`, scanned from `s0`, in
/// increasing order.
pub open spec fn structural_positions(s0: ScanState, input: Seq<u8>, n: int) -> Seq<usize>
    decreases n,
{
    if n <= 0 {
        seq![]
    } else {
        structural_positions(s0, input, n - 1) + if is_structural(s0, input, n - 1) {
            seq![(n - 1) as usize]
        } else {
            seq![]
        }
    }
}

/// Feeding a stage the first `count` pairs of consecutive structural
/// indices `p[k]`, `p[k + 1]` of the whole `input`, starting from `m`.
pub open spec fn fold_pairs<S: Stage2>(m: S::Model, input: Seq<u8>, p: Seq<usize>, count: int) -> Result<
    S::Model,
    Error,
>
    decreases count,
{
    if count <= 0 {
        Ok(m)
    } else {
        match fold_pairs::<S>(m, input, p, count - 1) {
            Ok(m1) => match S::spec_process_one(
                m1,
                input,
                0,
                p[count - 1] as int,
                p[count] as int,
                false,
            ) {
                Ok((m2, _)) => Ok(m2),
                Err(e) => Err(e),
            },
            Err(e) => Err(e),
        }
    }
}

/// Whether every pair that `fold_pairs` hands over stays within what the
/// stage can represent.
pub open spec fn fold_pairs_ok<S: Stage2>(m: S::Model, input: Seq<u8>, p: Seq<usize>, count: int) -> bool
    decreases count,
{
    if count <= 0 {
        true
    } else {
        fold_pairs_ok::<S>(m, input, p, count - 1) && match fold_pairs::<S>(m, input, p, count - 1) {
            Ok(m1) => S::spec_process_one_ok(m1, input, 0, p[count - 1] as int, p[count] as int, false),
            Err(_) => true,
        }
    }
}

/// Whether parsing all of `input` at once stays within what the stage can
/// represent.
pub open spec fn spec_parse_all_ok<S: Stage2>(m: S::Model, s0: ScanState, input: Seq<u8>) -> bool {
    let p = structural_positions(s0, input, input.len() as int);
    let n = p.len() as int;
    let m0 = S::spec_reset(m, Some(input.len() as usize));
    fold_pairs_ok::<S>(m0, input, p, n - 1) && match fold_pairs::<S>(m0, input, p, n - 1) {
        Ok(m1) => n == 0 || S::spec_process_one_ok(m1, input, 0, p[n - 1] as int, input.len() as int, true),
        Err(_) => true,
    }
}

/// What parsing all of `input` at once gives, for a stage that starts in
/// model `m` and a scan that starts in state `s0`: every structural index is
/// handed over with the next, the last with the end of input, and then the
/// end of input.
pub open spec fn spec_parse_all<S: Stage2>(m: S::Model, s0: ScanState, input: Seq<u8>) -> Result<
    S::ReturnModel,
    Error,
> {
    let p = structural_positions(s0, input, input.len() as int);
    let n = p.len() as int;
    let m0 = S::spec_reset(m, Some(input.len() as usize));
    match fold_pairs::<S>(m0, input, p, n - 1) {
        Err(e) => Err(e),
        Ok(m1) => {
            let last = if n == 0 {
                Ok(m1)
            } else {
                match S::spec_process_one(m1, input, 0, p[n - 1] as int, input.len() as int, true) {
                    Ok((m2, _)) => Ok(m2),
                    Err(e) => Err(e),
                }
            };
            match last {
                Err(e) => Err(e),
                Ok(m2) => S::spec_process_eof(m2),
            }
        },
    }
}

pub proof fn lemma_positions_bounds(s0: ScanState, input: Seq<u8>, n: int)
    requires
        0 <= n <= input.len(),
        input.len() <= usize::MAX,
    ensures
        forall|k: int|
            0 <= k < structural_positions(s0, input, n).len() ==> structural_positions(
                s0,
                input,
                n,
            )[k] < n,
        forall|j: int, k: int|
            0 <= j < k < structural_positions(s0, input, n).len() ==> structural_positions(
                s0,
                input,
                n,
            )[j] < structural_positions(s0, input, n)[k],
    decreases n,
{
    if n > 0 {
        lemma_positions_bounds(s0, input, n - 1);
        let p = structural_positions(s0, input, n);
        let q = structural_positions(s0, input, n - 1);
        assert forall|k: int| 0 <= k < q.len() implies p[k] == q[k] by {}
        if is_structural(s0, input, n - 1) {
            assert(p[q.len() as int] == n - 1);
        } else {
            assert(p =~= q);
        }
    }
}

pub proof fn lemma_positions_prefix(s0: ScanState, input: Seq<u8>, a: int, b: int)
    requires
        0 <= a <= b <= input.len(),
    ensures
        structural_positions(s0, input, a).len() <= structural_positions(s0, input, b).len(),
        structural_positions(s0, input, b).take(structural_positions(s0, input, a).len() as int)
            == structural_positions(s0, input, a),
    decreases b,
{
    if a < b {
        lemma_positions_prefix(s0, input, a, b - 1);
        let pb = structural_positions(s0, input, b);
        let pb1 = structural_positions(s0, input, b - 1);
        let pa = structural_positions(s0, input, a);
        assert(pb.take(pb1.len() as int) =~= pb1);
        assert(pb.take(pa.len() as int) =~= pb1.take(pa.len() as int));
    } else {
        let pa = structural_positions(s0, input, a);
        assert(pa.take(pa.len() as int) =~= pa);
    }
}

/// The positions below `ii + n` extend those below `ii` by the set bits of
/// a chunk bitmask that marks the structural bytes of `input[ii..ii + n]`.
proof fn lemma_positions_chunk(s0: ScanState, input: Seq<u8>, ii: int, bm: u64, n: int)
    requires
        0 <= ii,
        0 <= n <= 64,
        ii + n <= input.len(),
        input.len() <= usize::MAX,
        forall|i: int|
            0 <= i < n ==> (bit(bm, i) <==> is_structural(
                scan_final(s0, input.take(ii)),
                input.skip(ii),
                i,
            )),
    ensures
        structural_positions(s0, input, ii + n) == structural_positions(s0, input, ii)
            + bit_positions(bm, ii as usize, n),
    decreases n,
{
    if n == 0 {
        assert(structural_positions(s0, input, ii) + Seq::<usize>::empty() =~= structural_positions(s0, input, ii));
    } else {
        lemma_positions_chunk(s0, input, ii, bm, n - 1);
        assert(input =~= input.take(ii) + input.skip(ii));
        structural::lemma_is_structural_append(s0, input.take(ii), input.skip(ii), n - 1);
        assert(structural_positions(s0, input, ii) + bit_positions(bm, ii as usize, n) =~= (
        structural_positions(s0, input, ii) + bit_positions(bm, ii as usize, n - 1)) + (if bit(bm, n - 1) {
            seq![(ii + n - 1) as usize]
        } else {
            seq![]
        }));
    }
}

proof fn lemma_fold_pairs_prefix<S: Stage2>(m: S::Model, input: Seq<u8>, p: Seq<usize>, q: Seq<usize>, count: int)
    requires
        0 <= count,
        count + 1 <= p.len(),
        count + 1 <= q.len(),
        p.take(count + 1) == q.take(count + 1),
    ensures
        fold_pairs::<S>(m, input, p, count) == fold_pairs::<S>(m, input, q, count),
    decreases count,
{
    if count > 0 {
        assert(p.take(count) =~= p.take(count + 1).take(count));
        assert(q.take(count) =~= q.take(count + 1).take(count));
        lemma_fold_pairs_prefix::<S>(m, input, p, q, count - 1);
        assert(p[count - 1] == p.take(count + 1)[count - 1]);
        assert(q[count - 1] == q.take(count + 1)[count - 1]);
        assert(p[count] == p.take(count + 1)[count]);
        assert(q[count] == q.take(count + 1)[count]);
    }
}

/// Feeding a stage the pairs of structural indices `p[k]`, `p[k + 1]` for
/// `lo <= k < hi`, each in the window `w` of the input that starts at `off`:
/// the resulting model and the index that the last call asked to keep
/// (`keep` when no pair is fed).
pub open spec fn fold_window<S: Stage2>(
    m: S::Model,
    w: Seq<u8>,
    off: int,
    p: Seq<usize>,
    lo: int,
    hi: int,
    keep: int,
) -> Result<(S::Model, int), Error>
    decreases hi - lo,
{
    if hi <= lo {
        Ok((m, keep))
    } else {
        match fold_window::<S>(m, w, off, p, lo, hi - 1, keep) {
            Ok((m1, _)) => S::spec_process_one(m1, w, off, p[hi - 1] as int, p[hi] as int, false),
            Err(e) => Err(e),
        }
    }
}

/// Whether every pair that `fold_window` hands over stays within what the
/// stage can represent.
pub open spec fn fold_window_ok<S: Stage2>(
    m: S::Model,
    w: Seq<u8>,
    off: int,
    p: Seq<usize>,
    lo: int,
    hi: int,
    keep: int,
) -> bool
    decreases hi - lo,
{
    if hi <= lo {
        true
    } else {
        fold_window_ok::<S>(m, w, off, p, lo, hi - 1, keep) && match fold_window::<S>(
            m,
            w,
            off,
            p,
            lo,
            hi - 1,
            keep,
        ) {
            Ok((m1, _)) => S::spec_process_one_ok(m1, w, off, p[hi - 1] as int, p[hi] as int, false),
            Err(_) => true,
        }
    }
}

/// The first pair that a stream still has to hand over once `n` structural
/// indices are known: the last known index waits for the next one.
pub open spec fn first_pending(n: int) -> int {
    if n == 0 {
        0
    } else {
        n - 1
    }
}

/// What handing `new_input` to a stream does: with `t` the bytes received
/// so far (scanned from `s0`), the window starting at `start` and stage model
/// `m`, every pair of structural indices of `t + new_input` that is complete
/// now and was not before is handed over in the window of `t + new_input`
/// that starts at `start`.
pub open spec fn stream_feed<S: Stage2>(
    m: S::Model,
    s0: ScanState,
    t: Seq<u8>,
    start: int,
    new_input: Seq<u8>,
) -> Result<(S::Model, int), Error> {
    let t2 = t + new_input;
    let p = structural_positions(s0, t2, t2.len() as int);
    let n0 = structural_positions(s0, t, t.len() as int).len() as int;
    fold_window::<S>(m, t2.skip(start), start, p, first_pending(n0), p.len() - 1, start)
}

pub open spec fn stream_feed_ok<S: Stage2>(
    m: S::Model,
    s0: ScanState,
    t: Seq<u8>,
    start: int,
    new_input: Seq<u8>,
) -> bool {
    let t2 = t + new_input;
    let p = structural_positions(s0, t2, t2.len() as int);
    let n0 = structural_positions(s0, t, t.len() as int).len() as int;
    fold_window_ok::<S>(m, t2.skip(start), start, p, first_pending(n0), p.len() - 1, start)
}

/// What ending a stream gives: the last structural index, if any, is handed
/// over with the end of input, then the end of input itself.
pub open spec fn stream_eof<S: Stage2>(m: S::Model, s0: ScanState, t: Seq<u8>, start: int) -> Result<
    S::ReturnModel,
    Error,
> {
    let p = structural_positions(s0, t, t.len() as int);
    if p.len() == 0 {
        S::spec_process_eof(m)
    } else {
        match S::spec_process_one(m, t.skip(start), start, p.last() as int, t.len() as int, true) {
            Ok((m2, _)) => S::spec_process_eof(m2),
            Err(e) => Err(e),
        }
    }
}

pub open spec fn stream_eof_ok<S: Stage2>(m: S::Model, s0: ScanState, t: Seq<u8>, start: int) -> bool {
    let p = structural_positions(s0, t, t.len() as int);
    p.len() > 0 ==> S::spec_process_one_ok(
        m,
        t.skip(start),
        start,
        p.last() as int,
        t.len() as int,
        true,
    )
}

proof fn lemma_fold_window_ok_mono<S: Stage2>(
    m: S::Model,
    w: Seq<u8>,
    off: int,
    p: Seq<usize>,
    lo: int,
    a: int,
    b: int,
    keep: int,
)
    requires
        a <= b,
        fold_window_ok::<S>(m, w, off, p, lo, b, keep),
    ensures
        fold_window_ok::<S>(m, w, off, p, lo, a, keep),
    decreases b - a,
{
    if b > a && b > lo {
        lemma_fold_window_ok_mono::<S>(m, w, off, p, lo, a, b - 1, keep);
    }
}

proof fn lemma_fold_window_err<S: Stage2>(
    m: S::Model,
    w: Seq<u8>,
    off: int,
    p: Seq<usize>,
    lo: int,
    a: int,
    b: int,
    keep: int,
)
    requires
        a <= b,
        fold_window::<S>(m, w, off, p, lo, a, keep) is Err,
    ensures
        fold_window::<S>(m, w, off, p, lo, b, keep) == fold_window::<S>(m, w, off, p, lo, a, keep),
    decreases b - a,
{
    if b > a {
        lemma_fold_window_err::<S>(m, w, off, p, lo, a, b - 1, keep);
    }
}

/// The structural positions below `b` that are not below `a` are at least `a`.
pub proof fn lemma_positions_split(s0: ScanState, input: Seq<u8>, a: int, b: int)
    requires
        0 <= a <= b <= input.len(),
        input.len() <= usize::MAX,
    ensures
        forall|x: int|
            structural_positions(s0, input, a).len() <= x < structural_positions(s0, input, b).len()
                ==> a <= structural_positions(s0, input, b)[x],
    decreases b,
{
    if a < b {
        lemma_positions_split(s0, input, a, b - 1);
        lemma_positions_prefix(s0, input, a, b - 1);
        let pb = structural_positions(s0, input, b);
        let pb1 = structural_positions(s0, input, b - 1);
        assert forall|x: int| structural_positions(s0, input, a).len() <= x < pb.len() implies a <= pb[x] by {
            if x < pb1.len() {
                assert(pb[x] == pb1[x]);
            } else {
                assert(pb[x] == (b - 1) as usize);
            }
        }
    }
}

/// The structural positions below `k` do not depend on what follows them.
pub proof fn lemma_positions_take(s0: ScanState, a: Seq<u8>, n: int, k: int)
    requires
        0 <= k <= n <= a.len(),
    ensures
        structural_positions(s0, a.take(n), k) == structural_positions(s0, a, k),
    decreases k,
{
    if k > 0 {
        lemma_positions_take(s0, a, n, k - 1);
        structural::lemma_is_structural_prefix(s0, a, n, k - 1);
    }
}

/// Must be >= 64. Doesn't affect correctness or impose limitations on sexp being parsed.
pub const INDICES_BUFFER_MAX_LEN: usize = 8092;

pub struct State<ClassifierT, Stage2T> {
    stage2: Stage2T,
    structural_classifier: ClassifierT,
    input_index: usize,
    indices_buffer: Vec<usize>,
    input: Vec<u8>,
    input_start_index: usize,
    input_index_to_keep: usize,
    /// The bytes a stream has received since the last reset.
    consumed: Ghost<Seq<u8>>,
    /// The scan state at the last reset.
    stream_scan: Ghost<ScanState>,
}

impl<ClassifierT: Classifier, Stage2T: Stage2> State<ClassifierT, Stage2T> {
    pub open spec fn wf(&self) -> bool {
        self.stage2_inv()
    }

    pub closed spec fn stage2_inv(&self) -> bool {
        self.stage2.inv()
    }

    pub closed spec fn stage2_model(&self) -> Stage2T::Model {
        self.stage2.model()
    }

    pub closed spec fn is_reset(&self) -> bool {
        self.input_index == 0 && self.indices_buffer@.len() == 0 && self.input@.len() == 0
            && self.input_start_index == 0 && self.input_index_to_keep == 0
    }

    pub closed spec fn scan_state(&self) -> ScanState {
        self.structural_classifier.scan_state()
    }

    /// The bytes a stream has received since the last reset.
    pub closed spec fn consumed(&self) -> Seq<u8> {
        self.consumed@
    }

    /// The scan state when the stream started.
    pub closed spec fn stream_scan(&self) -> ScanState {
        self.stream_scan@
    }

    /// Where the part of the stream that is still held starts.
    pub closed spec fn window_start(&self) -> int {
        self.input_start_index as int
    }

    /// The state of a stream between calls: all bytes received are scanned,
    /// the held bytes are those from the window start on, and the last
    /// structural index, which waits for the next, is buffered.
    pub closed spec fn stream_inv(&self) -> bool {
        let t = self.consumed@;
        let p = structural_positions(self.stream_scan@, t, t.len() as int);
        &&& self.stage2.inv()
        &&& self.input_index == t.len()
        &&& self.input_start_index <= self.input_index
        &&& self.input@ == t.skip(self.input_start_index as int)
        &&& self.structural_classifier.scan_state() == scan_final(self.stream_scan@, t)
        &&& self.indices_buffer@ == p.skip(first_pending(p.len() as int))
        &&& p.len() > 0 ==> self.input_start_index <= p.last()
    }

    pub fn new(structural_classifier: ClassifierT, stage2: Stage2T) -> (r: Self)
        requires
            stage2.inv(),
        ensures
            r.wf(),
            r.stage2_model() == stage2.model(),
            r.scan_state() == structural_classifier.scan_state(),
            r.stream_inv(),
            r.consumed() == Seq::<u8>::empty(),
            r.stream_scan() == structural_classifier.scan_state(),
    {
        let ghost s = structural_classifier.scan_state();
        let r = State {
            stage2,
            structural_classifier,
            input_index: 0,
            indices_buffer: Vec::new(),
            input: Vec::new(),
            input_start_index: 0,
            input_index_to_keep: 0,
            consumed: Ghost(Seq::empty()),
            stream_scan: Ghost(s),
        };
        proof {
            assert(r.input@ =~= Seq::<u8>::empty().skip(0));
            assert(r.indices_buffer@ =~= structural_positions(s, Seq::<u8>::empty(), 0).skip(0));
        }
        r
    }

    pub fn reset(&mut self, input_size_hint: Option<usize>)
        requires
            old(self).wf(),
        ensures
            final(self).wf(),
            final(self).stage2_model() == Stage2T::spec_reset(old(self).stage2_model(), input_size_hint),
            final(self).scan_state() == old(self).scan_state(),
            final(self).is_reset(),
            final(self).stream_inv(),
            final(self).consumed() == Seq::<u8>::empty(),
            final(self).stream_scan() == old(self).scan_state(),
    {
        self.stage2.reset(input_size_hint);
        self.input_index = 0;
        self.indices_buffer.clear();
        self.input.clear();
        self.input_start_index = 0;
        self.input_index_to_keep = 0;
        self.consumed = Ghost(Seq::empty());
        self.stream_scan = Ghost(self.structural_classifier.scan_state());
        proof {
            assert(self.input@ =~= Seq::<u8>::empty().skip(0));
            assert(self.indices_buffer@ =~= structural_positions(self.stream_scan@, Seq::<u8>::empty(), 0).skip(0));
        }
    }

    /// Hands the stage each pair of consecutive buffered structural indices,
    /// in the held window; remembers the index the last call asked to keep
    /// (the window start when no pair is handed over).
    fn feed_held_pairs(
        &mut self,
        Ghost(m_start): Ghost<Stage2T::Model>,
        Ghost(p_all): Ghost<Seq<usize>>,
        Ghost(lo): Ghost<int>,
        Ghost(done): Ghost<int>,
        Ghost(kin): Ghost<int>,
    ) -> (r: Result<Ghost<int>, Error>)
        requires
            old(self).stage2.inv(),
            0 <= lo <= done,
            done + old(self).indices_buffer@.len() <= p_all.len(),
            old(self).indices_buffer@ == p_all.subrange(done, done + old(self).indices_buffer@.len()),
            forall|x: int| lo <= x < p_all.len() ==> old(self).input_start_index <= p_all[x],
            forall|x: int|
                0 <= x < p_all.len() ==> p_all[x] < old(self).input_start_index + old(self).input@.len(),
            forall|x: int, y: int| 0 <= x < y < p_all.len() ==> p_all[x] < p_all[y],
            old(self).input_start_index <= kin,
            fold_window::<Stage2T>(
                m_start,
                old(self).input@,
                old(self).input_start_index as int,
                p_all,
                lo,
                done,
                old(self).input_start_index as int,
            ) == Ok::<(Stage2T::Model, int), Error>((old(self).stage2.model(), kin)),
            fold_window_ok::<Stage2T>(
                m_start,
                old(self).input@,
                old(self).input_start_index as int,
                p_all,
                lo,
                p_all.len() - 1,
                old(self).input_start_index as int,
            ),
        ensures
            final(self).stage2.inv(),
            final(self).input == old(self).input,
            final(self).input_start_index == old(self).input_start_index,
            final(self).input_index == old(self).input_index,
            final(self).indices_buffer == old(self).indices_buffer,
            final(self).structural_classifier == old(self).structural_classifier,
            final(self).consumed == old(self).consumed,
            final(self).stream_scan == old(self).stream_scan,
            match r {
                Ok(kg) => {
                    let n = old(self).indices_buffer@.len() as int;
                    let d2 = if n > 0 {
                        done + n - 1
                    } else {
                        done
                    };
                    &&& fold_window::<Stage2T>(
                        m_start,
                        old(self).input@,
                        old(self).input_start_index as int,
                        p_all,
                        lo,
                        d2,
                        old(self).input_start_index as int,
                    ) == Ok::<(Stage2T::Model, int), Error>((final(self).stage2.model(), kg@))
                    &&& old(self).input_start_index <= kg@
                    &&& n > 1 ==> final(self).input_index_to_keep == kg@ && kg@ <= p_all[d2]
                    &&& n <= 1 ==> final(self).input_index_to_keep == old(self).input_start_index && kg@ == kin
                },
                Err(e) => fold_window::<Stage2T>(
                    m_start,
                    old(self).input@,
                    old(self).input_start_index as int,
                    p_all,
                    lo,
                    p_all.len() - 1,
                    old(self).input_start_index as int,
                ) == Err::<(Stage2T::Model, int), Error>(e),
            },
    {
        let ghost w = self.input@;
        let ghost start = self.input_start_index as int;
        let ghost buf1 = self.indices_buffer@;
        let ghost mut kkeep = kin;
        self.input_index_to_keep = self.input_start_index;
        let n_indices = self.indices_buffer.len();
        let mut k: usize = 0;
        while k + 1 < n_indices
            invariant
                self.stage2.inv(),
                n_indices == self.indices_buffer@.len(),
                k <= n_indices,
                n_indices == 0 || k + 1 <= n_indices,
                self.input@ == w,
                self.input_start_index == start,
                self.input == old(self).input,
                self.input_index == old(self).input_index,
                self.indices_buffer == old(self).indices_buffer,
                self.structural_classifier == old(self).structural_classifier,
                self.consumed == old(self).consumed,
                self.stream_scan == old(self).stream_scan,
                buf1 == self.indices_buffer@,
                start == old(self).input_start_index,
                w == old(self).input@,
                buf1 == old(self).indices_buffer@,
                buf1 == p_all.subrange(done, done + buf1.len()),
                done + n_indices <= p_all.len(),
                0 <= lo <= done,
                forall|x: int| lo <= x < p_all.len() ==> start <= p_all[x],
                forall|x: int| 0 <= x < p_all.len() ==> p_all[x] < start + w.len(),
                forall|x: int, y: int| 0 <= x < y < p_all.len() ==> p_all[x] < p_all[y],
                k == 0 ==> self.input_index_to_keep == start && kkeep == kin,
                k > 0 ==> self.input_index_to_keep == kkeep && kkeep <= p_all[done + k],
                start <= kkeep,
                fold_window::<Stage2T>(m_start, w, start, p_all, lo, done + k, start) == Ok::<(Stage2T::Model, int), Error>((self.stage2.model(), kkeep)),
                fold_window_ok::<Stage2T>(m_start, w, start, p_all, lo, p_all.len() - 1, start),
            decreases n_indices - k,
        {
            let this_index = self.indices_buffer[k];
            let next_index = self.indices_buffer[k + 1];
            let ghost c = done + k;
            proof {
                assert(buf1[k as int] == p_all[c]);
                assert(buf1[k + 1] == p_all[c + 1]);
                assert(this_index == buf1[k as int]);
                lemma_fold_window_ok_mono::<Stage2T>(m_start, w, start, p_all, lo, c + 1, p_all.len() - 1, start);
                Stage2T::lemma_keep_bounds(self.stage2.model(), w, start, this_index as int, next_index as int, false);
            }
            let window = Input { input: self.input.as_slice(), offset: self.input_start_index };
            let res = self.stage2.process_one(window, this_index, next_index, false);
            match res {
                Err(e) => {
                    proof {
                        assert(fold_window::<Stage2T>(m_start, w, start, p_all, lo, c + 1, start) == Err::<(Stage2T::Model, int), Error>(e));
                        lemma_fold_window_err::<Stage2T>(m_start, w, start, p_all, lo, c + 1, p_all.len() - 1, start);
                    }
                    return Err(e);
                },
                Ok(keep) => {
                    self.input_index_to_keep = keep;
                    proof {
                        kkeep = keep as int;
                    }
                },
            }
            k += 1;
        }
        Ok(Ghost(kkeep))
    }

    /// Scans the held bytes from the input index on, chunk by chunk, while
    /// the indices buffer has room for the structural indices of one more
    /// chunk.
    fn scan_held(&mut self, Ghost(s0): Ghost<ScanState>, Ghost(t): Ghost<Seq<u8>>, Ghost(done): Ghost<int>)
        requires
            old(self).input@ == t.skip(old(self).input_start_index as int),
            old(self).input_start_index <= old(self).input_index <= t.len(),
            t.len() <= usize::MAX,
            old(self).structural_classifier.scan_state() == scan_final(s0, t.take(old(self).input_index as int)),
            0 <= done,
            done + old(self).indices_buffer@.len() == structural_positions(s0, t, old(self).input_index as int).len(),
            old(self).indices_buffer@ == structural_positions(s0, t, old(self).input_index as int).skip(done),
            old(self).indices_buffer@.len() <= INDICES_BUFFER_MAX_LEN,
        ensures
            final(self).stage2 == old(self).stage2,
            final(self).input == old(self).input,
            final(self).input_start_index == old(self).input_start_index,
            final(self).input_index_to_keep == old(self).input_index_to_keep,
            final(self).consumed == old(self).consumed,
            final(self).stream_scan == old(self).stream_scan,
            old(self).input_index <= final(self).input_index <= t.len(),
            old(self).input_index < t.len() && old(self).indices_buffer@.len() + 64 <= INDICES_BUFFER_MAX_LEN
                ==> old(self).input_index < final(self).input_index,
            final(self).input_index == t.len() || final(self).indices_buffer@.len() + 64 > INDICES_BUFFER_MAX_LEN,
            final(self).structural_classifier.scan_state() == scan_final(s0, t.take(final(self).input_index as int)),
            done + final(self).indices_buffer@.len() == structural_positions(s0, t, final(self).input_index as int).len(),
            final(self).indices_buffer@ == structural_positions(s0, t, final(self).input_index as int).skip(done),
            final(self).indices_buffer@.len() >= old(self).indices_buffer@.len(),
            final(self).indices_buffer@.len() <= INDICES_BUFFER_MAX_LEN,
    {
        let ghost ii0 = self.input_index;
        let ghost buf0 = self.indices_buffer@.len();
        let ghost start = self.input_start_index as int;
        let ghost len = t.len() as int;
        while self.input_index < self.input_start_index + self.input.len()
            invariant
                len == t.len(),
                len <= usize::MAX,
                self.input@ == t.skip(start),
                self.input_start_index == start,
                self.input == old(self).input,
                self.stage2 == old(self).stage2,
                self.input_index_to_keep == old(self).input_index_to_keep,
                self.consumed == old(self).consumed,
                self.stream_scan == old(self).stream_scan,
                start == old(self).input_start_index,
                ii0 == old(self).input_index,
                buf0 == old(self).indices_buffer@.len(),
                start <= ii0 <= self.input_index <= len,
                self.structural_classifier.scan_state() == scan_final(s0, t.take(self.input_index as int)),
                self.indices_buffer@.len() <= INDICES_BUFFER_MAX_LEN,
                done + self.indices_buffer@.len() == structural_positions(s0, t, self.input_index as int).len(),
                self.indices_buffer@ == structural_positions(s0, t, self.input_index as int).skip(done),
                0 <= done,
                ii0 < len && buf0 + 64 <= INDICES_BUFFER_MAX_LEN ==> self.indices_buffer@.len() + 64 <= INDICES_BUFFER_MAX_LEN || ii0 < self.input_index,
                self.indices_buffer@.len() >= buf0,
            ensures
                self.input_index <= len,
                ii0 <= self.input_index,
                self.input == old(self).input,
                self.stage2 == old(self).stage2,
                self.input_start_index == start,
                self.input_index_to_keep == old(self).input_index_to_keep,
                self.consumed == old(self).consumed,
                self.stream_scan == old(self).stream_scan,
                ii0 < len && buf0 + 64 <= INDICES_BUFFER_MAX_LEN ==> ii0 < self.input_index,
                self.input_index == len || self.indices_buffer@.len() + 64 > INDICES_BUFFER_MAX_LEN,
                self.structural_classifier.scan_state() == scan_final(s0, t.take(self.input_index as int)),
                self.indices_buffer@.len() <= INDICES_BUFFER_MAX_LEN,
                done + self.indices_buffer@.len() == structural_positions(s0, t, self.input_index as int).len(),
                self.indices_buffer@ == structural_positions(s0, t, self.input_index as int).skip(done),
                self.indices_buffer@.len() >= buf0,
            decreases len - self.input_index,
        {
            if self.indices_buffer.len() + 64 > INDICES_BUFFER_MAX_LEN {
                break;
            }
            let ii = self.input_index;
            let rest = &self.input[(ii - self.input_start_index)..self.input.len()];
            let (bitmask, bitmask_len) = self.structural_classifier.structural_indices_bitmask(rest);
            proof {
                assert(rest@ =~= t.skip(ii as int));
                assert(rest@.take(bitmask_len as int) =~= t.take(ii + bitmask_len).skip(ii as int));
                assert(t.take(ii + bitmask_len) =~= t.take(ii as int) + t.take(ii + bitmask_len).skip(ii as int));
                structural::lemma_scan_final_append(s0, t.take(ii as int), rest@.take(bitmask_len as int));
                lemma_positions_chunk(s0, t, ii as int, bitmask, bitmask_len as int);
                assert forall|j: int| bitmask_len <= j < 64 implies !bit(bitmask, j) by {}
                lemma_bit_positions_tail(bitmask, ii, bitmask_len as int, 64);
            }
            extract::safe_generic(&mut self.indices_buffer, ii, bitmask);
            proof {
                let pnew = structural_positions(s0, t, ii + bitmask_len);
                let pold = structural_positions(s0, t, ii as int);
                assert(pnew.skip(done) =~= pold.skip(done) + bit_positions(bitmask, ii, bitmask_len as int));
                lemma_bit_positions_len(bitmask, ii, bitmask_len as int);
            }
            self.input_index = ii + bitmask_len;
        }
    }

    /// Hands the stream the next part of its input. Every pair of structural
    /// indices that is complete now is handed to the stage; the last index
    /// waits for the next part, or for the end of input.
    #[verifier::rlimit(100)]
    #[verifier::spinoff_prover]
    pub fn process_partial(&mut self, new_input: &[u8]) -> (r: Result<(), Error>)
        requires
            old(self).stream_inv(),
            old(self).consumed().len() + new_input@.len() <= usize::MAX,
            stream_feed_ok::<Stage2T>(
                old(self).stage2_model(),
                old(self).stream_scan(),
                old(self).consumed(),
                old(self).window_start(),
                new_input@,
            ),
        ensures
            final(self).wf(),
            match stream_feed::<Stage2T>(
                old(self).stage2_model(),
                old(self).stream_scan(),
                old(self).consumed(),
                old(self).window_start(),
                new_input@,
            ) {
                Ok((m, keep)) => {
                    &&& r is Ok
                    &&& final(self).stream_inv()
                    &&& final(self).stage2_model() == m
                    &&& final(self).consumed() == old(self).consumed() + new_input@
                    &&& final(self).stream_scan() == old(self).stream_scan()
                    &&& (final(self).window_start() == old(self).window_start()
                        || final(self).window_start() == keep)
                },
                Err(e) => r == Err::<(), Error>(e),
            },
    {
        let ghost s0 = self.stream_scan@;
        let ghost t_old = self.consumed@;
        let ghost m_start = self.stage2.model();
        let ghost start = self.input_start_index as int;
        let ghost t = t_old + new_input@;
        let ghost len = t.len() as int;
        let ghost p_all = structural_positions(s0, t, len);
        let ghost n0 = structural_positions(s0, t_old, t_old.len() as int).len() as int;
        let ghost lo = first_pending(n0);
        let ghost w = t.skip(start);
        let ghost old_buf = self.indices_buffer@;

        let ghost before_input = self.input@;
        self.input.extend_from_slice(new_input);
        self.consumed = Ghost(t);
        proof {
            assert forall|i: int| 0 <= i < self.input@.len() implies self.input@[i] == w[i] by {
                if i >= before_input.len() {
                    assert(cloned::<u8>(new_input@[i - before_input.len()], self.input@[i]));
                }
            }
            assert(self.input@ =~= w);
            assert(t.take(t_old.len() as int) =~= t_old);
            lemma_positions_take(s0, t, t_old.len() as int, t_old.len() as int);
            lemma_positions_prefix(s0, t, t_old.len() as int, len);
            lemma_positions_bounds(s0, t, len);
            lemma_positions_split(s0, t, t_old.len() as int, len);
            assert(old_buf =~= p_all.subrange(lo, n0));
            assert forall|x: int| lo <= x < p_all.len() implies start <= p_all[x] by {
                if x < n0 {
                    assert(x == n0 - 1);
                }
            }
        }
        let ghost mut done: int = lo;
        let ghost mut kkeep: int = start;
        loop
            invariant_except_break
                self.stage2.inv(),
                s0 == self.stream_scan@,
                t == self.consumed@,
                t == t_old + new_input@,
                len == t.len(),
                len <= usize::MAX,
                w == t.skip(start),
                self.input@ == w,
                self.input_start_index == start,
                0 <= start <= t_old.len(),
                p_all == structural_positions(s0, t, len),
                forall|x: int| 0 <= x < p_all.len() ==> p_all[x] < len,
                forall|x: int, y: int| 0 <= x < y < p_all.len() ==> p_all[x] < p_all[y],
                t_old.len() <= self.input_index <= len,
                self.structural_classifier.scan_state() == scan_final(s0, t.take(self.input_index as int)),
                lo == first_pending(n0),
                lo <= done,
                done + self.indices_buffer@.len() == structural_positions(s0, t, self.input_index as int).len(),
                structural_positions(s0, t, self.input_index as int).len() <= p_all.len(),
                p_all.take(structural_positions(s0, t, self.input_index as int).len() as int)
                    == structural_positions(s0, t, self.input_index as int),
                self.indices_buffer@ == p_all.subrange(done, done + self.indices_buffer@.len()),
                self.indices_buffer@.len() <= 1,
                self.indices_buffer@.len() == 0 ==> done == lo && structural_positions(s0, t, self.input_index as int).len() == 0,
                n0 > 0 ==> start <= p_all[n0 - 1],
                forall|x: int| n0 <= x < p_all.len() ==> t_old.len() <= p_all[x],
                forall|x: int| lo <= x < p_all.len() ==> start <= p_all[x],
                start <= kkeep,
                n0 <= structural_positions(s0, t, self.input_index as int).len(),
                fold_window::<Stage2T>(m_start, w, start, p_all, lo, done, start) == Ok::<(Stage2T::Model, int), Error>((self.stage2.model(), kkeep)),
                stream_feed_ok::<Stage2T>(m_start, s0, t_old, start, new_input@),
                m_start == old(self).stage2_model(),
                s0 == old(self).stream_scan(),
                t_old == old(self).consumed(),
                start == old(self).window_start(),
                n0 == structural_positions(s0, t_old, t_old.len() as int).len(),
            ensures
                self.stage2.inv(),
                self.input_index == len,
                t == self.consumed@,
                s0 == self.stream_scan@,
                self.structural_classifier.scan_state() == scan_final(s0, t),
                self.indices_buffer@ == p_all.skip(first_pending(p_all.len() as int)),
                fold_window::<Stage2T>(m_start, w, start, p_all, lo, p_all.len() - 1, start) == Ok::<(Stage2T::Model, int), Error>((self.stage2.model(), kkeep)),
                self.input_start_index <= len,
                self.input@ == t.skip(self.input_start_index as int),
                self.input_start_index == start || self.input_start_index == kkeep,
                p_all.len() > 0 ==> self.input_start_index <= p_all.last(),
            decreases len - self.input_index,
        {
            let ghost ii0 = self.input_index;
            let ghost pn0 = structural_positions(s0, t, ii0 as int);
            assert(self.indices_buffer@ =~= pn0.skip(done)) by {
                assert(pn0 =~= p_all.take(pn0.len() as int));
            }
            self.scan_held(Ghost(s0), Ghost(t), Ghost(done));
            let ghost p_now = structural_positions(s0, t, self.input_index as int);
            let ghost ii1 = self.input_index;
            let ghost buf1 = self.indices_buffer@;
            proof {
                lemma_positions_prefix(s0, t, ii0 as int, self.input_index as int);
                lemma_positions_prefix(s0, t, self.input_index as int, len);
                assert(buf1 =~= p_all.subrange(done, done + buf1.len()));
            }
            let n_indices = self.indices_buffer.len();
            let fed = self.feed_held_pairs(Ghost(m_start), Ghost(p_all), Ghost(lo), Ghost(done), Ghost(kkeep));
            match fed {
                Err(e) => {
                    return Err(e);
                },
                Ok(kg) => {
                    proof {
                        kkeep = kg@;
                    }
                },
            }
            if n_indices > 0 {
                let last = self.indices_buffer[n_indices - 1];
                self.indices_buffer.clear();
                self.indices_buffer.push(last);
                proof {
                    done = done + n_indices - 1;
                    assert(self.indices_buffer@ =~= p_all.subrange(done, done + 1));
                }
            }
            if self.input_index - self.input_start_index >= self.input.len() {
                let length_to_chop = self.input_index_to_keep - self.input_start_index;
                self.input = self.input.split_off(length_to_chop);
                self.input_start_index = self.input_start_index + length_to_chop;
                proof {
                    assert(self.input_index == len);
                    assert(t.take(len) =~= t);
                    assert(p_now =~= p_all);
                    assert(self.input@ =~= t.skip(self.input_start_index as int));
                    if p_all.len() > 0 {
                        assert(done == p_all.len() - 1);
                        assert(self.indices_buffer@ =~= p_all.skip(first_pending(p_all.len() as int)));
                    } else {
                        assert(self.indices_buffer@ =~= p_all.skip(first_pending(p_all.len() as int)));
                    }
                }
                break;
            }
        }
        proof {
            assert(stream_feed::<Stage2T>(m_start, s0, t_old, start, new_input@) == fold_window::<Stage2T>(m_start, w, start, p_all, lo, p_all.len() - 1, start));
            assert(t.take(len) =~= t);
        }
        Ok(())
    }

    /// Ends the stream: the last structural index, if any, is handed to the
    /// stage with the end of input, then the stage finishes.
    pub fn process_eof(&mut self) -> (r: Result<Stage2T::Return, Error>)
        requires
            old(self).stream_inv(),
            stream_eof_ok::<Stage2T>(
                old(self).stage2_model(),
                old(self).stream_scan(),
                old(self).consumed(),
                old(self).window_start(),
            ),
        ensures
            final(self).wf(),
            match stream_eof::<Stage2T>(
                old(self).stage2_model(),
                old(self).stream_scan(),
                old(self).consumed(),
                old(self).window_start(),
            ) {
                Ok(rm) => r matches Ok(v) && Stage2T::return_model(v) == rm,
                Err(e) => r == Err::<Stage2T::Return, Error>(e),
            },
    {
        let ghost t = self.consumed@;
        let ghost p = structural_positions(self.stream_scan@, t, t.len() as int);
        proof {
            lemma_positions_bounds(self.stream_scan@, t, t.len() as int);
        }
        if self.indices_buffer.len() > 0 {
            let last = self.indices_buffer[self.indices_buffer.len() - 1];
            assert(last == p.last());
            let end = self.input.len() + self.input_start_index;
            let window = Input { input: self.input.as_slice(), offset: self.input_start_index };
            let res = self.stage2.process_one(window, last, end, true);
            match res {
                Err(e) => {
                    return Err(e);
                },
                Ok(_) => {},
            }
        }
        self.stage2.process_eof()
    }

    /// Parses all of `input` at once.
    #[verifier::rlimit(60)]
    pub fn process_all(&mut self, input: &[u8]) -> (r: Result<Stage2T::Return, Error>)
        requires
            old(self).wf(),
            spec_parse_all_ok::<Stage2T>(old(self).stage2_model(), old(self).scan_state(), input@),
        ensures
            final(self).wf(),
            match spec_parse_all::<Stage2T>(old(self).stage2_model(), old(self).scan_state(), input@) {
                Ok(rm) => r matches Ok(v) && Stage2T::return_model(v) == rm,
                Err(e) => r == Err::<Stage2T::Return, Error>(e),
            },
    {
        let ghost s0 = self.structural_classifier.scan_state();
        let ghost m_start = self.stage2.model();
        self.reset(Some(input.len()));
        let ghost m0 = self.stage2.model();
        let ghost len = input@.len() as int;
        assert(len == input.len());
        let ghost p_all = structural_positions(s0, input@, len);
        // the number of pairs handed over so far
        let ghost mut done: int = 0;
        proof {
            assert(input@.take(0) =~= Seq::<u8>::empty());
            assert(structural_positions(s0, input@, 0).skip(0) =~= self.indices_buffer@);
            lemma_positions_bounds(s0, input@, len);
        }
        loop
            invariant
                self.stage2.inv(),
                spec_parse_all_ok::<Stage2T>(m_start, s0, input@),
                m_start == old(self).stage2_model(),
                s0 == old(self).scan_state(),
                m0 == Stage2T::spec_reset(m_start, Some(input@.len() as usize)),
                len == input@.len(),
                len <= usize::MAX,
                p_all == structural_positions(s0, input@, len),
                forall|x: int| 0 <= x < p_all.len() ==> p_all[x] < len,
                forall|x: int, y: int| 0 <= x < y < p_all.len() ==> p_all[x] < p_all[y],
                self.input_index <= input@.len(),
                self.structural_classifier.scan_state() == scan_final(s0, input@.take(self.input_index as int)),
                self.indices_buffer@.len() <= 1,
                0 <= done,
                done + self.indices_buffer@.len() == structural_positions(s0, input@, self.input_index as int).len(),
                self.indices_buffer@ == structural_positions(s0, input@, self.input_index as int).skip(done),
                self.indices_buffer@.len() == 0 ==> done == 0,
                fold_pairs::<Stage2T>(m0, input@, structural_positions(s0, input@, self.input_index as int), done) == Ok::<Stage2T::Model, Error>(self.stage2.model()),
            decreases input@.len() - self.input_index,
        {
            let ghost ii0 = self.input_index;
            let ghost p_old = structural_positions(s0, input@, ii0 as int);
            let ghost buf0 = self.indices_buffer@.len();
            let ghost model0 = self.stage2.model();
            assert(done + buf0 == p_old.len());
            // classify chunks while the indices buffer has room for one more
            while self.input_index < input.len()
                invariant
                    len == input@.len(),
                    self.input_index <= input@.len(),
                    ii0 <= self.input_index,
                    self.structural_classifier.scan_state() == scan_final(s0, input@.take(self.input_index as int)),
                    self.indices_buffer@.len() <= INDICES_BUFFER_MAX_LEN,
                    done + self.indices_buffer@.len() == structural_positions(s0, input@, self.input_index as int).len(),
                    self.indices_buffer@ == structural_positions(s0, input@, self.input_index as int).skip(done),
                    0 <= done,
                    ii0 < input@.len() ==> self.indices_buffer@.len() + 64 <= INDICES_BUFFER_MAX_LEN || ii0 < self.input_index,
                    self.stage2.inv(),
                    self.stage2.model() == model0,
                    self.indices_buffer@.len() >= buf0,
                    len <= usize::MAX,
                ensures
                    self.stage2.inv(),
                    self.stage2.model() == model0,
                    self.indices_buffer@.len() >= buf0,
                    self.input_index <= input@.len(),
                    ii0 <= self.input_index,
                    ii0 < input@.len() ==> ii0 < self.input_index,
                    self.input_index == input@.len() || self.indices_buffer@.len() + 64 > INDICES_BUFFER_MAX_LEN,
                    self.structural_classifier.scan_state() == scan_final(s0, input@.take(self.input_index as int)),
                    self.indices_buffer@.len() <= INDICES_BUFFER_MAX_LEN,
                    done + self.indices_buffer@.len() == structural_positions(s0, input@, self.input_index as int).len(),
                    self.indices_buffer@ == structural_positions(s0, input@, self.input_index as int).skip(done),
                decreases input@.len() - self.input_index,
            {
                if self.indices_buffer.len() + 64 > INDICES_BUFFER_MAX_LEN {
                    break;
                }
                let ii = self.input_index;
                let rest = &input[ii..input.len()];
                let (bitmask, bitmask_len) = self.structural_classifier.structural_indices_bitmask(rest);
                proof {
                    assert(rest@ == input@.skip(ii as int));
                    assert(rest@.take(bitmask_len as int) =~= input@.take(ii + bitmask_len).skip(ii as int));
                    assert(input@.take(ii + bitmask_len) =~= input@.take(ii as int) + input@.take(ii + bitmask_len).skip(ii as int));
                    structural::lemma_scan_final_append(s0, input@.take(ii as int), rest@.take(bitmask_len as int));
                    lemma_positions_chunk(s0, input@, ii as int, bitmask, bitmask_len as int);
                    assert forall|j: int| bitmask_len <= j < 64 implies !bit(bitmask, j) by {}
                    lemma_bit_positions_tail(bitmask, ii, bitmask_len as int, 64);
                }
                let ghost before = self.indices_buffer@;
                extract::safe_generic(&mut self.indices_buffer, ii, bitmask);
                proof {
                    let pnew = structural_positions(s0, input@, ii + bitmask_len);
                    let pold = structural_positions(s0, input@, ii as int);
                    assert(pnew.skip(done) =~= pold.skip(done) + bit_positions(bitmask, ii, bitmask_len as int));
                    lemma_bit_positions_len(bitmask, ii, bitmask_len as int);
                }
                self.input_index = ii + bitmask_len;
            }
            let ghost p_now = structural_positions(s0, input@, self.input_index as int);
            let ghost ii1 = self.input_index;
            let ghost buf1 = self.indices_buffer@;
            let ghost scan1 = self.structural_classifier.scan_state();
            proof {
                lemma_positions_bounds(s0, input@, self.input_index as int);
                lemma_positions_prefix(s0, input@, ii0 as int, self.input_index as int);
                lemma_positions_prefix(s0, input@, self.input_index as int, len);
                if done > 0 {
                    assert(p_now.take(done + 1) =~= p_now.take(p_old.len() as int).take(done + 1));
                    assert(p_old.take(done + 1) =~= p_now.take(done + 1));
                    lemma_fold_pairs_prefix::<Stage2T>(m0, input@, p_old, p_now, done);
                }
            }
            let n_indices = self.indices_buffer.len();
            let mut k: usize = 0;
            while k + 1 < n_indices
                invariant
                    self.stage2.inv(),
                    n_indices == self.indices_buffer@.len(),
                    k <= n_indices,
                    n_indices == 0 || k + 1 <= n_indices,
                    self.input_index == ii1,
                    self.indices_buffer@ == buf1,
                    self.structural_classifier.scan_state() == scan1,
                    p_now == structural_positions(s0, input@, ii1 as int),
                    self.indices_buffer@ == p_now.skip(done),
                    done + n_indices == p_now.len(),
                    0 <= done,
                    p_now.len() <= p_all.len(),
                    p_all.take(p_now.len() as int) == p_now,
                    forall|x: int| 0 <= x < p_now.len() ==> p_now[x] < self.input_index,
                    forall|x: int, y: int| 0 <= x < y < p_now.len() ==> p_now[x] < p_now[y],
                    self.input_index <= input@.len(),
                    len == input@.len(),
                    m0 == Stage2T::spec_reset(m_start, Some(input@.len() as usize)),
                    m_start == old(self).stage2_model(),
                    s0 == old(self).scan_state(),
                    p_all == structural_positions(s0, input@, len),
                    fold_pairs::<Stage2T>(m0, input@, p_now, done + k) == Ok::<Stage2T::Model, Error>(self.stage2.model()),
                    spec_parse_all_ok::<Stage2T>(m_start, s0, input@),
                decreases n_indices - k,
            {
                let this_index = self.indices_buffer[k];
                let next_index = self.indices_buffer[k + 1];
                let ghost c = done + k;
                assert(this_index == p_now[c]);
                assert(next_index == p_now[c + 1]);
                proof {
                    assert(p_all.take(c + 2) =~= p_now.take(c + 2));
                    assert(p_all.take(c + 1) =~= p_now.take(c + 1));
                    lemma_fold_pairs_prefix::<Stage2T>(m0, input@, p_now, p_all, c);
                    lemma_fold_pairs_ok_mono::<Stage2T>(m0, input@, p_all, c + 1, p_all.len() - 1);
                    assert(p_all[c] == p_now[c]);
                    assert(p_all[c + 1] == p_now[c + 1]);
                }
                let r = self.stage2.process_one(Input { input, offset: 0 }, this_index, next_index, false);
                match r {
                    Err(e) => {
                        proof {
                            assert(fold_pairs::<Stage2T>(m0, input@, p_now, c + 1) == Err::<Stage2T::Model, Error>(e));
                            assert(p_all.take(c + 2) =~= p_now.take(c + 2));
                            lemma_fold_pairs_prefix::<Stage2T>(m0, input@, p_now, p_all, c + 1);
                            lemma_fold_pairs_err::<Stage2T>(m0, input@, p_all, c + 1, p_all.len() - 1);
                        }
                        return Err(e);
                    },
                    Ok(_) => {},
                }
                k += 1;
            }
            proof {
                if n_indices > 0 {
                    done = done + n_indices - 1;
                }
            }
            if self.input_index >= input.len() {
                proof {
                    assert(self.input_index == len);
                    assert(p_now == p_all);
                    if n_indices == 0 {
                        assert(done == 0);
                        assert(fold_pairs::<Stage2T>(m0, input@, p_all, p_all.len() - 1) == Ok::<Stage2T::Model, Error>(m0));
                    } else {
                        assert(k + 1 == n_indices);
                        assert(done == p_all.len() - 1);
                        assert(fold_pairs::<Stage2T>(m0, input@, p_all, p_all.len() - 1) == Ok::<Stage2T::Model, Error>(self.stage2.model()));
                    }
                }
                if n_indices > 0 {
                    let last = self.indices_buffer[n_indices - 1];
                    assert(last == p_all[p_all.len() - 1]);
                    let r = self.stage2.process_one(Input { input, offset: 0 }, last, input.len(), true);
                    match r {
                        Err(e) => {
                            return Err(e);
                        },
                        Ok(_) => {},
                    }
                }
                let ghost m_last = self.stage2.model();
                let res = self.stage2.process_eof();
                proof {
                    assert(spec_parse_all::<Stage2T>(m_start, s0, input@) == Stage2T::spec_process_eof(m_last));

                }
                return res;
            }
            let last = self.indices_buffer[n_indices - 1];
            self.indices_buffer.clear();
            self.indices_buffer.push(last);
            proof {
                assert(self.indices_buffer@ =~= p_now.skip(done));
            }
        }
    }
}

proof fn lemma_bit_positions_tail(bm: u64, start: usize, n: int, m: int)
    requires
        0 <= n <= m,
        forall|j: int| n <= j < m ==> !bit(bm, j),
    ensures
        bit_positions(bm, start, m) == bit_positions(bm, start, n),
    decreases m,
{
    if m > n {
        lemma_bit_positions_tail(bm, start, n, m - 1);
        assert(bit_positions(bm, start, m - 1) + Seq::<usize>::empty() =~= bit_positions(bm, start, m - 1));
    }
}

proof fn lemma_bit_positions_len(bm: u64, start: usize, n: int)
    requires
        0 <= n,
    ensures
        bit_positions(bm, start, n).len() <= n,
    decreases n,
{
    if n > 0 {
        lemma_bit_positions_len(bm, start, n - 1);
    }
}

proof fn lemma_fold_pairs_ok_mono<S: Stage2>(m: S::Model, input: Seq<u8>, p: Seq<usize>, a: int, b: int)
    requires
        0 <= a <= b,
        fold_pairs_ok::<S>(m, input, p, b),
    ensures
        fold_pairs_ok::<S>(m, input, p, a),
    decreases b,
{
    if b > a {
        lemma_fold_pairs_ok_mono::<S>(m, input, p, a, b - 1);
    }
}

proof fn lemma_fold_pairs_err<S: Stage2>(m: S::Model, input: Seq<u8>, p: Seq<usize>, a: int, b: int)
    requires
        0 < a <= b,
        fold_pairs::<S>(m, input, p, a) is Err,
    ensures
        fold_pairs::<S>(m, input, p, b) == fold_pairs::<S>(m, input, p, a),
    decreases b,
{
    if b > a {
        lemma_fold_pairs_err::<S>(m, input, p, a, b - 1);
    }
}

impl<ClassifierT: Classifier, Stage2T: Stage2 + ExtractPartialResult> ExtractPartialResult for State<
    ClassifierT,
    Stage2T,
> {
    type PartialReturn = Stage2T::PartialReturn;

    closed spec fn can_extract(&self) -> bool {
        self.stage2.can_extract()
    }

    closed spec fn extracted(before: Self, after: Self, r: Self::PartialReturn) -> bool {
        &&& Stage2T::extracted(before.stage2, after.stage2, r)
        &&& after.structural_classifier == before.structural_classifier
        &&& after.input_index == before.input_index
        &&& after.indices_buffer == before.indices_buffer
        &&& after.input == before.input
        &&& after.input_start_index == before.input_start_index
        &&& after.input_index_to_keep == before.input_index_to_keep
        &&& after.consumed == before.consumed
        &&& after.stream_scan == before.stream_scan
    }

    fn extract_partial_result(&mut self) -> (r: Self::PartialReturn) {
        self.stage2.extract_partial_result()
    }
}

/// A parser of whole inputs.
pub trait Parse: Sized {
    type Return;
    /// What a result stands for.
    type ReturnModel;

    spec fn parse_inv(&self) -> bool;

    /// Whether parsing `input` stays within what the parser can represent.
    spec fn parse_ok(&self, input: Seq<u8>) -> bool;

    /// What parsing `input` gives.
    spec fn parse_result(&self, input: Seq<u8>) -> Result<Self::ReturnModel, Error>;

    spec fn return_model(r: Self::Return) -> Self::ReturnModel;

    fn process(&mut self, input: &[u8]) -> (r: Result<Self::Return, Error>)
        requires
            old(self).parse_inv(),
            old(self).parse_ok(input@),
        ensures
            final(self).parse_inv(),
            match old(self).parse_result(input@) {
                Ok(rm) => r matches Ok(v) && Self::return_model(v) == rm,
                Err(e) => r == Err::<Self::Return, Error>(e),
            },
    ;
}

impl<ClassifierT: Classifier, Stage2T: Stage2> Parse for State<ClassifierT, Stage2T> {
    type Return = Stage2T::Return;
    type ReturnModel = Stage2T::ReturnModel;

    open spec fn parse_inv(&self) -> bool {
        self.wf()
    }

    open spec fn parse_ok(&self, input: Seq<u8>) -> bool {
        spec_parse_all_ok::<Stage2T>(self.stage2_model(), self.scan_state(), input)
    }

    open spec fn parse_result(&self, input: Seq<u8>) -> Result<Self::ReturnModel, Error> {
        spec_parse_all::<Stage2T>(self.stage2_model(), self.scan_state(), input)
    }

    open spec fn return_model(r: Self::Return) -> Self::ReturnModel {
        Stage2T::return_model(r)
    }

    fn process(&mut self, input: &[u8]) -> (r: Result<Self::Return, Error>) {
        self.process_all(input)
    }
}

/// A parser that takes its input in parts.
pub trait ParsePartial: Parse + ExtractPartialResult {
    /// Whether the parser is between parts of a stream.
    spec fn stream_ready(&self) -> bool;

    /// Whether handing it `input` stays within what it can represent.
    spec fn feed_ok(&self, input: Seq<u8>) -> bool;

    /// Whether `after` and `r` are what handing `input` to `before` gives.
    spec fn fed(before: Self, input: Seq<u8>, after: Self, r: Result<(), Error>) -> bool;

    /// Whether ending the stream stays within what it can represent.
    spec fn eof_ok(&self) -> bool;

    /// What ending the stream gives.
    spec fn eof_result(&self) -> Result<Self::ReturnModel, Error>;

    fn process_partial(&mut self, input: &[u8]) -> (r: Result<(), Error>)
        requires
            old(self).stream_ready(),
            old(self).feed_ok(input@),
        ensures
            Self::fed(*old(self), input@, *final(self), r),
    ;

    fn process_eof(&mut self) -> (r: Result<Self::Return, Error>)
        requires
            old(self).stream_ready(),
            old(self).eof_ok(),
        ensures
            match old(self).eof_result() {
                Ok(rm) => r matches Ok(v) && Self::return_model(v) == rm,
                Err(e) => r == Err::<Self::Return, Error>(e),
            },
    ;
}

impl<ClassifierT: Classifier, Stage2T: Stage2 + ExtractPartialResult> ParsePartial for State<
    ClassifierT,
    Stage2T,
> {
    open spec fn stream_ready(&self) -> bool {
        self.stream_inv()
    }

    open spec fn feed_ok(&self, input: Seq<u8>) -> bool {
        &&& self.consumed().len() + input.len() <= usize::MAX
        &&& stream_feed_ok::<Stage2T>(
            self.stage2_model(),
            self.stream_scan(),
            self.consumed(),
            self.window_start(),
            input,
        )
    }

    open spec fn fed(before: Self, input: Seq<u8>, after: Self, r: Result<(), Error>) -> bool {
        match stream_feed::<Stage2T>(
            before.stage2_model(),
            before.stream_scan(),
            before.consumed(),
            before.window_start(),
            input,
        ) {
            Ok((m, keep)) => {
                &&& r is Ok
                &&& after.stream_inv()
                &&& after.stage2_model() == m
                &&& after.consumed() == before.consumed() + input
                &&& after.stream_scan() == before.stream_scan()
                &&& (after.window_start() == before.window_start() || after.window_start() == keep)
            },
            Err(e) => r == Err::<(), Error>(e),
        }
    }

    open spec fn eof_ok(&self) -> bool {
        stream_eof_ok::<Stage2T>(self.stage2_model(), self.stream_scan(), self.consumed(), self.window_start())
    }

    open spec fn eof_result(&self) -> Result<Self::ReturnModel, Error> {
        stream_eof::<Stage2T>(self.stage2_model(), self.stream_scan(), self.consumed(), self.window_start())
    }

    fn process_partial(&mut self, input: &[u8]) -> (r: Result<(), Error>) {
        State::process_partial(self, input)
    }

    fn process_eof(&mut self) -> (r: Result<Self::Return, Error>) {
        State::process_eof(self)
    }
}

/// A parser that hands the structural indices of its input to `stage2`.
pub fn parser_new<Stage2T: Stage2>(stage2: Stage2T) -> (r: State<structural::Generic, Stage2T>)
    requires
        stage2.inv(),
    ensures
        r.wf(),
        r.stream_inv(),
        r.stage2_model() == stage2.model(),
        r.scan_state() == structural::initial_scan_state(),
        r.stream_scan() == structural::initial_scan_state(),
        r.consumed() == Seq::<u8>::empty(),
{
    State::new(structural::Generic::new(), stage2)
}

/// A parser that takes its input in parts.
pub fn partial_parser_new<Stage2T: Stage2 + ExtractPartialResult>(stage2: Stage2T) -> (r: State<
    structural::Generic,
    Stage2T,
>)
    requires
        stage2.inv(),
    ensures
        r.wf(),
        r.stream_inv(),
        r.stage2_model() == stage2.model(),
        r.scan_state() == structural::initial_scan_state(),
        r.stream_scan() == structural::initial_scan_state(),
        r.consumed() == Seq::<u8>::empty(),
{
    parser_new(stage2)
}

/// A parser that builds its result with `visitor`.
pub fn parser_from_visitor<VisitorT: Visitor>(visitor: VisitorT) -> (r: State<
    structural::Generic,
    VisitorState<VisitorT>,
>)
    requires
        visitor.inv(),
        VisitorT::stack_ok(visitor.model(), Seq::empty()),
    ensures
        r.wf(),
        r.stream_inv(),
        r.stage2_model() == (visitor.model(), Seq::<VisitorT::Context>::empty()),
        r.scan_state() == structural::initial_scan_state(),
        r.stream_scan() == structural::initial_scan_state(),
        r.consumed() == Seq::<u8>::empty(),
{
    parser_new(VisitorState::new(visitor))
}

/// A parser that takes its input in parts and builds its result with
/// `visitor`.
pub fn partial_parser_from_visitor<VisitorT: Visitor + ExtractPartialResult>(visitor: VisitorT) -> (r:
    State<structural::Generic, VisitorState<VisitorT>>)
    requires
        visitor.inv(),
        VisitorT::stack_ok(visitor.model(), Seq::empty()),
    ensures
        r.wf(),
        r.stream_inv(),
        r.stage2_model() == (visitor.model(), Seq::<VisitorT::Context>::empty()),
        r.scan_state() == structural::initial_scan_state(),
        r.stream_scan() == structural::initial_scan_state(),
        r.consumed() == Seq::<u8>::empty(),
{
    partial_parser_new(VisitorState::new(visitor))
}

/// A parser whose stage writes its output; the result of a parse is what
/// was written.
pub fn parser_from_writing_stage2<WritingStage2T: WritingStage2>(writing_stage2: WritingStage2T) -> (r:
    State<structural::Generic, WritingStage2Adapter<WritingStage2T>>)
    requires
        writing_stage2.inv(),
    ensures
        r.wf(),
        r.stream_inv(),
        r.stage2_model() == (writing_stage2.model(), Seq::<u8>::empty()),
        r.scan_state() == structural::initial_scan_state(),
        r.stream_scan() == structural::initial_scan_state(),
        r.consumed() == Seq::<u8>::empty(),
{
    parser_new(WritingStage2Adapter::new(writing_stage2))
}

/// A parser that builds the sexps of its input with `sexp_factory`.
pub fn parser_from_sexp_factory<SexpFactoryT: SexpFactory>(sexp_factory: SexpFactoryT) -> (r: State<
    structural::Generic,
    VisitorState<SimpleVisitor<SexpFactoryT>>,
>)
    ensures
        r.wf(),
        r.stream_inv(),
        r.stage2_model() == (Seq::<SexpFactoryT::SexpModel>::empty(), Seq::<usize>::empty()),
        r.scan_state() == structural::initial_scan_state(),
        r.stream_scan() == structural::initial_scan_state(),
        r.consumed() == Seq::<u8>::empty(),
{
    let visitor = SimpleVisitor::new(sexp_factory);
    proof {
        assert(SimpleVisitor::<SexpFactoryT>::stack_ok(visitor.model(), Seq::empty()));
    }
    parser_from_visitor(visitor)
}

} // verus!
