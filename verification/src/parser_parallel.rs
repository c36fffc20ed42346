use vstd::prelude::*;
use std::collections::VecDeque;
use crate::escape_csv::memchr;
use crate::parser::{self, Error, ExtractPartialResult, Parse, WritingStage2, WritingStage2Adapter};
use crate::structural;

verus! {

/// A segment of the input, numbered by its place in the input.
pub struct WorkUnit {
    pub index: usize,
    pub buffer: Vec<u8>,
}

/// Whether a segment may end just before position `i` of `b`: a newline
/// followed, within `b`, by a byte that is not a space.
pub open spec fn is_chunk_break(b: Seq<u8>, i: int) -> bool {
    0 <= i && i + 1 < b.len() && b[i] == 0x0au8 && b[i + 1] != 0x20u8
}

/// Where in the next read buffer the search for a break starts: the
/// segment must first reach `chunk_size` bytes.
pub open spec fn chunk_offset(pending_len: int, chunk_size: int) -> int {
    if chunk_size > pending_len {
        chunk_size - pending_len
    } else {
        0
    }
}

/// `s` is the first break of `b` at or after the offset, and the segment
/// held (`pending_len` bytes) together with `b` is longer than `chunk_size`.
pub open spec fn breaks_at(pending_len: int, b: Seq<u8>, chunk_size: int, s: int) -> bool {
    &&& pending_len + b.len() > chunk_size
    &&& chunk_offset(pending_len, chunk_size) <= s
    &&& is_chunk_break(b, s)
    &&& forall|j: int| chunk_offset(pending_len, chunk_size) <= j < s ==> !is_chunk_break(b, j)
}

/// The segment does not end in `b`.
pub open spec fn no_break(pending_len: int, b: Seq<u8>, chunk_size: int) -> bool {
    ||| pending_len + b.len() <= chunk_size
    ||| forall|j: int| chunk_offset(pending_len, chunk_size) <= j < b.len() ==> !is_chunk_break(b, j)
}

/// Where the segment under construction ends in the buffer just read, if
/// it does: at the first break past the chunk size.
pub fn split_index(pending_len: usize, buffer: &[u8], chunk_size: usize) -> (r: Option<usize>)
    requires
        pending_len + buffer@.len() <= usize::MAX,
    ensures
        match r {
            Some(s) => breaks_at(pending_len as int, buffer@, chunk_size as int, s as int),
            None => no_break(pending_len as int, buffer@, chunk_size as int),
        },
{
    let len = buffer.len();
    if pending_len + len <= chunk_size {
        return None;
    }
    let offset = if chunk_size > pending_len {
        chunk_size - pending_len
    } else {
        0
    };
    let mut pos = offset;
    while pos < len
        invariant
            len == buffer@.len(),
            offset == chunk_offset(pending_len as int, chunk_size as int),
            offset <= pos <= len,
            forall|j: int| offset <= j < pos ==> !is_chunk_break(buffer@, j),
        decreases len - pos,
    {
        let rest = &buffer[pos..len];
        match memchr(0x0au8, rest) {
            None => {
                proof {
                    assert forall|j: int| offset <= j < len implies !is_chunk_break(buffer@, j) by {
                        if j >= pos {
                            assert(rest@[j - pos] == buffer@[j]);
                        }
                    }
                }
                return None;
            },
            Some(k) => {
                let s = pos + k;
                proof {
                    assert(buffer@[s as int] == rest@[k as int]);
                    assert forall|j: int| offset <= j < s implies !is_chunk_break(buffer@, j) by {
                        if j >= pos {
                            assert(rest@[j - pos] == buffer@[j]);
                        }
                    }
                }
                if s + 1 < len && buffer[s + 1] != 0x20u8 {
                    return Some(s);
                }
                pos = s + 1;
            },
        }
    }
    None
}

/// Cuts the input, as it is read, into segments that end at a break past
/// the chunk size, and numbers them.
pub struct WorkUnitBuilder {
    next_work_unit: Vec<u8>,
    next_work_unit_index: usize,
    chunk_size: usize,
}

impl WorkUnitBuilder {
    /// The bytes read into the segment under construction.
    pub closed spec fn pending(&self) -> Seq<u8> {
        self.next_work_unit@
    }

    /// The number of the segment under construction.
    pub closed spec fn next_index(&self) -> int {
        self.next_work_unit_index as int
    }

    pub closed spec fn spec_chunk_size(&self) -> int {
        self.chunk_size as int
    }

    pub fn new(chunk_size: usize) -> (r: Self)
        ensures
            r.pending() == Seq::<u8>::empty(),
            r.next_index() == 0,
            r.spec_chunk_size() == chunk_size,
    {
        WorkUnitBuilder { next_work_unit: Vec::new(), next_work_unit_index: 0, chunk_size }
    }

    /// Takes in the next buffer read. When the segment ends in it, the
    /// segment (what was held, then `buffer` up to the break) is handed out
    /// and the rest of `buffer` starts the next one.
    pub fn feed(&mut self, buffer: &[u8]) -> (r: Option<WorkUnit>)
        requires
            old(self).pending().len() + buffer@.len() <= usize::MAX,
            old(self).next_index() < usize::MAX,
        ensures
            final(self).spec_chunk_size() == old(self).spec_chunk_size(),
            match r {
                Some(u) => {
                    let s = u.buffer@.len() - old(self).pending().len();
                    &&& breaks_at(old(self).pending().len() as int, buffer@, old(self).spec_chunk_size(), s)
                    &&& u.buffer@ == old(self).pending() + buffer@.take(s)
                    &&& final(self).pending() == buffer@.skip(s)
                    &&& u.index == old(self).next_index()
                    &&& final(self).next_index() == old(self).next_index() + 1
                    &&& u.buffer@ + final(self).pending() == old(self).pending() + buffer@
                },
                None => {
                    &&& no_break(old(self).pending().len() as int, buffer@, old(self).spec_chunk_size())
                    &&& final(self).pending() == old(self).pending() + buffer@
                    &&& final(self).next_index() == old(self).next_index()
                },
            },
    {
        let split = split_index(self.next_work_unit.len(), buffer, self.chunk_size);
        let ghost before = self.next_work_unit@;
        match split {
            Some(s) => {
                let head = &buffer[0..s];
                let tail = &buffer[s..buffer.len()];
                let mut unit: Vec<u8> = Vec::new();
                std::mem::swap(&mut unit, &mut self.next_work_unit);
                unit.extend_from_slice(head);
                self.next_work_unit.extend_from_slice(tail);
                proof {
                    assert forall|i: int| 0 <= i < unit@.len() implies unit@[i] == (before + buffer@.take(
                        s as int,
                    ))[i] by {
                        if i >= before.len() {
                            assert(cloned::<u8>(head@[i - before.len()], unit@[i]));
                        }
                    }
                    assert(unit@ =~= before + buffer@.take(s as int));
                    assert forall|i: int| 0 <= i < self.next_work_unit@.len() implies self.next_work_unit@[i]
                        == buffer@.skip(s as int)[i] by {
                        assert(cloned::<u8>(tail@[i], self.next_work_unit@[i]));
                    }
                    assert(self.next_work_unit@ =~= buffer@.skip(s as int));
                    assert(unit@.len() - before.len() == s);
                    assert(buffer@.take(s as int) + buffer@.skip(s as int) =~= buffer@);
                    assert(unit@ + self.next_work_unit@ =~= before + buffer@);
                }
                let index = self.next_work_unit_index;
                self.next_work_unit_index = index + 1;
                Some(WorkUnit { index, buffer: unit })
            },
            None => {
                self.next_work_unit.extend_from_slice(buffer);
                proof {
                    assert forall|i: int| 0 <= i < self.next_work_unit@.len() implies self.next_work_unit@[i]
                        == (before + buffer@)[i] by {
                        if i >= before.len() {
                            assert(cloned::<u8>(buffer@[i - before.len()], self.next_work_unit@[i]));
                        }
                    }
                    assert(self.next_work_unit@ =~= before + buffer@);
                }
                None
            },
        }
    }

    /// At the end of the input: hands out what is held as the last segment.
    pub fn finish(&mut self) -> (r: WorkUnit)
        requires
            old(self).next_index() < usize::MAX,
        ensures
            r.index == old(self).next_index(),
            r.buffer@ == old(self).pending(),
            final(self).pending() == Seq::<u8>::empty(),
            final(self).next_index() == old(self).next_index() + 1,
            final(self).spec_chunk_size() == old(self).spec_chunk_size(),
    {
        let mut unit: Vec<u8> = Vec::new();
        std::mem::swap(&mut unit, &mut self.next_work_unit);
        let index = self.next_work_unit_index;
        self.next_work_unit_index = index + 1;
        WorkUnit { index, buffer: unit }
    }
}

/// The number of results at the front of `q` that have arrived.
pub open spec fn ready_len<T>(q: Seq<Option<T>>) -> nat
    decreases q.len(),
{
    if q.len() > 0 && q[0] is Some {
        1 + ready_len(q.skip(1))
    } else {
        0
    }
}

/// The results at the front of `q` that have arrived, in order.
pub open spec fn ready_results<T>(q: Seq<Option<T>>) -> Seq<T>
    decreases q.len(),
{
    if q.len() > 0 && q[0] is Some {
        seq![q[0]->Some_0] + ready_results(q.skip(1))
    } else {
        seq![]
    }
}

/// `q` with slot `rel` filled with `x`, after growing it with empty slots
/// so that the slot exists.
pub open spec fn filed<T>(q: Seq<Option<T>>, rel: int, x: T) -> Seq<Option<T>> {
    let grown = if rel < q.len() {
        q
    } else {
        q + Seq::new((rel + 1 - q.len()) as nat, |i: int| None::<T>)
    };
    grown.update(rel, Some(x))
}

/// Results of the segments that came back ahead of their turn, waiting
/// for those before them.
pub struct OutputQueue<T> {
    output_queue: VecDeque<Option<T>>,
    output_queue_start_index: usize,
}

impl<T> OutputQueue<T> {
    /// The number of the segment whose result is due next.
    pub closed spec fn start(&self) -> int {
        self.output_queue_start_index as int
    }

    /// The slots from the one due next on.
    pub closed spec fn slots(&self) -> Seq<Option<T>> {
        self.output_queue@
    }

    /// The slots stay numbered within `usize`.
    pub open spec fn wf(&self) -> bool {
        self.start() + self.slots().len() <= usize::MAX
    }

    pub fn new() -> (r: Self)
        ensures
            r.wf(),
            r.start() == 0,
            r.slots() == Seq::<Option<T>>::empty(),
    {
        OutputQueue { output_queue: VecDeque::new(), output_queue_start_index: 0 }
    }

    /// Files the result of segment `index`, then hands back, in order, the
    /// results that are now due: those from the start on that have all
    /// arrived.
    pub fn insert(&mut self, index: usize, result: T) -> (ready: Vec<T>)
        requires
            old(self).wf(),
            old(self).start() <= index < usize::MAX,
            index - old(self).start() >= old(self).slots().len() || old(self).slots()[index - old(
                self,
            ).start()] is None,
        ensures
            final(self).wf(),
            ({
                let q = filed(old(self).slots(), index - old(self).start(), result);
                &&& ready@ == ready_results(q)
                &&& final(self).slots() == q.skip(ready_len(q) as int)
                &&& final(self).start() == old(self).start() + ready_len(q)
            }),
    {
        let rel = index - self.output_queue_start_index;
        let ghost q0 = self.output_queue@;
        while self.output_queue.len() <= rel
            invariant
                rel < usize::MAX,
                q0 == old(self).output_queue@,
                self.output_queue_start_index == old(self).output_queue_start_index,
                self.output_queue@.len() >= q0.len(),
                self.output_queue@.len() <= rel + 1 || self.output_queue@.len() == q0.len(),
                self.output_queue@ == q0 + Seq::new(
                    (self.output_queue@.len() - q0.len()) as nat,
                    |i: int| None::<T>,
                ),
            decreases rel + 1 - self.output_queue@.len(),
        {
            self.output_queue.push_back(None);
            assert(self.output_queue@ =~= q0 + Seq::new(
                (self.output_queue@.len() - q0.len()) as nat,
                |i: int| None::<T>,
            ));
        }
        let ghost grown = self.output_queue@;
        proof {
            if rel < q0.len() {
                assert(grown =~= q0);
            } else {
                assert(grown.len() == rel + 1);
            }
        }
        self.output_queue.remove(rel);
        self.output_queue.insert(rel, Some(result));
        let ghost q = self.output_queue@;
        proof {
            assert(q =~= grown.update(rel as int, Some(result)));
            assert(q == filed(old(self).slots(), index - old(self).start(), result));
        }
        let mut ready: Vec<T> = Vec::new();
        let ghost mut done: int = 0;
        proof {
            assert(q.skip(0) =~= q);
            assert(ready@ + ready_results(q) =~= ready_results(q));
        }
        while self.output_queue.len() > 0 && self.output_queue[0].is_some()
            invariant
                0 <= done <= q.len(),
                self.output_queue@ == q.skip(done),
                ready_results(q) == ready@ + ready_results(q.skip(done)),
                ready_len(q) == done + ready_len(q.skip(done)),
                self.output_queue_start_index == old(self).output_queue_start_index + done,
                old(self).output_queue_start_index + q.len() <= usize::MAX,
            decreases q.len() - done,
        {
            let ghost before = self.output_queue@;
            let front = self.output_queue.pop_front();
            match front {
                Some(Some(x)) => {
                    proof {
                        assert(q.skip(done).skip(1) =~= q.skip(done + 1));
                        assert(ready@.push(x) + ready_results(q.skip(done + 1)) =~= ready@ + ready_results(
                            q.skip(done),
                        ));
                    }
                    ready.push(x);
                    self.output_queue_start_index = self.output_queue_start_index + 1;
                    proof {
                        done = done + 1;
                        assert(self.output_queue@ =~= q.skip(done));
                    }
                },
                _ => {
                    assert(false);
                },
            }
        }
        proof {
            assert(ready@ + Seq::<T>::empty() =~= ready@);
        }
        ready
    }
}

/// Makes the parsers that work on the segments.
pub trait WorkerFactory {
    type Worker: Parse;

    /// Whether this factory can make parsers.
    spec fn factory_inv(&self) -> bool;

    fn create(&self) -> (r: Self::Worker)
        requires
            self.factory_inv(),
        ensures
            r.parse_inv(),
    ;
}

/// A factory that calls a function, which makes parsers ready to parse.
pub struct FnFactory<F> {
    pub create_worker: F,
}

impl<WorkerT: Parse, F: Fn() -> WorkerT> WorkerFactory for FnFactory<F> {
    type Worker = WorkerT;

    open spec fn factory_inv(&self) -> bool {
        &&& call_requires(self.create_worker, ())
        &&& forall|w: WorkerT| call_ensures(self.create_worker, (), w) ==> #[trigger] w.parse_inv()
    }

    fn create(&self) -> (r: WorkerT) {
        (self.create_worker)()
    }
}

/// A factory that calls a function making writing stages, and gives each
/// a parser of its own that collects what it writes.
pub struct WritingStage2Factory<F> {
    pub create_writing_stage2: F,
}

impl<WritingStage2T: WritingStage2, F: Fn() -> WritingStage2T> WorkerFactory for WritingStage2Factory<F> {
    type Worker = parser::State<structural::Generic, WritingStage2Adapter<WritingStage2T>>;

    open spec fn factory_inv(&self) -> bool {
        &&& call_requires(self.create_writing_stage2, ())
        &&& forall|w: WritingStage2T| call_ensures(self.create_writing_stage2, (), w) ==> #[trigger] w.inv()
    }

    fn create(&self) -> (r: parser::State<structural::Generic, WritingStage2Adapter<WritingStage2T>>) {
        let writing_stage2: WritingStage2T = (self.create_writing_stage2)();
        parser::parser_from_writing_stage2(writing_stage2)
    }
}

/// Spawns the parsers that work on the segments in parallel, and takes
/// their results one after another, in the order of the segments.
pub trait Joiner: Sized {
    type Worker: Parse;
    type Return;

    spec fn joiner_inv(&self) -> bool;

    fn process_bof(&mut self, input_size_hint: Option<usize>)
        requires
            old(self).joiner_inv(),
        ensures
            final(self).joiner_inv(),
    ;

    fn create_worker(&mut self) -> (r: Self::Worker)
        requires
            old(self).joiner_inv(),
        ensures
            final(self).joiner_inv(),
            r.parse_inv(),
    ;

    fn join(&mut self, result: <Self::Worker as Parse>::Return) -> (r: Result<(), Error>)
        requires
            old(self).joiner_inv(),
        ensures
            final(self).joiner_inv(),
    ;

    fn process_eof(&mut self) -> (r: Result<Self::Return, Error>)
        requires
            old(self).joiner_inv(),
        ensures
            final(self).joiner_inv(),
    ;
}

/// A joiner for parsers whose results are bytes: it collects them, in the
/// order of the segments, for the caller to write out.
pub struct WritingJoiner<FactoryT> {
    create_writing_worker: FactoryT,
    output: Vec<u8>,
}

impl<FactoryT: WorkerFactory> WritingJoiner<FactoryT> {
    /// What has been joined and not yet taken.
    pub closed spec fn joined(&self) -> Seq<u8> {
        self.output@
    }

    pub closed spec fn factory(&self) -> FactoryT {
        self.create_writing_worker
    }

    pub fn new(create_writing_worker: FactoryT) -> (r: Self)
        ensures
            r.joined() == Seq::<u8>::empty(),
            r.factory() == create_writing_worker,
    {
        WritingJoiner { create_writing_worker, output: Vec::new() }
    }
}

impl<FactoryT: WorkerFactory> Joiner for WritingJoiner<FactoryT> where
    FactoryT::Worker: Parse<Return = Vec<u8>>,
 {
    type Worker = FactoryT::Worker;
    type Return = ();

    open spec fn joiner_inv(&self) -> bool {
        self.factory().factory_inv()
    }

    fn process_bof(&mut self, _input_size_hint: Option<usize>) {
    }

    fn create_worker(&mut self) -> (r: Self::Worker) {
        self.create_writing_worker.create()
    }

    fn join(&mut self, result: Vec<u8>) -> (r: Result<(), Error>)
        ensures
            final(self).joined() == old(self).joined() + result@,
            r is Ok,
    {
        let mut result = result;
        self.output.append(&mut result);
        Ok(())
    }

    fn process_eof(&mut self) -> (r: Result<(), Error>)
        ensures
            final(self).joined() == old(self).joined(),
            r is Ok,
    {
        Ok(())
    }
}

impl<FactoryT: WorkerFactory> ExtractPartialResult for WritingJoiner<FactoryT> {
    type PartialReturn = Vec<u8>;

    open spec fn can_extract(&self) -> bool {
        true
    }

    open spec fn extracted(before: Self, after: Self, r: Vec<u8>) -> bool {
        &&& r@ == before.joined()
        &&& after.joined() == Seq::<u8>::empty()
        &&& after.factory() == before.factory()
    }

    fn extract_partial_result(&mut self) -> (r: Vec<u8>) {
        let mut taken: Vec<u8> = Vec::new();
        std::mem::swap(&mut taken, &mut self.output);
        taken
    }
}

/// `num_cpus::get_physical`: the number of physical cores of the machine.
/// It depends on the machine, so nothing is stated of it.
#[verifier::external_body]
fn physical_cpus() -> usize {
    num_cpus::get_physical()
}

/// The number of threads to use, from the number of physical cores: one
/// more than the cores, at least three and at most six.
pub open spec fn threads_for_cores(cores: int) -> int {
    let desired = cores + 1;
    if desired < 3 {
        3
    } else if desired > 6 {
        6
    } else {
        desired
    }
}

/// The thread count for a machine with `cores` physical cores.
pub fn threads_for(cores: usize) -> (r: usize)
    ensures
        r == threads_for_cores(cores as int),
{
    let desired = cores.saturating_add(1);
    if desired < 3 {
        3
    } else if desired > 6 {
        6
    } else {
        desired
    }
}

/// A parser that works on segments of its input in parallel: one thread
/// reads, one joins, and the others parse.
pub struct State<JoinerT> {
    pub joiner: JoinerT,
    /// The minimum size of a segment; it ends at the first break after it.
    pub chunk_size: usize,
    /// The number of threads: at least three, for reading, joining and
    /// parsing.
    pub num_threads: usize,
}

impl<JoinerT: Joiner> State<JoinerT> {
    pub open spec fn wf(&self) -> bool {
        self.num_threads >= 3
    }

    pub fn with_num_threads(joiner: JoinerT, chunk_size: usize, num_threads: usize) -> (r: Self)
        requires
            num_threads >= 3,
        ensures
            r.wf(),
            r.joiner == joiner,
            r.chunk_size == chunk_size,
            r.num_threads == num_threads,
    {
        State { joiner, chunk_size, num_threads }
    }

    /// Uses one thread more than the machine has physical cores, between
    /// three and six.
    pub fn new(joiner: JoinerT, chunk_size: usize) -> (r: Self)
        ensures
            r.wf(),
            r.joiner == joiner,
            r.chunk_size == chunk_size,
            3 <= r.num_threads <= 6,
    {
        let cores = physical_cpus();
        let num_threads = threads_for(cores);
        Self::with_num_threads(joiner, chunk_size, num_threads)
    }

    /// The number of threads that parse: all but the reading and the
    /// joining one.
    pub fn num_worker_threads(&self) -> (r: usize)
        requires
            self.wf(),
        ensures
            r == self.num_threads - 2,
    {
        self.num_threads - 2
    }
}

impl<F> State<WritingJoiner<FnFactory<F>>> where FnFactory<F>: WorkerFactory, <FnFactory<F> as WorkerFactory>::Worker: Parse<Return = Vec<u8>> {
    /// A parallel parser whose workers `create_worker` makes; their results
    /// are collected in the order of the segments.
    pub fn from_worker(create_worker: F, chunk_size: usize) -> (r: Self)
        ensures
            r.wf(),
            r.joiner.joined() == Seq::<u8>::empty(),
            r.joiner.factory().create_worker == create_worker,
            r.chunk_size == chunk_size,
    {
        Self::new(WritingJoiner::new(FnFactory { create_worker }), chunk_size)
    }
}

impl<WritingStage2T: WritingStage2, F: Fn() -> WritingStage2T> State<
    WritingJoiner<WritingStage2Factory<F>>,
> {
    /// A parallel parser whose workers each run a writing stage that
    /// `create_writing_stage2` makes; what they write is collected in the
    /// order of the segments.
    pub fn from_writing_stage2(create_writing_stage2: F, chunk_size: usize) -> (r: Self)
        ensures
            r.wf(),
            r.joiner.joined() == Seq::<u8>::empty(),
            r.joiner.factory().create_writing_stage2 == create_writing_stage2,
            r.chunk_size == chunk_size,
    {
        Self::new(WritingJoiner::new(WritingStage2Factory { create_writing_stage2 }), chunk_size)
    }
}

} // verus!
