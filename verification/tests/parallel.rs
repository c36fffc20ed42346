use simd_sexp::parser::{self, ExtractPartialResult, Parse};
use simd_sexp::parser_parallel::{split_index, threads_for, Joiner, OutputQueue, State, WorkUnitBuilder};
use simd_sexp::print;

#[test]
fn split_index_finds_first_break_after_chunk_size() {
    let buffer = b"(a)\n(b)\n (c)\n(d)";
    // too short to split yet
    assert_eq!(split_index(0, buffer, 100), None);
    // break at 3 is before the chunk size of 4; the newline at 7 is followed by a space
    assert_eq!(split_index(0, buffer, 4), Some(12));
    assert_eq!(split_index(0, buffer, 0), Some(3));
    // a newline at the very end cannot end a segment
    assert_eq!(split_index(0, b"abc\n", 0), None);
}

#[test]
fn work_units_concatenate_to_the_input() {
    let mut builder = WorkUnitBuilder::new(4);
    let mut units = Vec::new();
    for chunk in [&b"(a)"[..], &b"(bb)\n(c"[..], &b")\n(d)"[..]] {
        if let Some(u) = builder.feed(chunk) {
            units.push(u);
        }
    }
    units.push(builder.finish());
    let indices: Vec<usize> = units.iter().map(|u| u.index).collect();
    assert_eq!(indices, (0..units.len()).collect::<Vec<_>>());
    let all: Vec<u8> = units.iter().flat_map(|u| u.buffer.iter().copied()).collect();
    assert_eq!(all, b"(a)(bb)\n(c)\n(d)".to_vec());
    assert_eq!(units[0].buffer, b"(a)(bb)".to_vec());
}

#[test]
fn output_queue_hands_out_in_order() {
    let mut q = OutputQueue::new();
    assert!(q.insert(2, "c").is_empty());
    assert!(q.insert(1, "b").is_empty());
    assert_eq!(q.insert(0, "a"), vec!["a", "b", "c"]);
    assert_eq!(q.insert(3, "d"), vec!["d"]);
}

#[test]
fn thread_count_is_between_three_and_six() {
    type S = State<simd_sexp::parser_parallel::WritingJoiner<simd_sexp::parser_parallel::FnFactory<fn() -> parser::State<simd_sexp::structural::Generic, parser::WritingStage2Adapter<print::Stage2>>>>>;
    assert_eq!(threads_for(0), 3);
    assert_eq!(threads_for(3), 4);
    assert_eq!(threads_for(100), 6);
    let s: S = State::from_worker(print::make as fn() -> _, 1024);
    assert!(s.num_threads >= 3 && s.num_threads <= 6);
    assert_eq!(s.num_worker_threads(), s.num_threads - 2);
}

#[test]
fn writing_joiner_collects_in_order() {
    let mut s = State::from_writing_stage2(|| print::Stage2::new(), 16);
    let mut w = s.joiner.create_worker();
    let a = w.process(b"(a b)").unwrap();
    let b = w.process(b"c").unwrap();
    s.joiner.join(a).unwrap();
    s.joiner.join(b).unwrap();
    let out = s.joiner.extract_partial_result();
    assert_eq!(out, b"(a b)\nc\n".to_vec());
    assert!(s.joiner.extract_partial_result().is_empty());
}
