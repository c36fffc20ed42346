use simd_sexp::start_stop_transitions::{Generic, StartStopTransitions};
use simd_sexp::{clmul, xor_masked_adjacent};
use simd_sexp::utils::bitrev64;

fn run_test(start: u64, stop: u64, prev_state: bool, output: u64) {
    let start = bitrev64(start);
    let stop = bitrev64(stop);
    let output = bitrev64(output);
    let generic = Generic::new(clmul::Generic::new(), xor_masked_adjacent::Generic::new());
    let (actual_output, actual_next_state) = generic.start_stop_transitions(start, stop, prev_state);
    let next_state = prev_state ^ (output.count_ones() & 1 != 0);
    assert_eq!(actual_output, output, "start {:#066b} stop {:#066b} prev_state {}", start, stop, prev_state);
    assert_eq!(actual_next_state, next_state);
}

#[test]
fn start_stop_transitions_test_1() {
        let start_____ = 0b100010100010101000;
        let stop______ = 0b001000001000000010;
        let prev_state = false;
        let output____ = 0b101010001010000010;
        run_test(start_____, stop______, prev_state, output____);
    }

#[test]
fn start_stop_transitions_test_2() {
        let start_____ = 0b001000001000000010;
        let stop______ = 0b100010100010101000;
        let prev_state = false;
        let output____ = 0b001010001010000010;
        run_test(start_____, stop______, prev_state, output____);
    }

#[test]
fn start_stop_transitions_test_3() {
        let start_____ = 0b101101110;
        let stop______ = 0b010010001;
        let prev_state = false;
        let output____ = 0b111011001;
        run_test(start_____, stop______, prev_state, output____);
    }

#[test]
fn start_stop_transitions_test_4() {
        let start_____ = 0b010010001;
        let stop______ = 0b101101110;
        let prev_state = false;
        let output____ = 0b011011001;
        run_test(start_____, stop______, prev_state, output____);
    }

#[test]
fn start_stop_transitions_test_5() {
        let start_____ = 0b100010100010101000;
        let stop______ = 0b001000001000000010;
        let prev_state = true;
        let output____ = 0b001010001010000010;
        run_test(start_____, stop______, prev_state, output____);
    }

#[test]
fn start_stop_transitions_test_6() {
        let start_____ = 0b001000001000000010;
        let stop______ = 0b100010100010101000;
        let prev_state = true;
        let output____ = 0b101010001010000010;
        run_test(start_____, stop______, prev_state, output____);
    }

#[test]
fn start_stop_transitions_test_7() {
        let start_____ = 0b101101110;
        let stop______ = 0b010010001;
        let prev_state = true;
        let output____ = 0b011011001;
        run_test(start_____, stop______, prev_state, output____);
    }

#[test]
fn start_stop_transitions_test_8() {
        let start_____ = 0b010010001;
        let stop______ = 0b101101110;
        let prev_state = true;
        let output____ = 0b111011001;
        run_test(start_____, stop______, prev_state, output____);
    }

#[test]
fn start_stop_transitions_test_9() {
        let start_____ = 0b11011001100011000011;
        let stop______ = 0b00100110011100111100;
        let prev_state = false;
        let output____ = 0b10110101010010100010;
        run_test(start_____, stop______, prev_state, output____);
    }

#[test]
fn start_stop_transitions_test_10() {
        let start_____ = 0b1000101000101010000000000000000000000000000000000000000000000000;
        let stop______ = 0b0010000010000000100000000000000000000000000000000000000000000000;
        let prev_state = false;
        let output____ = 0b1010100010100000100000000000000000000000000000000000000000000000;
        run_test(start_____, stop______, prev_state, output____);
    }

#[test]
fn start_stop_transitions_test_11() {
        let start_____ = 0b0010000010000000100000000000000000000000000000000000000000000000;
        let stop______ = 0b1000101000101010000000000000000000000000000000000000000000000000;
        let prev_state = false;
        let output____ = 0b0010100010100000100000000000000000000000000000000000000000000000;
        run_test(start_____, stop______, prev_state, output____);
    }

#[test]
fn start_stop_transitions_test_12() {
        let start_____ = 0b1011011100000000000000000000000000000000000000000000000000000000;
        let stop______ = 0b0100100010000000000000000000000000000000000000000000000000000000;
        let prev_state = false;
        let output____ = 0b1110110010000000000000000000000000000000000000000000000000000000;
        run_test(start_____, stop______, prev_state, output____);
    }

#[test]
fn start_stop_transitions_test_13() {
        let start_____ = 0b0100100010000000000000000000000000000000000000000000000000000000;
        let stop______ = 0b1011011100000000000000000000000000000000000000000000000000000000;
        let prev_state = false;
        let output____ = 0b0110110010000000000000000000000000000000000000000000000000000000;
        run_test(start_____, stop______, prev_state, output____);
    }

#[test]
fn start_stop_transitions_test_14() {
        let start_____ = 0b1000101000101010000000000000000000000000000000000000000000000000;
        let stop______ = 0b0010000010000000100000000000000000000000000000000000000000000000;
        let prev_state = true;
        let output____ = 0b0010100010100000100000000000000000000000000000000000000000000000;
        run_test(start_____, stop______, prev_state, output____);
    }

#[test]
fn start_stop_transitions_test_15() {
        let start_____ = 0b0010000010000000100000000000000000000000000000000000000000000000;
        let stop______ = 0b1000101000101010000000000000000000000000000000000000000000000000;
        let prev_state = true;
        let output____ = 0b1010100010100000100000000000000000000000000000000000000000000000;
        run_test(start_____, stop______, prev_state, output____);
    }

#[test]
fn start_stop_transitions_test_16() {
        let start_____ = 0b1011011100000000000000000000000000000000000000000000000000000000;
        let stop______ = 0b0100100010000000000000000000000000000000000000000000000000000000;
        let prev_state = true;
        let output____ = 0b0110110010000000000000000000000000000000000000000000000000000000;
        run_test(start_____, stop______, prev_state, output____);
    }

#[test]
fn start_stop_transitions_test_17() {
        let start_____ = 0b0100100010000000000000000000000000000000000000000000000000000000;
        let stop______ = 0b1011011100000000000000000000000000000000000000000000000000000000;
        let prev_state = true;
        let output____ = 0b1110110010000000000000000000000000000000000000000000000000000000;
        run_test(start_____, stop______, prev_state, output____);
    }

#[test]
fn start_stop_transitions_test_18() {
        let start_____ = 0b1101100110001100001100000000000000000000000000000000000000000000;
        let stop______ = 0b0010011001110011110000000000000000000000000000000000000000000000;
        let prev_state = false;
        let output____ = 0b1011010101001010001000000000000000000000000000000000000000000000;
        run_test(start_____, stop______, prev_state, output____);
    }
