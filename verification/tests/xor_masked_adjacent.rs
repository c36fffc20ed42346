use simd_sexp::xor_masked_adjacent::{Generic, XorMaskedAdjacent};
use simd_sexp::utils::bitrev64;

fn run_test(bitstring: u64, mask: u64, lo_fill: bool, output: u64) {
    let bitstring = bitrev64(bitstring);
    let mask = bitrev64(mask);
    let output = bitrev64(output);
    let actual_output = Generic::new().xor_masked_adjacent(bitstring, mask, lo_fill);
    assert_eq!(actual_output, output, "bitstring {:#066b} mask {:#066b} lo_fill {}", bitstring, mask, lo_fill);
}

#[test]
fn xor_masked_adjacent_test_1() {
        let bitstring = 0b11001010;
        let mask_____ = 0b11111111;
        let lo_fill__ = false;
        let output___ = 0b10101111;
        run_test(bitstring, mask_____, lo_fill__, output___);
    }

#[test]
fn xor_masked_adjacent_test_2() {
        let bitstring = 0b11001010;
        let mask_____ = 0b11111111;
        let lo_fill__ = true;
        let output___ = 0b00101111;
        run_test(bitstring, mask_____, lo_fill__, output___);
    }

#[test]
fn xor_masked_adjacent_test_3() {
        let bitstring = 0b1111010111011101;
        let mask_____ = 0b1010101010101010;
        let lo_fill__ = false;
        let output___ = 0b1000100010101010;
        run_test(bitstring, mask_____, lo_fill__, output___);
    }

#[test]
fn xor_masked_adjacent_test_4() {
        let bitstring = 0b1100101000000000000000000000000000000000000000000000000000000000;
        let mask_____ = 0b1111111100000000000000000000000000000000000000000000000000000000;
        let lo_fill__ = false;
        let output___ = 0b1010111100000000000000000000000000000000000000000000000000000000;
        run_test(bitstring, mask_____, lo_fill__, output___);
    }

#[test]
fn xor_masked_adjacent_test_5() {
        let bitstring = 0b1100101000000000000000000000000000000000000000000000000000000000;
        let mask_____ = 0b1111111100000000000000000000000000000000000000000000000000000000;
        let lo_fill__ = true;
        let output___ = 0b0010111100000000000000000000000000000000000000000000000000000000;
        run_test(bitstring, mask_____, lo_fill__, output___);
    }

#[test]
fn xor_masked_adjacent_test_6() {
        let bitstring = 0b1111010111011101000000000000000000000000000000000000000000000000;
        let mask_____ = 0b1010101010101010000000000000000000000000000000000000000000000000;
        let lo_fill__ = false;
        let output___ = 0b1000100010101010000000000000000000000000000000000000000000000000;
        run_test(bitstring, mask_____, lo_fill__, output___);
    }
