use simd_sexp::clmul::{Clmul, Generic};
use simd_sexp::utils::bitrev64;

fn run_test(input: u64, output: u64) {
    let input = bitrev64(input);
    let output = bitrev64(output);
    let actual_output = Generic::new().clmul(input);
    assert_eq!(actual_output, output, "clmul of {:#066b}", input);
}

#[test]
fn clmul_test_1() {
        let input_ = 0b0;
        let output = 0b0;
        run_test(input_, output);
    }

#[test]
fn clmul_test_2() {
        let input_ = 0b1111111111111111111111111111111111111111111111111111111111111111;
        let output = 0b1010101010101010101010101010101010101010101010101010101010101010;
        run_test(input_, output);
    }

#[test]
fn clmul_test_3() {
        let input_ = 0b0111111111111111111111111111111111111111111111111111111111111111;
        let output = 0b0101010101010101010101010101010101010101010101010101010101010101;
        run_test(input_, output);
    }

#[test]
fn clmul_test_4() {
        let input_ = 0b11010010;
        let output = 0b10011100;
        run_test(input_, output);
    }
