use simd_sexp::ranges::odd_range_ends;
use simd_sexp::utils::bitrev64;

fn run_test(input: u64, output: u64, in_ovf: bool, out_ovf: bool) {
    let input = bitrev64(input);
    let output = bitrev64(output);
    let (actual_output, actual_out_ovf) = odd_range_ends(input, in_ovf);
    assert_eq!(actual_output, output, "odd_range_ends of {:#066b} ({})", input, in_ovf);
    assert_eq!(actual_out_ovf, out_ovf, "overflow of {:#066b} ({})", input, in_ovf);
}

#[test]
fn ranges_test_1() {
        let input__ = 0b0000000000000000000000000000000000000000000000000000000000000000;
        let in_ovf_ = false;
        let output_ = 0b0000000000000000000000000000000000000000000000000000000000000000;
        let out_ovf = false;
        run_test(input__, output_, in_ovf_, out_ovf);
    }

#[test]
fn ranges_test_2() {
        let input__ = 0b1000000000000000000000000000000000000000000000000000000000000000;
        let in_ovf_ = false;
        let output_ = 0b0100000000000000000000000000000000000000000000000000000000000000;
        let out_ovf = false;
        run_test(input__, output_, in_ovf_, out_ovf);
    }

#[test]
fn ranges_test_3() {
        let input__ = 0b1100000000000000000000000000000000000000000000000000000000000000;
        let in_ovf_ = false;
        let output_ = 0b0000000000000000000000000000000000000000000000000000000000000000;
        let out_ovf = false;
        run_test(input__, output_, in_ovf_, out_ovf);
    }

#[test]
fn ranges_test_4() {
        let input__ = 0b1110000000000000000000000000000000000000000000000000000000000000;
        let in_ovf_ = false;
        let output_ = 0b0001000000000000000000000000000000000000000000000000000000000000;
        let out_ovf = false;
        run_test(input__, output_, in_ovf_, out_ovf);
    }

#[test]
fn ranges_test_5() {
        let input__ = 0b1110110111011011100000000000000000000000000000000000000000000000;
        let in_ovf_ = false;
        let output_ = 0b0001000000100000010000000000000000000000000000000000000000000000;
        let out_ovf = false;
        run_test(input__, output_, in_ovf_, out_ovf);
    }

#[test]
fn ranges_test_6() {
        let input__ = 0b0000000000000000000000000000000000000000000000000000000000000000;
        let in_ovf_ = true;
        let output_ = 0b1000000000000000000000000000000000000000000000000000000000000000;
        let out_ovf = false;
        run_test(input__, output_, in_ovf_, out_ovf);
    }

#[test]
fn ranges_test_7() {
        let input__ = 0b1000000000000000000000000000000000000000000000000000000000000000;
        let in_ovf_ = true;
        let output_ = 0b0000000000000000000000000000000000000000000000000000000000000000;
        let out_ovf = false;
        run_test(input__, output_, in_ovf_, out_ovf);
    }

#[test]
fn ranges_test_8() {
        let input__ = 0b1100000000000000000000000000000000000000000000000000000000000000;
        let in_ovf_ = true;
        let output_ = 0b0010000000000000000000000000000000000000000000000000000000000000;
        let out_ovf = false;
        run_test(input__, output_, in_ovf_, out_ovf);
    }

#[test]
fn ranges_test_9() {
        let input__ = 0b1110000000000000000000000000000000000000000000000000000000000000;
        let in_ovf_ = true;
        let output_ = 0b0000000000000000000000000000000000000000000000000000000000000000;
        let out_ovf = false;
        run_test(input__, output_, in_ovf_, out_ovf);
    }

#[test]
fn ranges_test_10() {
        let input__ = 0b1110110111011011100000000000000000000000000000000000000000000000;
        let in_ovf_ = true;
        let output_ = 0b0000000000100000010000000000000000000000000000000000000000000000;
        let out_ovf = false;
        run_test(input__, output_, in_ovf_, out_ovf);
    }

#[test]
fn ranges_test_11() {
        let input__ = 0b0000000000000000000000000000000000000000000000000000000000000011;
        let in_ovf_ = false;
        let output_ = 0b0000000000000000000000000000000000000000000000000000000000000000;
        let out_ovf = false;
        run_test(input__, output_, in_ovf_, out_ovf);
    }

#[test]
fn ranges_test_12() {
        let input__ = 0b0000000000000000000000000000000000000000000000000000000000000001;
        let in_ovf_ = false;
        let output_ = 0b0000000000000000000000000000000000000000000000000000000000000000;
        let out_ovf = true;
        run_test(input__, output_, in_ovf_, out_ovf);
    }

#[test]
fn ranges_test_13() {
        let input__ = 0b0000000000000000000000000000000000000000000000000000000000000001;
        let in_ovf_ = true;
        let output_ = 0b1000000000000000000000000000000000000000000000000000000000000000;
        let out_ovf = true;
        run_test(input__, output_, in_ovf_, out_ovf);
    }
