use simd_sexp::structural::{Classifier, Generic};

fn bits_of_chunk(output: &mut Vec<bool>, bitmask: u64, bitmask_len: usize) {
    for i in 0..bitmask_len {
        output.push(bitmask & (1 << i) != 0);
    }
}

fn run_test(input: &[u8], output: &[bool]) {
    let mut generic = Generic::new();
    let mut actual_output: Vec<bool> = Vec::new();
    let mut offset = 0;
    while offset < input.len() {
        let (bitmask, bitmask_len) = generic.structural_indices_bitmask(&input[offset..]);
        bits_of_chunk(&mut actual_output, bitmask, bitmask_len);
        offset += bitmask_len;
    }
    assert_eq!(output, &actual_output[..], "structural indices of {:?}", input);
}

#[test]
fn structural_test_1() {
    run_test(br#""foo""#, &[true, false, false, false, false]);
}

#[test]
fn structural_test_2() {
    let input_1 = [b'"'];
    let mut input_2 = [b' '; 64];
    input_2[0] = b'"';
    input_2[1] = b'(';
    let mut expected_output = [false; 65];
    expected_output[0] = true;
    expected_output[2] = true;

    let mut generic = Generic::new();
    let mut output: Vec<bool> = Vec::new();
    for input in [&input_1[..], &input_2[..]] {
        let (bitmask, bitmask_len) = generic.structural_indices_bitmask(&input[..]);
        bits_of_chunk(&mut output, bitmask, bitmask_len);
    }
    assert_eq!(output, expected_output);
}
