use simd_sexp::clmul::{self, Clmul};
use simd_sexp::extract;
use simd_sexp::find_quote_transitions::find_quote_transitions;
use simd_sexp::ranges::{range_starts, range_starts_single, range_tails, range_transitions};
use simd_sexp::start_stop_transitions::{self, StartStopTransitions};
use simd_sexp::utils::bitrev64;
use simd_sexp::xor_masked_adjacent::{self, XorMaskedAdjacent};

#[test]
fn range_starts_marks_first_bit_of_each_run() {
    assert_eq!(range_starts_single(0b0111_0110), 0b0001_0010);
    assert_eq!(range_starts(0b0111_0111, true), 0b0001_0000);
    assert_eq!(range_starts(0b0111_0111, false), 0b0001_0001);
}

#[test]
fn range_transitions_is_starts_of_ones_and_of_zeros() {
    let bm = 0b0111_0110u64;
    assert_eq!(range_transitions(bm, false), range_starts(bm, false) | range_starts(!bm, true));
    assert_eq!(range_transitions(bm, false), 0b1001_1010);
}

#[test]
fn range_tails_marks_bits_after_the_first() {
    assert_eq!(range_tails(0b0111_0111, 0), 0b0110_0110);
    assert_eq!(range_tails(0b0111_0111, 1 << 63), 0b0110_0111);
}

#[test]
fn clmul_is_prefix_parity() {
    let c = clmul::runtime_detect();
    assert_eq!(c.clmul(0b1), u64::MAX);
    assert_eq!(c.clmul(0b1001), 0b0111);
}

#[test]
fn xor_masked_adjacent_skips_unmasked_bits() {
    let x = xor_masked_adjacent::runtime_detect();
    // masked positions 1, 3, 5 hold bits 1, 1, 0
    assert_eq!(x.xor_masked_adjacent(0b0000_1010, 0b0010_1010, false), 0b0010_0010);
    assert_eq!(x.xor_masked_adjacent(0b0000_1010, 0b0010_1010, true), 0b0010_0000);
}

#[test]
fn start_stop_state_is_kind_of_last_mark() {
    let s = start_stop_transitions::runtime_detect();
    // start at 0, start at 2, stop at 5: transitions at 0 and 5; ends after a stop
    let (t, state) = s.start_stop_transitions(0b0000_0101, 0b0010_0000, false);
    assert_eq!(t, 0b0010_0001);
    assert!(!state);
    // one start, nothing else: the state after the block is "in a start"
    let (t, state) = s.start_stop_transitions(0b1000, 0, false);
    assert_eq!(t, 0b1000);
    assert!(state);
}

#[test]
fn escaped_quote_counts_only_outside_strings() {
    let c = clmul::Generic::new();
    let x = xor_masked_adjacent::Generic::new();
    // outside a string, an escaped quote flips the state
    let (t, state) = find_quote_transitions(&c, &x, 0, 0b100, false);
    assert_eq!(t, 0b100);
    assert!(state);
    // inside a string, it does not
    let (t, state) = find_quote_transitions(&c, &x, 0, 0b100, true);
    assert_eq!(t, 0);
    assert!(state);
}

#[test]
fn bitrev64_reverses() {
    assert_eq!(bitrev64(1), 1 << 63);
    assert_eq!(bitrev64(0b1011), 0b1101 << 60);
}

#[test]
fn extract_safe_and_fast_agree() {
    let bitmask = (1u64 << 3) | (1 << 17) | (1 << 63);
    let mut out = vec![0usize; 16];
    let n = extract::safe(&mut out, 100, bitmask);
    assert_eq!(n, 3);
    assert_eq!(&out[..3], &[103, 117, 163]);
    let mut out2 = vec![0usize; 16];
    let m = extract::fast(&mut out2, 100, bitmask);
    assert_eq!(m, 3);
    assert_eq!(&out2[..3], &[103, 117, 163]);
    assert!(out2[3..8].iter().all(|&x| x == 164));
    let mut v = vec![7usize];
    extract::safe_generic(&mut v, 0, bitmask);
    assert_eq!(v, vec![7, 3, 17, 63]);
}

#[test]
fn extract_fast_counts_with_count_ones() {
    let bitmask = u64::MAX;
    let mut out = vec![0usize; 64];
    assert_eq!(extract::fast(&mut out, 0, bitmask), 64);
    assert_eq!(out, (0..64).collect::<Vec<usize>>());
}

#[test]
fn bitmask_pictures() {
    use_pictures();
}

fn use_pictures() {
    assert_eq!(simd_sexp::utils::bitmask_chars(0b1101, 4, true), b"x xx".to_vec());
    assert_eq!(simd_sexp::utils::bitmask_chars(0b1101, 4, false), b"xx x".to_vec());
    assert_eq!(simd_sexp::utils::bool_chars(&[true, false, true]), b"x x".to_vec());
}
