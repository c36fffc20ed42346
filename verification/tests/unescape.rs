use simd_sexp::escape::{GenericUnescape, Unescape};

fn run_test(input: &[u8], output: Option<&[u8]>) {
    let mut input = input.to_vec();
    input.push(b'"');
    let mut actual_output_scratch: Vec<u8> = vec![0u8; input.len()];
    let actual_output = match GenericUnescape::new().unescape(&input[..], &mut actual_output_scratch[..]) {
        Some((_, actual_output_count)) => Some(&actual_output_scratch[0..actual_output_count]),
        None => None,
    };
    assert_eq!(output, actual_output, "unescape of {:?}", input);
}

#[test]
fn test_backslash_b() { run_test(b"\\b", Some(&b"\x07"[..])); }

#[test]
fn test_backslash_n() { run_test(b"\\n", Some(&b"\n"[..])); }

#[test]
fn test_backslash_r() { run_test(b"\\r", Some(&b"\r"[..])); }

#[test]
fn test_backslash_t() { run_test(b"\\t", Some(&b"\t"[..])); }

#[test]
fn test_backslash_backslash() { run_test(b"\\\\", Some(&b"\\"[..])); }

#[test]
fn test_backslash_misc() { run_test(b"\\q", Some(&b"\\q"[..])); }

#[test]
fn test_backslash_dec_1() { run_test(b"\\123", Some(&b"\x7b"[..])); }

#[test]
fn test_backslash_dec_2() { run_test(b"\\256", None); }

#[test]
fn test_backslash_dec_3() { run_test(b"\\000", Some(&b"\x00"[..])); }

#[test]
fn test_backslash_dec_4() { run_test(b"\\00", None); }

#[test]
fn test_backslash_hex_1() { run_test(b"\\xaC", Some(&b"\xac"[..])); }

#[test]
fn test_backslash_hex_2() { run_test(b"\\xgg", None); }

#[test]
fn test_backslash_hex_3() { run_test(b"\\x00", Some(&b"\x00"[..])); }

#[test]
fn test_backslash_hex_4() { run_test(b"\\x2", None); }

#[test]
fn escape_test_1() {
        let input_ = b"foo bar";
        let output = Some(&b"foo bar"[..]);
        run_test(input_, output);
    }

#[test]
fn escape_test_2() {
        let input_ = b"foo\nbar";
        let output = Some(&b"foo\nbar"[..]);
        run_test(input_, output);
    }

#[test]
fn escape_test_3() {
        let input_ = b"foo\\nbar";
        let output = Some(&b"foo\nbar"[..]);
        run_test(input_, output);
    }
