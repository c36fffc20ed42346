use simd_sexp::parser::{self, Error, ExtractPartialResult, WritingStage2Adapter};
use simd_sexp::select::{make_parser, Output, OutputKind, SelectParser, Stage2};
use simd_sexp::structural;

fn stream<OutputT: Output>(
    mut parser: parser::State<structural::Generic, WritingStage2Adapter<Stage2<OutputT>>>,
    input: &[u8],
    output: &mut Vec<u8>,
) -> Result<(), Error> {
    parser.reset(None);
    parser.process_partial(input)?;
    output.extend(parser.extract_partial_result());
    let rest = parser.process_eof()?;
    output.extend(rest);
    Ok(())
}

fn run_test(output_kind: OutputKind, input: &[u8], keys: &[&[u8]], expected_output: Result<&[u8], Error>) {
    let keys: Vec<Vec<u8>> = keys.iter().map(|k| k.to_vec()).collect();
    let (header, parser) = make_parser(keys, output_kind);
    let mut output = header;
    let ok = match parser {
        SelectParser::Values(p) => stream(p, input, &mut output),
        SelectParser::Labeled(p) => stream(p, input, &mut output),
        SelectParser::Csv(p) => stream(p, input, &mut output),
    };
    let output = ok.map(move |()| output);
    assert_eq!(
        output.map(|output| String::from_utf8(output).unwrap()),
        expected_output.map(|expected_output| String::from_utf8(expected_output.to_owned()).unwrap()),
        "output_kind: {:?}",
        output_kind
    );
}

#[test]
fn select_test_1() {
        let input = br#"((foo bar))"#;
        let keys = &[&b"foo"[..]];
        run_test(
            OutputKind::Csv { atoms_as_sexps: false },
            input,
            keys,
            Ok(br#"foo
bar
"#));
        run_test(
            OutputKind::Csv { atoms_as_sexps: true },
            input,
            keys,
            Ok(br#"foo
bar
"#));
    }

#[test]
fn select_test_2() {
        let input = br#"((foo"bar"))"#;
        let keys = &[&b"foo"[..]];
        run_test(
            OutputKind::Csv { atoms_as_sexps: false },
            input,
            keys,
            Ok(br#"foo
bar
"#));
        run_test(
            OutputKind::Csv { atoms_as_sexps: true },
            input,
            keys,
            Ok(br#"foo
"""bar"""
"#));
    }

#[test]
fn select_test_3() {
        let input = br#"(("foo"bar))"#;
        let keys = &[&b"foo"[..]];
        run_test(
            OutputKind::Csv { atoms_as_sexps: false },
            input,
            keys,
            Ok(br#"foo
bar
"#));
        run_test(
            OutputKind::Csv { atoms_as_sexps: true },
            input,
            keys,
            Ok(br#"foo
bar
"#));
    }

#[test]
fn select_test_4() {
        let input = br#"((foo"bar\"baz"))"#;
        let keys = &[&b"foo"[..]];
        run_test(
            OutputKind::Csv { atoms_as_sexps: false },
            input,
            keys,
            Ok(br#"foo
"bar""baz"
"#));
        run_test(
            OutputKind::Csv { atoms_as_sexps: true },
            input,
            keys,
            Ok(br#"foo
"""bar\""baz"""
"#));
    }

#[test]
fn select_test_5() {
        let input = br#"((foo"bar baz"))"#;
        let keys = &[&b"foo"[..]];
        run_test(
            OutputKind::Csv { atoms_as_sexps: false },
            input,
            keys,
            Ok(br#"foo
bar baz
"#));
        run_test(
            OutputKind::Csv { atoms_as_sexps: true },
            input,
            keys,
            Ok(br#"foo
"""bar baz"""
"#));
    }

#[test]
fn select_test_6() {
        let input = br#"((foo bar,baz))"#;
        let keys = &[&b"foo"[..]];
        run_test(
            OutputKind::Csv { atoms_as_sexps: false },
            input,
            keys,
            Ok(br#"foo
"bar,baz"
"#));
        run_test(
            OutputKind::Csv { atoms_as_sexps: true },
            input,
            keys,
            Ok(br#"foo
"bar,baz"
"#));
    }

#[test]
fn select_test_7() {
        let input = br#"((foo "bar, baz"))"#;
        let keys = &[&b"foo"[..]];
        run_test(
            OutputKind::Csv { atoms_as_sexps: false },
            input,
            keys,
            Ok(br#"foo
"bar, baz"
"#));
        run_test(
            OutputKind::Csv { atoms_as_sexps: true },
            input,
            keys,
            Ok(br#"foo
"""bar, baz"""
"#));
    }

#[test]
fn select_test_8() {
        let input = b"(";
        let keys = &[];
        run_test(
            OutputKind::Csv { atoms_as_sexps: false },
            input,
            keys,
            Err(Error::UnmatchedOpenParen));
    }

#[test]
fn select_test_9() {
        let input = b"\"";
        let keys = &[];
        run_test(
            OutputKind::Csv { atoms_as_sexps: false },
            input,
            keys,
            Err(Error::BadQuotedAtom));
    }

#[test]
fn select_test_10() {
        let input = b"foo bar";
        let keys = &[&b"foo"[..]];
        run_test(
            OutputKind::Csv { atoms_as_sexps: false },
            input,
            keys,
            Ok(br#"foo
"#));
    }

#[test]
fn test_empty() {
        let input = b"";
        let keys = &[];
        run_test(
            OutputKind::Csv { atoms_as_sexps: false },
            input,
            keys,
            Ok(b"\n"));
    }
