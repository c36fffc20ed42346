use simd_sexp::parser::{self, Error, Parse};
use simd_sexp::rust_parser::{SexpFactory, SexpMulti, SingleTapeVisitor, SplitTapeVisitor};

fn validate(name: &str, input: &[u8], output: Result<String, Error>, expected_output: Result<&str, Error>) {
    let output = match output {
        Ok(ref x) => Ok(x.as_str()),
        Err(e) => Err(e),
    };
    assert_eq!(output, expected_output, "parser test failed for {} on input {:?}", name, input);
}

fn run_test(input: &[u8], expected_output: Result<&str, Error>) {
    {
        let mut parser = parser::parser_from_sexp_factory(SexpFactory::new());
        let output = parser.process(input).map(|sexps| SexpMulti(sexps).to_string());
        validate("SimpleVisitor<SexpFactory>", input, output, expected_output);
    }

    {
        let mut parser = parser::parser_from_sexp_factory(SexpFactory::new());
        parser.reset(None);
        let mut fed = Ok(());
        for i in 0..input.len() {
            fed = parser.process_partial(&input[i..i + 1]);
            if fed.is_err() {
                break;
            }
        }
        let output = match fed {
            Ok(()) => parser.process_eof().map(|sexps| SexpMulti(sexps).to_string()),
            Err(e) => Err(e),
        };
        validate("SimpleVisitor<SexpFactory> (one byte at a time)", input, output, expected_output);
    }

    {
        let mut parser = parser::parser_from_visitor(SplitTapeVisitor::new());
        let output = parser.process(input).map(|tape| tape.to_string());
        validate("SplitTapeVisitor", input, output, expected_output);
    }

    {
        let mut parser = parser::parser_from_visitor(SingleTapeVisitor::new());
        let output = parser.process(input).map(|tape| tape.to_string());
        validate("SingleTapeVisitor", input, output, expected_output);
    }
}

#[test]
fn rust_parser_test_1() {
    run_test(br#"foo"#, Ok(r#"foo"#));
}

#[test]
fn rust_parser_test_2() {
    run_test(br#"foo bar"#, Ok(r#"foo bar"#));
}

#[test]
fn rust_parser_test_3() {
    run_test(br#"foo   bar"#, Ok(r#"foo bar"#));
}

#[test]
fn rust_parser_test_4() {
    run_test(br#"(foo   bar)"#, Ok(r#"(foo bar)"#));
}

#[test]
fn rust_parser_test_5() {
    run_test(br#"(fo\o   bar)"#, Ok(r#"("fo\\o"bar)"#));
}

#[test]
fn rust_parser_test_6() {
    run_test(br#""()""#, Ok(r#""()""#));
}

#[test]
fn rust_parser_test_7() {
    run_test(br#"" ""#, Ok(r#"" ""#));
}

#[test]
fn rust_parser_test_8() {
    run_test(br#""fo\"o""#, Ok(r#""fo\"o""#));
}

#[test]
fn rust_parser_test_9() {
    run_test(br#"fo\"o""#, Ok(r#""fo\\"o"#));
}

#[test]
fn rust_parser_test_10() {
    run_test(br#"foo"x"bar"#, Ok(r#"foo x bar"#));
}

#[test]
fn rust_parser_test_11() {
    run_test(br#"foo(x)bar"#, Ok(r#"foo(x)bar"#));
}

#[test]
fn rust_parser_test_12() {
    run_test(br#""x"foo"y""#, Ok(r#"x foo y"#));
}

#[test]
fn rust_parser_test_13() {
    run_test(br#"(x)foo(y)"#, Ok(r#"(x)foo(y)"#));
}

#[test]
fn rust_parser_test_14() {
    run_test(br#""foo\n""#, Ok(r#""foo\n""#));
}

#[test]
fn rust_parser_test_15() {
    run_test(br#"(foo (bar baz))"#, Ok(r#"(foo(bar baz))"#));
}

#[test]
fn rust_parser_test_16() {
    run_test(br#"xxxxxxxxxxxxxxxxxxxxxxxxxxxxxxxxxxxxxxxxxxxxxxxxxxxxxxxxxxxxxxxxxxxxxxxxxxxxxxxxxxxx"#, Ok(r#"xxxxxxxxxxxxxxxxxxxxxxxxxxxxxxxxxxxxxxxxxxxxxxxxxxxxxxxxxxxxxxxxxxxxxxxxxxxxxxxxxxxx"#));
}

#[test]
fn rust_parser_test_17() {
    run_test(br#"                                                                                    "#, Ok(r#""#));
}

#[test]
fn rust_parser_test_18() {
    run_test(br#""a\000""#, Ok(r#""a\000""#));
}

#[test]
fn rust_parser_test_19() {
    run_test(br#""abc\000""#, Ok(r#""abc\000""#));
}

#[test]
fn rust_parser_test_20() {
    run_test(br#""abcdef\000""#, Ok(r#""abcdef\000""#));
}

#[test]
fn rust_parser_test_21() {
    run_test(br#""abcdefg\000""#, Ok(r#""abcdefg\000""#));
}
