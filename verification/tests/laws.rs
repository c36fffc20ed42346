use simd_sexp::escape::{self, GenericUnescape, Unescape};
use simd_sexp::escape_csv;
use simd_sexp::parser::{self, Error, ExtractPartialResult, Parse};
use simd_sexp::select::{make_parser, OutputKind, SelectParser};
use simd_sexp::rust_generator;
use simd_sexp::rust_parser::{Sexp, SexpFactory, SexpMulti, SingleTapeVisitor, SplitTapeVisitor};
use simd_sexp::varint::{BoundedVec, GenericDecoder, GenericEncoder};

#[test]
fn unescape_undoes_escape() {
    let input: Vec<u8> = (0u8..=255).collect();
    let mut escaped = escape::escape(&input);
    let n = escaped.len();
    escaped.push(b'"');
    let mut out = vec![0u8; escaped.len()];
    let r = GenericUnescape::new().unescape(&escaped, &mut out);
    assert_eq!(r, Some((n, input.len())));
    assert_eq!(&out[..input.len()], &input[..]);
}

#[test]
fn escape_uses_decimal_for_control_bytes() {
    assert_eq!(escape::escape(b"a\x00\xff\"\\\n"), b"a\\000\\255\\\"\\\\\\n".to_vec());
    assert!(escape::escape_is_necessary(b"a b"));
    assert!(!escape::escape_is_necessary(b"abc"));
    assert_eq!(escape::escape(b"abc'!"), b"abc'!".to_vec());
}

#[test]
fn unescape_errors() {
    let mut out = [0u8; 8];
    assert_eq!(GenericUnescape::new().unescape(b"abc", &mut out), None);
    assert_eq!(GenericUnescape::new().unescape(b"a\"bc", &mut out), Some((1, 1)));
}

#[test]
fn csv_escape_doubles_quotes() {
    let mut out = Vec::new();
    escape_csv::escape(b"a\"b", &mut out);
    assert_eq!(out, b"\"a\"\"b\"".to_vec());
    assert!(escape_csv::escape_is_necessary(b"a,b"));
    assert!(escape_csv::escape_is_necessary(b"a\nb"));
    assert!(!escape_csv::escape_is_necessary(b"a b"));
}

#[test]
fn varint_roundtrip() {
    let enc = GenericEncoder::new();
    let dec = GenericDecoder::new();
    for v in [0usize, 1, 127, 128, 300, 1 << 40, usize::MAX] {
        let mut bytes: Vec<u8> = Vec::new();
        assert_eq!(enc.encode_one_generic(v, &mut bytes), Some(()));
        assert_eq!(bytes.len(), enc.encode_length(v));
        let mut out = 0usize;
        assert_eq!(dec.decode_one(&bytes, &mut out), Some(bytes.len()));
        assert_eq!(out, v);
    }
}

#[test]
fn varint_encode_into_sink_stops_at_first_refusal() {
    let enc = GenericEncoder::new();
    let mut sink = BoundedVec { bytes: Vec::new(), room: 1 };
    assert_eq!(enc.encode_one_generic(300, &mut sink), None);
    assert_eq!(sink.bytes, vec![0b10101100u8]);
    let mut sink = BoundedVec { bytes: Vec::new(), room: 2 };
    assert_eq!(enc.encode_one_generic(300, &mut sink), Some(()));
    assert_eq!(sink.bytes, vec![0b10101100u8, 0b00000010]);
    let mut v = vec![7u8];
    assert_eq!(enc.encode_one_generic(300, &mut v), Some(()));
    assert_eq!(v, vec![7u8, 0b10101100, 0b00000010]);
    let mut short = [9u8; 1];
    assert_eq!(enc.encode_one(300, &mut short), None);
    assert_eq!(short, [0b10101100u8]);
}

#[test]
fn varint_roundtrip_with_trailing_bytes() {
    let enc = GenericEncoder::new();
    let dec = GenericDecoder::new();
    for v in [0usize, 300, 1 << 40, usize::MAX] {
        let mut buf = [0xffu8; 16];
        let n = enc.encode_one(v, &mut buf).unwrap();
        assert!(buf[n..].iter().all(|&b| b == 0xff));
        let mut out = 0usize;
        assert_eq!(dec.decode_one(&buf, &mut out), Some(n));
        assert_eq!(out, v);
    }
}

#[test]
fn select_unmatched_close_writes_nothing() {
    let mut p = match make_parser(vec![b"a".to_vec()], OutputKind::Values).1 {
        SelectParser::Values(p) => p,
        _ => unreachable!(),
    };
    p.reset(None);
    p.process_partial(b"((a b)) x").unwrap();
    assert_eq!(p.extract_partial_result(), b"(b)\n".to_vec());
    assert_eq!(p.process_partial(b") ((a c))"), Err(Error::UnmatchedCloseParen));
    assert_eq!(p.extract_partial_result(), Vec::<u8>::new());
}

#[test]
fn tapes_read_back_what_was_parsed() {
    let input = b"(a (b \"c d\") \"\") e";
    let sexps = parser::parser_from_sexp_factory(SexpFactory::new()).process(input).unwrap();
    let expected = SexpMulti(sexps).to_string();
    let split = parser::parser_from_visitor(SplitTapeVisitor::new()).process(input).unwrap();
    assert_eq!(split.to_string(), expected);
    let single = parser::parser_from_visitor(SingleTapeVisitor::new()).process(input).unwrap();
    assert_eq!(single.to_string(), expected);
}

#[test]
fn parse_errors() {
    let mut p = parser::parser_from_sexp_factory(SexpFactory::new());
    assert_eq!(p.process(b"(a").map(|_| ()), Err(Error::UnmatchedOpenParen));
    let mut p = parser::parser_from_sexp_factory(SexpFactory::new());
    assert_eq!(p.process(b"a)").map(|_| ()), Err(Error::UnmatchedCloseParen));
    let mut p = parser::parser_from_sexp_factory(SexpFactory::new());
    assert_eq!(p.process(b"\"abc").map(|_| ()), Err(Error::BadQuotedAtom));
}

#[test]
fn generator_writes_ascii() {
    let s = Sexp::List(vec![Sexp::Atom(b"a b".to_vec()), Sexp::Atom(b"\x01".to_vec())]);
    assert_eq!(rust_generator::fmt(&s), "(\"a b\"\"\\001\")");
}

#[test]
fn streaming_in_pieces_gives_the_whole_parse() {
    let input = b"(foo \"bar \\\" baz\" (x y)) qux \"\\065\"";
    let whole = SexpMulti(parser::parser_from_sexp_factory(SexpFactory::new()).process(input).unwrap()).to_string();
    for piece in 1..input.len() {
        let mut p = parser::parser_from_sexp_factory(SexpFactory::new());
        p.reset(None);
        for chunk in input.chunks(piece) {
            p.process_partial(chunk).unwrap();
        }
        assert_eq!(SexpMulti(p.process_eof().unwrap()).to_string(), whole);
    }
}

fn print_in_pieces(input: &[u8], piece: usize) -> Vec<u8> {
    let mut p = simd_sexp::print::make();
    p.reset(None);
    let mut out = Vec::new();
    for chunk in input.chunks(piece) {
        p.process_partial(chunk).unwrap();
        out.extend(p.extract_partial_result());
    }
    out.extend(p.process_eof().unwrap());
    out
}

#[test]
fn printing_in_pieces_writes_what_printing_whole_writes() {
    let input = b"(a (b \"c \\\" d\") \"\") e \"\\x41\"";
    let whole = simd_sexp::print::make().process(input).unwrap();
    for piece in 1..input.len() {
        assert_eq!(print_in_pieces(input, piece), whole, "piece size {}", piece);
    }
}

#[test]
fn selecting_in_pieces_writes_what_selecting_whole_writes() {
    let input = b"((foo \"a, b\") (bar 1))\n((bar 2) (foo x))\n";
    let keys = vec![b"foo".to_vec(), b"bar".to_vec()];
    let whole = match make_parser(keys.clone(), OutputKind::Csv { atoms_as_sexps: false }).1 {
        SelectParser::Csv(mut p) => p.process(input).unwrap(),
        _ => unreachable!(),
    };
    assert_eq!(whole, b"\"a, b\",1\nx,2\n".to_vec());
    for piece in 1..input.len() {
        let mut p = match make_parser(keys.clone(), OutputKind::Csv { atoms_as_sexps: false }).1 {
            SelectParser::Csv(p) => p,
            _ => unreachable!(),
        };
        p.reset(None);
        let mut out = Vec::new();
        for chunk in input.chunks(piece) {
            p.process_partial(chunk).unwrap();
            out.extend(p.extract_partial_result());
        }
        out.extend(p.process_eof().unwrap());
        assert_eq!(out, whole, "piece size {}", piece);
    }
}
