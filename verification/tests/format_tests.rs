use rsexp::Error;
use rsexp::Sexp;
use rsexp::escape::must_escape;
use rsexp::from_slice;
use rsexp::from_slice_allow_remaining;
use rsexp::from_slice_multi;

fn atom(b: &[u8]) -> Sexp {
    Sexp::Atom(b.to_vec())
}

fn list(l: &[Sexp]) -> Sexp {
    Sexp::List(l.to_vec())
}

#[test]
fn plain_write_single_spaces() {
    let sexp = from_slice(b"( ATOM)").unwrap();
    assert_eq!(sexp, list(&[atom(b"ATOM")]));
    assert_eq!(sexp.to_bytes(), b"(ATOM)");
}

#[test]
fn decimal_and_hex_escapes_decode() {
    assert_eq!(from_slice(b"\"\\000A\\123\""), Ok(atom(&[0x00, b'A', 0x7B])));
    assert_eq!(from_slice(b"\"\\x00\\x41\\x7b\""), Ok(atom(&[0x00, b'A', 0x7B])));
}

#[test]
fn multi_parses_what_one_rejects() {
    let sexps = from_slice_multi(b"(a b c)(d e)").unwrap();
    assert_eq!(
        sexps,
        vec![
            list(&[atom(b"a"), atom(b"b"), atom(b"c")]),
            list(&[atom(b"d"), atom(b"e")]),
        ]
    );
    assert_eq!(from_slice(b"(a b c)(d e)"), Err(Error::UnexpectedEof));
    let (remaining, sexp) = from_slice_allow_remaining(b"(a b c)(d e)").unwrap();
    assert_eq!(sexp, list(&[atom(b"a"), atom(b"b"), atom(b"c")]));
    assert_eq!(remaining, b"(d e)");
}

#[test]
fn block_marker_atom_roundtrips_quoted() {
    assert!(must_escape(b"#|"));
    assert!(must_escape(b"x|#y"));
    assert!(!must_escape(b"#x|"));
    let sexp = atom(b"#|");
    let bytes = sexp.to_bytes();
    assert_eq!(bytes, b"\"#|\"");
    assert_eq!(from_slice(&bytes), Ok(sexp));
}

#[test]
fn empty_atom_roundtrips_quoted() {
    assert!(must_escape(b""));
    let sexp = atom(b"");
    assert_eq!(sexp.to_bytes(), b"\"\"");
    assert_eq!(from_slice(&sexp.to_bytes()), Ok(sexp));
}

#[test]
fn high_bytes_roundtrip() {
    let sexp = atom(&[0, 9, 127, 128, 255, b'a']);
    let bytes = sexp.to_bytes();
    assert_eq!(bytes, b"\"\\000\\t\\127\\128\\255a\"");
    assert_eq!(from_slice(&bytes), Ok(sexp.clone()));
    assert_eq!(from_slice(&sexp.to_bytes_mach()), Ok(sexp.clone()));
    assert_eq!(from_slice(&sexp.to_bytes_hum()), Ok(sexp));
}

#[test]
fn machine_write_is_minimal() {
    let sexp = from_slice(b"(a (b) \"c c\" d)").unwrap();
    assert_eq!(sexp.to_bytes_mach(), b"(a(b)\"c c\"d)");
    let sexp = from_slice(b"(a b c)").unwrap();
    assert_eq!(sexp.to_bytes_mach(), b"(a b c)");
}

#[test]
fn write_multi_roundtrips() {
    let sexps = from_slice_multi(b"()((foo bar)(baz (1 2 3)))").unwrap();
    let bytes = Sexp::to_bytes_multi(&sexps);
    assert_eq!(bytes, b"() ((foo bar) (baz (1 2 3)))");
    assert_eq!(from_slice_multi(&bytes).unwrap(), sexps);
}

#[test]
fn human_write_wraps_before_overflow() {
    let short = atom(&[b'x'; 80]);
    let long = atom(&[b'y'; 120]);
    let sexp = list(&[short, long]);
    let bytes = sexp.to_bytes_hum();
    let mut expected = Vec::new();
    expected.push(b'(');
    expected.extend_from_slice(&[b'x'; 80]);
    expected.extend_from_slice(b"\n ");
    expected.extend_from_slice(&[b'y'; 120]);
    expected.push(b')');
    assert_eq!(bytes, expected);
    assert_eq!(from_slice(&bytes), Ok(sexp));
}

#[test]
fn human_write_keeps_flat_lines_near_budget() {
    // A flat list of two-digit atoms: every emitted line stays within two
    // bytes of the 90-column budget.
    let children: Vec<Sexp> = (10..80).map(|n| atom(format!("{}", n).as_bytes())).collect();
    let sexp = list(&children);
    let bytes = sexp.to_bytes_hum();
    for line in bytes.split(|&b| b == b'\n') {
        assert!(line.len() <= 92);
    }
    assert_eq!(from_slice(&bytes), Ok(sexp));
}

#[test]
fn human_write_is_idempotent() {
    let source = b"((alpha beta gamma delta epsilon zeta eta theta) (iota kappa lambda mu) \
                   (nu xi omicron pi rho sigma tau upsilon phi chi psi omega ab cd ef gh))";
    let sexp = from_slice(source).unwrap();
    let once = sexp.to_bytes_hum();
    let reparsed = from_slice(&once).unwrap();
    assert_eq!(reparsed, sexp);
    let twice = reparsed.to_bytes_hum();
    assert_eq!(once, twice);
}

#[test]
fn write_appends_to_the_sink() {
    let sexp = from_slice(b"(a b)").unwrap();
    let mut out = b"prefix: ".to_vec();
    sexp.write(&mut out);
    assert_eq!(out, b"prefix: (a b)");
    let mut out = Vec::new();
    sexp.write_mach(&mut out);
    assert_eq!(out, b"(a b)");
}

#[test]
fn write_hum_honors_width_budget_parameter() {
    let sexp = from_slice(b"(aa bb cc)").unwrap();
    let mut out = Vec::new();
    sexp.write_hum(&mut out, 5);
    assert_eq!(out, b"(aa bb\n cc)");
    assert_eq!(from_slice(&out), Ok(sexp));
}

#[test]
fn comments_are_whitespace() {
    assert_eq!(from_slice(b"; comment\n(a ; inner\n b)"), Ok(list(&[atom(b"a"), atom(b"b")])));
    assert_eq!(from_slice_multi(b"() ; trailing comment"), Ok(vec![list(&[])]));
    assert_eq!(from_slice_multi(b"() ; trailing comment\n"), Ok(vec![list(&[])]));
}

#[test]
fn line_continuation_in_quoted_atom() {
    assert_eq!(from_slice(b"\"ab\\\n   cd\""), Ok(atom(b"abcd")));
}

#[test]
fn empty_input_multi() {
    assert_eq!(from_slice_multi(b""), Ok(vec![]));
    assert_eq!(Sexp::to_bytes_multi(&[]), b"");
}

#[test]
fn semicolon_inside_quoted_atom_is_literal() {
    assert_eq!(from_slice(b"\"a;b\""), Ok(atom(b"a;b")));
    assert_eq!(atom(b"a;b").to_bytes(), b"\"a;b\"");
}

#[test]
fn parse_error_variants() {
    assert_eq!(from_slice(b""), Err(Error::EmptyAtom));
    assert_eq!(from_slice(b"a#|b"), Err(Error::UnexpectedCharInString(b'#')));
    assert_eq!(from_slice(b"ab#|"), Err(Error::UnexpectedCharInString(b'#')));
    assert_eq!(from_slice(b"a|#b"), Err(Error::UnexpectedCharInString(b'|')));
    assert_eq!(from_slice(b"\"abc"), Err(Error::UnexpectedEofInString));
    assert_eq!(from_slice(b"\"abc\\"), Err(Error::UnexpectedEofInString));
    assert_eq!(from_slice(b"(a"), Err(Error::UnexpectedEof));
    assert_eq!(from_slice(b"(a) b"), Err(Error::UnexpectedEof));
}
