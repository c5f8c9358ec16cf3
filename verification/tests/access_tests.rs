use rsexp::BytesSlice;
use rsexp::IntoSexpError;
use rsexp::OfSexp;
use rsexp::Sexp;
use rsexp::SexpOf;
use rsexp::atom;
use rsexp::from_slice;
use rsexp::list;

#[test]
fn constructors_copy_their_input() {
    let a = atom(b"hello");
    assert_eq!(a, Sexp::Atom(b"hello".to_vec()));
    let l = list(&[a.clone(), atom(b"world")]);
    assert_eq!(l, Sexp::List(vec![a, atom(b"world")]));
}

#[test]
fn extract_atom_works() {
    let a = atom(b"hello");
    assert_eq!(a.extract_atom("t"), Ok(&b"hello"[..]));
    let l = list(&[atom(b"x"), atom(b"y")]);
    assert_eq!(
        l.extract_atom("t"),
        Err(IntoSexpError::ExpectedAtomGotList { type_: "t", list_len: 2 })
    );
}

#[test]
fn extract_list_works() {
    let l = list(&[atom(b"x"), atom(b"y")]);
    assert_eq!(l.extract_list("t"), Ok(&[atom(b"x"), atom(b"y")][..]));
    let a = atom(b"hello");
    assert_eq!(a.extract_list("t"), Err(IntoSexpError::ExpectedListGotAtom { type_: "t" }));
}

#[test]
fn extract_enum_works() {
    let unit = atom(b"None");
    assert_eq!(unit.extract_enum("t"), Ok((&b"None"[..], &[][..])));
    let with_args = from_slice(b"(Some 1 2)").unwrap();
    assert_eq!(
        with_args.extract_enum("t"),
        Ok((&b"Some"[..], &[atom(b"1"), atom(b"2")][..]))
    );
    let empty = list(&[]);
    assert_eq!(
        empty.extract_enum("t"),
        Err(IntoSexpError::ExpectedConstructorGotEmptyList { type_: "t" })
    );
    let nested = list(&[list(&[atom(b"x")])]);
    assert_eq!(
        nested.extract_enum("t"),
        Err(IntoSexpError::ExpectedConstructorGotListInList { type_: "t" })
    );
}

#[test]
fn extract_map_works() {
    let entries = vec![
        from_slice(b"(alpha 1)").unwrap(),
        from_slice(b"(beta (2 3))").unwrap(),
    ];
    let map = Sexp::extract_map(&entries, "t").unwrap();
    assert_eq!(map.len(), 2);
    assert_eq!(map[0].0.as_slice(), b"alpha");
    assert_eq!(map[0].1, &atom(b"1"));
    assert_eq!(map[1].0.as_slice(), b"beta");
    assert_eq!(map[1].1, &list(&[atom(b"2"), atom(b"3")]));
}

#[test]
fn extract_map_rejects_malformed_entries() {
    let entries = vec![atom(b"bare")];
    assert_eq!(
        Sexp::extract_map(&entries, "t"),
        Err(IntoSexpError::ExpectedPairForMapGotAtom { type_: "t" })
    );
    let entries = vec![from_slice(b"(a b c)").unwrap()];
    assert_eq!(
        Sexp::extract_map(&entries, "t"),
        Err(IntoSexpError::ExpectedPairForMapGotList { type_: "t", list_len: 3 })
    );
    let entries = vec![from_slice(b"((a) b)").unwrap()];
    assert_eq!(
        Sexp::extract_map(&entries, "t"),
        Err(IntoSexpError::ExpectedPairForMapGotList { type_: "t", list_len: 2 })
    );
}

#[test]
fn extract_map_rejects_duplicate_keys() {
    let entries = vec![
        from_slice(b"(foo 1)").unwrap(),
        from_slice(b"(bar 2)").unwrap(),
        from_slice(b"(foo 3)").unwrap(),
    ];
    assert_eq!(
        Sexp::extract_map(&entries, "t"),
        Err(IntoSexpError::DuplicateKeyInMap { type_: "t", key: Some("foo".to_string()) })
    );
    // A key that is not valid UTF-8 is reported with replacement characters.
    let bad_key = list(&[atom(&[0xFF, b'k']), atom(b"1")]);
    let entries = vec![bad_key.clone(), bad_key];
    assert_eq!(
        Sexp::extract_map(&entries, "t"),
        Err(IntoSexpError::DuplicateKeyInMap {
            type_: "t",
            key: Some("\u{FFFD}k".to_string()),
        })
    );
}

struct Unit;

impl OfSexp for Unit {
    fn of_sexp(s: &Sexp) -> Result<Self, IntoSexpError> {
        let elems = s.extract_list("Unit")?;
        if elems.is_empty() {
            Ok(Unit)
        } else {
            Err(IntoSexpError::ListLengthMismatch {
                type_: "Unit",
                expected_len: 0,
                list_len: elems.len(),
            })
        }
    }
}

#[test]
fn of_sexp_through_trait() {
    let ok: Result<Unit, _> = list(&[]).of_sexp();
    assert!(ok.is_ok());
    let err: Result<Unit, _> = list(&[atom(b"x")]).of_sexp();
    assert_eq!(
        err.err(),
        Some(IntoSexpError::ListLengthMismatch {
            type_: "Unit",
            expected_len: 0,
            list_len: 1,
        })
    );
}

#[test]
fn sexp_of_bytes_and_strings() {
    let b = BytesSlice(b"raw bytes");
    assert_eq!(b.sexp_of(), atom(b"raw bytes"));
    let s = "some text".to_string();
    assert_eq!(s.sexp_of(), atom(b"some text"));
    assert_eq!(s.sexp_of().to_bytes(), b"\"some text\"");
    let borrowed = "plain";
    assert_eq!(borrowed.sexp_of(), atom(b"plain"));
    assert_eq!(borrowed.sexp_of().to_bytes(), b"plain");
}
