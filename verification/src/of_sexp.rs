//! Structural accessors for a typed conversion layer: reading an atom, a
//! list, an enum head, or a name-to-value map out of a tree, with a
//! structured error for every mismatch.

use vstd::prelude::*;

use crate::sexp::Sexp;
use crate::sexp::SpecSexp;
use crate::sexp::lemma_view_elems;
use crate::sexp::view_elems;

verus! {

/// Errors that can arise when converting a tree to a specific type.
#[derive(Clone, Debug, PartialEq, Eq)]
pub enum IntoSexpError {
    ExpectedAtomGotList { type_: &'static str, list_len: usize },
    ExpectedListGotAtom { type_: &'static str },
    ExpectedPairForMapGotAtom { type_: &'static str },
    DuplicateKeyInMap { type_: &'static str, key: Option<String> },
    ExpectedPairForMapGotList { type_: &'static str, list_len: usize },
    ListLengthMismatch { type_: &'static str, expected_len: usize, list_len: usize },
    StringConversionError { err: String },
    MissingFieldsInStruct { type_: &'static str, field: &'static str },
    ExtraFieldsInStruct { type_: &'static str, extra_fields: Vec<String> },
    UnknownConstructorForEnum { type_: &'static str, constructor: String },
    ExpectedConstructorGotEmptyList { type_: &'static str },
    ExpectedConstructorGotListInList { type_: &'static str },
}

/// The replacement-character text of a byte string; what
/// `DuplicateKeyInMap` reports as the offending key.
pub uninterp spec fn lossy_utf8(bytes: Seq<u8>) -> Seq<char>;

/// Relies on String::from_utf8_lossy: decodes bytes to text, replacing
/// invalid sequences; the result depends on the bytes alone.
#[verifier::external_body]
fn lossy_string(bytes: &[u8]) -> (r: String)
    ensures
        r@ == lossy_utf8(bytes@),
{
    String::from_utf8_lossy(bytes).into_owned()
}

/// Why a list could not be read as a name-to-value map.
pub enum SpecMapFail {
    /// An entry was a bare atom, not a pair.
    EntryAtom,
    /// An entry was a list that is not `(name value)`; carries its length.
    EntryList(nat),
    /// Two entries shared this name.
    Duplicate(Seq<u8>),
}

/// Reads a sequence of `(name value)` pairs into a map, in order, failing
/// on the first malformed entry or repeated name.
pub open spec fn spec_extract_map_acc(l: Seq<SpecSexp>, acc: Seq<(Seq<u8>, SpecSexp)>) -> Result<
    Seq<(Seq<u8>, SpecSexp)>,
    SpecMapFail,
>
    decreases l,
{
    if l.len() == 0 {
        Ok(acc)
    } else {
        match l[0] {
            SpecSexp::Atom(_) => Err(SpecMapFail::EntryAtom),
            SpecSexp::List(entry) => {
                if entry.len() == 2 && entry[0] is Atom {
                    let k = entry[0]->Atom_0;
                    if exists|j: int| 0 <= j < acc.len() && (#[trigger] acc[j]).0 == k {
                        Err(SpecMapFail::Duplicate(k))
                    } else {
                        spec_extract_map_acc(l.drop_first(), acc.push((k, entry[1])))
                    }
                } else {
                    Err(SpecMapFail::EntryList(entry.len()))
                }
            },
        }
    }
}

/// The map read off a sequence of entries, or why it cannot be.
pub open spec fn spec_extract_map(l: Seq<SpecSexp>) -> Result<
    Seq<(Seq<u8>, SpecSexp)>,
    SpecMapFail,
> {
    spec_extract_map_acc(l, Seq::empty())
}

/// The models of a sequence of borrowed key-value pairs.
pub open spec fn pairs_view(v: Seq<(&Vec<u8>, &Sexp)>) -> Seq<(Seq<u8>, SpecSexp)> {
    Seq::new(v.len(), |i: int| (v[i].0@, v[i].1@))
}

/// Which error value reports which map failure.
pub open spec fn map_err_matches(e: IntoSexpError, f: SpecMapFail, type_: &'static str) -> bool {
    match f {
        SpecMapFail::EntryAtom => e == (IntoSexpError::ExpectedPairForMapGotAtom { type_ }),
        SpecMapFail::EntryList(n) => e == (IntoSexpError::ExpectedPairForMapGotList {
            type_,
            list_len: n as usize,
        }),
        SpecMapFail::Duplicate(k) => {
            &&& e matches IntoSexpError::DuplicateKeyInMap { type_: t2, key }
            &&& t2 == type_
            &&& key matches Some(s)
            &&& s@ == lossy_utf8(k)
        },
    }
}

/// Whether two byte slices hold the same bytes.
fn bytes_equal(a: &[u8], b: &[u8]) -> (r: bool)
    ensures
        r == (a@ == b@),
{
    if a.len() != b.len() {
        proof {
            assert(a@ != b@);
        }
        return false;
    }
    let n = a.len();
    let mut i: usize = 0;
    while i < n
        invariant
            n == a@.len(),
            n == b@.len(),
            i <= n,
            forall|j: int| 0 <= j < i ==> a@[j] == b@[j],
        decreases n - i,
    {
        if a[i] != b[i] {
            proof {
                assert(a@[i as int] != b@[i as int]);
            }
            return false;
        }
        i = i + 1;
    }
    proof {
        assert(a@ =~= b@);
    }
    true
}

impl Sexp {
    /// Reads this tree as an atom, or reports that it is a list of the
    /// given length.
    pub fn extract_atom<'a>(&'a self, type_: &'static str) -> (r: Result<&'a [u8], IntoSexpError>)
        ensures
            self@ matches SpecSexp::Atom(a) ==> (r matches Ok(bytes) && bytes@ == a),
            self@ matches SpecSexp::List(l) ==> r == Err::<&'a [u8], IntoSexpError>(
                IntoSexpError::ExpectedAtomGotList { type_, list_len: l.len() as usize },
            ),
    {
        match self {
            Sexp::Atom(bytes) => Ok(bytes.as_slice()),
            Sexp::List(elems) => {
                proof {
                    lemma_view_elems(elems@);
                }
                Err(IntoSexpError::ExpectedAtomGotList { type_, list_len: elems.len() })
            },
        }
    }

    /// Reads the constructor name and argument trees of an enum value: a
    /// bare atom is a unit constructor with no arguments; a nonempty list
    /// headed by an atom is a constructor name with the remaining elements
    /// as arguments.
    pub fn extract_enum<'a>(&'a self, type_: &'static str) -> (r: Result<
        (&'a [u8], &'a [Sexp]),
        IntoSexpError,
    >)
        ensures
            self@ matches SpecSexp::Atom(a) ==> (r matches Ok(p) && p.0@ == a && p.1@.len()
                == 0),
            self@ matches SpecSexp::List(l) ==> l.len() == 0 ==> r == Err::<
                (&'a [u8], &'a [Sexp]),
                IntoSexpError,
            >(IntoSexpError::ExpectedConstructorGotEmptyList { type_ }),
            self@ matches SpecSexp::List(l) ==> (l.len() > 0 ==> (l[0] matches SpecSexp::Atom(c)
                ==> (r matches Ok(p) && p.0@ == c && view_elems(p.1@) == l.drop_first()))),
            self@ matches SpecSexp::List(l) ==> l.len() > 0 ==> l[0] is List ==> r == Err::<
                (&'a [u8], &'a [Sexp]),
                IntoSexpError,
            >(IntoSexpError::ExpectedConstructorGotListInList { type_ }),
    {
        match self {
            Sexp::Atom(bytes) => {
                let args: &[Sexp] = &[];
                Ok((bytes.as_slice(), args))
            },
            Sexp::List(elems) => {
                proof {
                    lemma_view_elems(elems@);
                }
                if elems.len() == 0 {
                    Err(IntoSexpError::ExpectedConstructorGotEmptyList { type_ })
                } else {
                    let head = vstd::slice::slice_index_get(elems.as_slice(), 0);
                    match head {
                        Sexp::Atom(bytes) => {
                            let args = vstd::slice::slice_subrange(
                                elems.as_slice(),
                                1,
                                elems.len(),
                            );
                            proof {
                                lemma_view_elems(args@);
                                lemma_view_elems(elems@);
                                assert(view_elems(args@) =~= view_elems(elems@).drop_first());
                            }
                            Ok((bytes.as_slice(), args))
                        },
                        Sexp::List(_) => Err(
                            IntoSexpError::ExpectedConstructorGotListInList { type_ },
                        ),
                    }
                }
            },
        }
    }

    /// Builds a name-to-value map from a list of `(name value)` pairs, in
    /// order, failing on a malformed entry or a duplicate name.
    #[verifier::loop_isolation(false)]
    pub fn extract_map<'a>(list: &'a [Sexp], type_: &'static str) -> (r: Result<
        Vec<(&'a Vec<u8>, &'a Sexp)>,
        IntoSexpError,
    >)
        ensures
            r matches Ok(v) ==> spec_extract_map(view_elems(list@)) == Ok::<
                Seq<(Seq<u8>, SpecSexp)>,
                SpecMapFail,
            >(pairs_view(v@)),
            r matches Err(e) ==> (spec_extract_map(view_elems(list@)) matches Err(f)
                && map_err_matches(e, f, type_)),
    {
        proof {
            lemma_view_elems(list@);
        }
        let ghost lv = view_elems(list@);
        let mut out: Vec<(&'a Vec<u8>, &'a Sexp)> = Vec::new();
        let n = list.len();
        let mut i: usize = 0;
        proof {
            assert(lv.skip(0) =~= lv);
            assert(pairs_view(out@) =~= Seq::<(Seq<u8>, SpecSexp)>::empty());
        }
        while i < n
            invariant
                i <= n,
                spec_extract_map(lv) == spec_extract_map_acc(lv.skip(i as int), pairs_view(out@)),
            decreases n - i,
        {
            let ghost acc = pairs_view(out@);
            let elem = vstd::slice::slice_index_get(list, i);
            proof {
                assert(lv.skip(i as int)[0] == lv[i as int]);
                assert(lv[i as int] == elem@);
                assert(lv.skip(i as int).drop_first() =~= lv.skip(i + 1 as int));
            }
            match elem {
                Sexp::Atom(_) => {
                    return Err(IntoSexpError::ExpectedPairForMapGotAtom { type_ });
                },
                Sexp::List(entry) => {
                    proof {
                        lemma_view_elems(entry@);
                    }
                    if entry.len() == 2 {
                        let head = vstd::slice::slice_index_get(entry.as_slice(), 0);
                        match head {
                            Sexp::Atom(key) => {
                                let value = vstd::slice::slice_index_get(entry.as_slice(), 1);
                                let m = out.len();
                                let mut j: usize = 0;
                                while j < m
                                    invariant
                                        j <= m,
                                        forall|q: int|
                                            0 <= q < j ==> (#[trigger] out@[q]).0@ != key@,
                                    decreases m - j,
                                {
                                    if bytes_equal(out[j].0.as_slice(), key.as_slice()) {
                                        proof {
                                            assert((#[trigger] acc[j as int]).0 == key@);
                                            assert(spec_extract_map_acc(lv.skip(i as int), acc)
                                                == Err::<Seq<(Seq<u8>, SpecSexp)>, SpecMapFail>(
                                                SpecMapFail::Duplicate(key@),
                                            ));
                                        }
                                        return Err(
                                            IntoSexpError::DuplicateKeyInMap {
                                                type_,
                                                key: Some(lossy_string(key.as_slice())),
                                            },
                                        );
                                    }
                                    j = j + 1;
                                }
                                proof {
                                    assert(forall|q: int|
                                        0 <= q < acc.len() ==> (#[trigger] acc[q]).0 != key@);
                                    assert(pairs_view(out@.push((key, value))) =~= acc.push(
                                        (key@, value@),
                                    ));
                                }
                                out.push((key, value));
                            },
                            Sexp::List(_) => {
                                return Err(
                                    IntoSexpError::ExpectedPairForMapGotList {
                                        type_,
                                        list_len: 2,
                                    },
                                );
                            },
                        }
                    } else {
                        return Err(
                            IntoSexpError::ExpectedPairForMapGotList {
                                type_,
                                list_len: entry.len(),
                            },
                        );
                    }
                },
            }
            i = i + 1;
        }
        proof {
            assert(lv.skip(n as int) =~= Seq::<SpecSexp>::empty());
        }
        Ok(out)
    }

    /// Reads this tree as a list, or reports that it is an atom.
    pub fn extract_list<'a>(&'a self, type_: &'static str) -> (r: Result<
        &'a [Sexp],
        IntoSexpError,
    >)
        ensures
            self@ matches SpecSexp::List(l) ==> (r matches Ok(elems) && view_elems(elems@) == l),
            self@ matches SpecSexp::Atom(_) ==> r == Err::<&'a [Sexp], IntoSexpError>(
                IntoSexpError::ExpectedListGotAtom { type_ },
            ),
    {
        match self {
            Sexp::List(elems) => Ok(elems.as_slice()),
            Sexp::Atom(_) => Err(IntoSexpError::ExpectedListGotAtom { type_ }),
        }
    }
}

/// Conversion from a tree to a typed value; the conversion layer
/// implements this for its own types.
pub trait OfSexp {
    fn of_sexp(s: &Sexp) -> Result<Self, IntoSexpError> where Self: Sized;
}

impl Sexp {
    /// Converts this tree to any type with an `OfSexp` implementation.
    pub fn of_sexp<T: OfSexp>(&self) -> Result<T, IntoSexpError> {
        OfSexp::of_sexp(self)
    }
}

} // verus!
