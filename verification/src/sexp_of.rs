//! Conversion from typed values to trees.

use vstd::prelude::*;
use vstd::utf8::encode_utf8;

use crate::sexp::BytesSlice;
use crate::sexp::Sexp;
use crate::sexp::SpecSexp;
use crate::sexp::atom;

verus! {

/// Conversion from a typed value to a tree; the conversion layer
/// implements this for its own types.
pub trait SexpOf {
    fn sexp_of(&self) -> Sexp;
}

impl<'a> SexpOf for BytesSlice<'a> {
    /// A borrowed byte string becomes an atom holding those bytes.
    fn sexp_of(&self) -> (s: Sexp)
        ensures
            s@ == SpecSexp::Atom(self.0@),
    {
        atom(self.0)
    }
}

impl<'a> SexpOf for &'a str {
    /// Borrowed text becomes an atom holding its UTF-8 bytes.
    fn sexp_of(&self) -> (s: Sexp)
        ensures
            s@ == SpecSexp::Atom(encode_utf8(self@)),
    {
        atom(self.as_bytes())
    }
}

impl SexpOf for String {
    /// Text becomes an atom holding its UTF-8 bytes.
    fn sexp_of(&self) -> (s: Sexp)
        ensures
            s@ == SpecSexp::Atom(encode_utf8(self@)),
    {
        atom(self.as_str().as_bytes())
    }
}

} // verus!
