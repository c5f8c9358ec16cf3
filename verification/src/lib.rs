//! A canonical, byte-transparent S-expression text format.
//!
//! Atoms are opaque byte strings and lists are parenthesized ordered
//! sequences.  The crate provides a parser for the quoting/escaping grammar,
//! three serializers (plain, machine-minimal, and width-wrapped human
//! output), structural accessors for a typed conversion layer, and proofs
//! that parsing inverts every serializer.

pub mod escape;
pub mod hum;
pub mod of_sexp;
pub mod parse;
pub mod props;
pub mod sexp;
pub mod sexp_of;
pub mod write;

pub use of_sexp::IntoSexpError;
pub use of_sexp::OfSexp;
pub use parse::Error;
pub use parse::from_slice;
pub use parse::from_slice_allow_remaining;
pub use parse::from_slice_multi;
pub use sexp_of::SexpOf;
pub use sexp::BytesSlice;
pub use sexp::Sexp;
pub use sexp::SpecSexp;
pub use sexp::UseToString;
pub use sexp::atom;
pub use sexp::list;
