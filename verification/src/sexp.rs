//! The S-expression tree: owned values and their mathematical model.

use vstd::prelude::*;
use vstd::slice::slice_to_vec;

verus! {

/// Mathematical model of an S-expression tree: an atom is an arbitrary byte
/// sequence, a list is an ordered sequence of trees.  Equality of models is
/// deep, order-sensitive, and byte-exact on atoms.
pub enum SpecSexp {
    Atom(Seq<u8>),
    List(Seq<SpecSexp>),
}

/// Type for S-expressions using owned values.
#[derive(Debug, PartialEq, Eq, Hash)]
pub enum Sexp {
    Atom(Vec<u8>),
    List(Vec<Sexp>),
}

impl View for Sexp {
    type V = SpecSexp;

    open spec fn view(&self) -> SpecSexp
        decreases self,
    {
        match self {
            Sexp::Atom(bytes) => SpecSexp::Atom(bytes@),
            Sexp::List(elems) => SpecSexp::List(view_elems(elems@)),
        }
    }
}

/// The models of a sequence of trees, in order.
pub open spec fn view_elems(elems: Seq<Sexp>) -> Seq<SpecSexp>
    decreases elems,
{
    if elems.len() == 0 {
        Seq::empty()
    } else {
        seq![elems[0]@] + view_elems(elems.drop_first())
    }
}

/// `view_elems` is the element-wise model: it keeps the length and models
/// each element in place.
pub proof fn lemma_view_elems(elems: Seq<Sexp>)
    ensures
        view_elems(elems).len() == elems.len(),
        forall|i: int| 0 <= i < elems.len() ==> view_elems(elems)[i] == elems[i]@,
    decreases elems,
{
    if elems.len() != 0 {
        lemma_view_elems(elems.drop_first());
        assert(view_elems(elems) == seq![elems[0]@] + view_elems(elems.drop_first()));
        assert forall|i: int| 0 <= i < elems.len() implies view_elems(elems)[i]
            == elems[i]@ by {
            if i > 0 {
                assert(view_elems(elems)[i] == view_elems(elems.drop_first())[i - 1]);
                assert(elems.drop_first()[i - 1] == elems[i]);
            }
        }
    }
}

/// Appending one tree appends its model.
pub proof fn lemma_view_elems_snoc(l: Seq<Sexp>, x: Sexp)
    ensures
        view_elems(l.push(x)) == view_elems(l) + seq![x@],
{
    lemma_view_elems(l);
    lemma_view_elems(l.push(x));
    assert(view_elems(l.push(x)) =~= view_elems(l) + seq![x@]);
}

impl Clone for Sexp {
    /// A clone has the same model: deep copies keep every byte and the order
    /// of every list.
    #[verifier::loop_isolation(false)]
    fn clone(&self) -> (res: Sexp)
        ensures
            res@ == self@,
        decreases self,
    {
        match self {
            Sexp::Atom(bytes) => Sexp::Atom(slice_to_vec(bytes.as_slice())),
            Sexp::List(elems) => {
                let mut out: Vec<Sexp> = Vec::new();
                let n = elems.len();
                let mut i: usize = 0;
                while i < n
                    invariant
                        n == elems@.len(),
                        i <= n,
                        out@.len() == i as int,
                        forall|j: int| 0 <= j < i ==> out@[j]@ == elems@[j]@,
                    decreases n - i,
                {
                    let elem = &elems[i];
                    proof {
                        assert(decreases_to!(*self => self->List_0));
                        assert(decreases_to!(self->List_0 => self->List_0[i as int]));
                        assert(decreases_to!(*self => elems@[i as int]));
                    }
                    out.push(elem.clone());
                    i = i + 1;
                }
                let res = Sexp::List(out);
                proof {
                    lemma_view_elems(elems@);
                    lemma_view_elems(out@);
                    assert(view_elems(out@) =~= view_elems(elems@));
                }
                res
            },
        }
    }
}

/// Builds an atom node holding a copy of the given bytes.
pub fn atom(bytes: &[u8]) -> (s: Sexp)
    ensures
        s@ == SpecSexp::Atom(bytes@),
{
    Sexp::Atom(slice_to_vec(bytes))
}

/// Builds a list node holding a deep copy of the given elements.
pub fn list(elems: &[Sexp]) -> (s: Sexp)
    ensures
        s@ matches SpecSexp::List(l) && l.len() == elems@.len() && (forall|i: int|
            0 <= i < elems@.len() ==> l[i] == elems@[i]@),
{
    let mut out: Vec<Sexp> = Vec::new();
    let n = elems.len();
    let mut i: usize = 0;
    while i < n
        invariant
            n == elems@.len(),
            i <= n,
            out@.len() == i as int,
            forall|j: int| 0 <= j < i ==> out@[j]@ == elems@[j]@,
        decreases n - i,
    {
        let elem = vstd::slice::slice_index_get(elems, i);
        out.push(elem.clone());
        i = i + 1;
    }
    proof {
        lemma_view_elems(out@);
    }
    Sexp::List(out)
}

/// Marker for types whose conversion layer goes through their decimal or
/// textual rendering.
pub trait UseToString {}

impl UseToString for u64 {}

impl UseToString for u32 {}

impl UseToString for u16 {}

impl UseToString for u8 {}

impl UseToString for i64 {}

impl UseToString for i32 {}

impl UseToString for i16 {}

impl UseToString for i8 {}

impl UseToString for usize {}

impl UseToString for bool {}

/// A borrowed byte string, so callers can hand a slice to the conversion
/// layer without copying it first.
pub struct BytesSlice<'a>(pub &'a [u8]);

} // verus!
