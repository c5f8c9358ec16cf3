//! The plain and machine serializers, and the buffer-returning entry points.
//!
//! Plain form separates every pair of adjacent list elements with one space.
//! Machine form emits a space only where two adjacent unquoted atoms would
//! otherwise glue into one token.

use vstd::prelude::*;

use crate::escape::LPAREN;
use crate::escape::RPAREN;
use crate::escape::SPACE;
use crate::escape::atom_rendering;
use crate::escape::lemma_escape_bytes_snoc;
use crate::escape::must_escape;
use crate::escape::quoted_rendering;
use crate::escape::spec_must_escape;
use crate::escape::write_escaped;
use crate::sexp::Sexp;
use crate::sexp::SpecSexp;
use crate::sexp::lemma_view_elems;
use crate::sexp::view_elems;

verus! {

/// The plain rendering of a tree: an atom as the escape policy writes it, a
/// list as `(` + space-separated children + `)`.
pub open spec fn spec_write(s: SpecSexp) -> Seq<u8>
    decreases s,
{
    match s {
        SpecSexp::Atom(a) => atom_rendering(a),
        SpecSexp::List(l) => seq![LPAREN] + spec_write_elems(l, true) + seq![RPAREN],
    }
}

/// Plain rendering of a sequence of trees: one space before every element
/// except a first one.
pub open spec fn spec_write_elems(l: Seq<SpecSexp>, first: bool) -> Seq<u8>
    decreases l,
{
    if l.len() == 0 {
        Seq::empty()
    } else {
        (if first {
            Seq::<u8>::empty()
        } else {
            seq![SPACE]
        }) + spec_write(l[0]) + spec_write_elems(l.drop_first(), false)
    }
}

/// Appending one more element appends its separator (unless it is the very
/// first element) and its plain rendering.
pub proof fn lemma_write_elems_snoc(l: Seq<SpecSexp>, x: SpecSexp, first: bool)
    ensures
        spec_write_elems(l.push(x), first) == spec_write_elems(l, first) + (if l.len() == 0
            && first {
            Seq::<u8>::empty()
        } else {
            seq![SPACE]
        }) + spec_write(x),
    decreases l,
{
    let t = l.push(x);
    assert(spec_write_elems(t, first) == (if first {
        Seq::<u8>::empty()
    } else {
        seq![SPACE]
    }) + spec_write(t[0]) + spec_write_elems(t.drop_first(), false));
    if l.len() == 0 {
        assert(t.drop_first() =~= l);
        assert(t[0] == x);
        assert(spec_write_elems(l, first) == Seq::<u8>::empty());
        assert(spec_write_elems(t, first) =~= spec_write_elems(l, first) + (if l.len() == 0
            && first {
            Seq::<u8>::empty()
        } else {
            seq![SPACE]
        }) + spec_write(x));
    } else {
        assert(t.drop_first() =~= l.drop_first().push(x));
        lemma_write_elems_snoc(l.drop_first(), x, false);
        assert(t[0] == l[0]);
        assert(spec_write_elems(t, first) =~= spec_write_elems(l, first) + seq![SPACE]
            + spec_write(x));
    }
}

/// Appends `data` to `out`.
pub fn append_bytes(out: &mut Vec<u8>, data: &[u8])
    ensures
        final(out)@ == old(out)@ + data@,
{
    out.extend_from_slice(data);
    proof {
        assert(out@ =~= old(out)@ + data@);
    }
}

impl Sexp {
    /// Serializes this tree into the sink, in plain form.
    #[verifier::loop_isolation(false)]
    pub fn write(&self, out: &mut Vec<u8>)
        ensures
            final(out)@ == old(out)@ + spec_write(self@),
        decreases *self,
    {
        match self {
            Sexp::Atom(v) => {
                if must_escape(v.as_slice()) {
                    write_escaped(v.as_slice(), out);
                } else {
                    append_bytes(out, v.as_slice());
                }
            },
            Sexp::List(elems) => {
                proof {
                    lemma_view_elems(elems@);
                }
                let ghost l = view_elems(elems@);
                out.push(LPAREN);
                let n = elems.len();
                let mut i: usize = 0;
                while i < n
                    invariant
                        i <= n,
                        out@ == old(out)@ + seq![LPAREN] + spec_write_elems(
                            l.take(i as int),
                            true,
                        ),
                    decreases n - i,
                {
                    if i > 0 {
                        out.push(SPACE);
                    }
                    let elem = &elems[i];
                    proof {
                        assert(decreases_to!(*self => self->List_0));
                        assert(decreases_to!(self->List_0 => self->List_0[i as int]));
                        assert(decreases_to!(*self => elems@[i as int]));
                    }
                    elem.write(out);
                    proof {
                        assert(l.take(i + 1 as int) =~= l.take(i as int).push(l[i as int]));
                        lemma_write_elems_snoc(l.take(i as int), l[i as int], true);
                        assert(out@ =~= old(out)@ + seq![LPAREN] + spec_write_elems(
                            l.take(i + 1 as int),
                            true,
                        ));
                    }
                    i = i + 1;
                }
                out.push(RPAREN);
                proof {
                    assert(l.take(n as int) =~= l);
                    assert(out@ =~= old(out)@ + spec_write(self@));
                }
            },
        }
    }

    /// Serializes several trees into the sink, separated by single spaces.
    #[verifier::loop_isolation(false)]
    pub fn write_multi(sexps: &[Self], out: &mut Vec<u8>)
        ensures
            final(out)@ == old(out)@ + spec_write_elems(view_elems(sexps@), true),
    {
        proof {
            lemma_view_elems(sexps@);
        }
        let ghost l = view_elems(sexps@);
        let n = sexps.len();
        let mut i: usize = 0;
        while i < n
            invariant
                i <= n,
                out@ == old(out)@ + spec_write_elems(l.take(i as int), true),
            decreases n - i,
        {
            if i > 0 {
                out.push(SPACE);
            }
            let elem = vstd::slice::slice_index_get(sexps, i);
            elem.write(out);
            proof {
                assert(l.take(i + 1 as int) =~= l.take(i as int).push(l[i as int]));
                lemma_write_elems_snoc(l.take(i as int), l[i as int], true);
                assert(out@ =~= old(out)@ + spec_write_elems(l.take(i + 1 as int), true));
            }
            i = i + 1;
        }
        proof {
            assert(l.take(n as int) =~= l);
        }
    }

    /// Serializes this tree to a fresh buffer, in plain form.
    pub fn to_bytes(&self) -> (buffer: Vec<u8>)
        ensures
            buffer@ == spec_write(self@),
    {
        let mut buffer: Vec<u8> = Vec::new();
        self.write(&mut buffer);
        buffer
    }

    /// Serializes several trees to a fresh buffer, separated by single
    /// spaces.
    pub fn to_bytes_multi(sexps: &[Self]) -> (buffer: Vec<u8>)
        ensures
            buffer@ == spec_write_elems(view_elems(sexps@), true),
    {
        let mut buffer: Vec<u8> = Vec::new();
        Self::write_multi(sexps, &mut buffer);
        buffer
    }
}

/// A tree that the machine writer renders as a bare byte run: an atom the
/// escape policy leaves unquoted.  Only such tokens can glue together.
pub open spec fn is_unquoted_atom(t: SpecSexp) -> bool {
    t matches SpecSexp::Atom(data) && !spec_must_escape(data)
}

/// The machine rendering of a tree, given whether the previously emitted
/// token was an unquoted atom; returns the bytes and the updated state.
pub open spec fn spec_write_mach(s: SpecSexp, need_ws: bool) -> (Seq<u8>, bool)
    decreases s,
{
    match s {
        SpecSexp::Atom(a) => if spec_must_escape(a) {
            (quoted_rendering(a), false)
        } else {
            (
                (if need_ws {
                    seq![SPACE]
                } else {
                    Seq::<u8>::empty()
                }) + a,
                true,
            )
        },
        SpecSexp::List(l) => (
            seq![LPAREN] + spec_write_mach_elems(l, false).0 + seq![RPAREN],
            false,
        ),
    }
}

/// Machine rendering of a sequence of trees, threading the glue-risk state
/// from each element to the next.
pub open spec fn spec_write_mach_elems(l: Seq<SpecSexp>, need_ws: bool) -> (Seq<u8>, bool)
    decreases l,
{
    if l.len() == 0 {
        (Seq::<u8>::empty(), need_ws)
    } else {
        (
            spec_write_mach(l[0], need_ws).0 + spec_write_mach_elems(
                l.drop_first(),
                spec_write_mach(l[0], need_ws).1,
            ).0,
            spec_write_mach_elems(l.drop_first(), spec_write_mach(l[0], need_ws).1).1,
        )
    }
}

/// Appending one more element appends its machine rendering under the state
/// the earlier elements left behind.
pub proof fn lemma_write_mach_elems_snoc(l: Seq<SpecSexp>, x: SpecSexp, need_ws: bool)
    ensures
        spec_write_mach_elems(l.push(x), need_ws).0 == spec_write_mach_elems(l, need_ws).0
            + spec_write_mach(x, spec_write_mach_elems(l, need_ws).1).0,
        spec_write_mach_elems(l.push(x), need_ws).1 == spec_write_mach(
            x,
            spec_write_mach_elems(l, need_ws).1,
        ).1,
    decreases l,
{
    let t = l.push(x);
    assert(t.len() == l.len() + 1);
    assert(spec_write_mach_elems(t, need_ws).0 == spec_write_mach(t[0], need_ws).0
        + spec_write_mach_elems(t.drop_first(), spec_write_mach(t[0], need_ws).1).0);
    assert(spec_write_mach_elems(t, need_ws).1 == spec_write_mach_elems(
        t.drop_first(),
        spec_write_mach(t[0], need_ws).1,
    ).1);
    if l.len() == 0 {
        assert(t.drop_first() =~= l);
        assert(t[0] == x);
        let st = spec_write_mach(x, need_ws).1;
        assert(spec_write_mach_elems(l, st).0 == Seq::<u8>::empty());
        assert(spec_write_mach_elems(l, st).1 == st);
        assert(spec_write_mach_elems(l, need_ws).0 == Seq::<u8>::empty());
        assert(spec_write_mach_elems(l, need_ws).1 == need_ws);
        assert(spec_write_mach_elems(t, need_ws).0 =~= spec_write_mach_elems(l, need_ws).0
            + spec_write_mach(x, spec_write_mach_elems(l, need_ws).1).0);
    } else {
        assert(t.drop_first() =~= l.drop_first().push(x));
        lemma_write_mach_elems_snoc(l.drop_first(), x, spec_write_mach(l[0], need_ws).1);
        assert(t[0] == l[0]);
        assert(spec_write_mach_elems(t, need_ws).0 =~= spec_write_mach_elems(l, need_ws).0
            + spec_write_mach(x, spec_write_mach_elems(l, need_ws).1).0);
    }
}

impl Sexp {
    /// Serializes this tree in machine form, given and returning the
    /// glue-risk state.
    #[verifier::loop_isolation(false)]
    fn write_mach_state(&self, need_ws: bool, out: &mut Vec<u8>) -> (r: bool)
        ensures
            final(out)@ == old(out)@ + spec_write_mach(self@, need_ws).0,
            r == spec_write_mach(self@, need_ws).1,
        decreases *self,
    {
        match self {
            Sexp::Atom(v) => {
                if must_escape(v.as_slice()) {
                    write_escaped(v.as_slice(), out);
                    false
                } else {
                    if need_ws {
                        out.push(SPACE);
                    }
                    append_bytes(out, v.as_slice());
                    true
                }
            },
            Sexp::List(elems) => {
                proof {
                    lemma_view_elems(elems@);
                }
                let ghost l = view_elems(elems@);
                out.push(LPAREN);
                let n = elems.len();
                let mut i: usize = 0;
                let mut need = false;
                while i < n
                    invariant
                        i <= n,
                        out@ == old(out)@ + seq![LPAREN] + spec_write_mach_elems(
                            l.take(i as int),
                            false,
                        ).0,
                        need == spec_write_mach_elems(l.take(i as int), false).1,
                    decreases n - i,
                {
                    let elem = &elems[i];
                    proof {
                        assert(decreases_to!(*self => self->List_0));
                        assert(decreases_to!(self->List_0 => self->List_0[i as int]));
                        assert(decreases_to!(*self => elems@[i as int]));
                    }
                    need = elem.write_mach_state(need, out);
                    proof {
                        assert(l.take(i + 1 as int) =~= l.take(i as int).push(l[i as int]));
                        lemma_write_mach_elems_snoc(l.take(i as int), l[i as int], false);
                        assert(out@ =~= old(out)@ + seq![LPAREN] + spec_write_mach_elems(
                            l.take(i + 1 as int),
                            false,
                        ).0);
                    }
                    i = i + 1;
                }
                out.push(RPAREN);
                proof {
                    assert(l.take(n as int) =~= l);
                    assert(out@ =~= old(out)@ + spec_write_mach(self@, need_ws).0);
                }
                false
            },
        }
    }

    /// Serializes this tree into the sink, machine form: whitespace appears
    /// only between two adjacent unquoted atoms.
    pub fn write_mach(&self, out: &mut Vec<u8>)
        ensures
            final(out)@ == old(out)@ + spec_write_mach(self@, false).0,
    {
        let _ = self.write_mach_state(false, out);
    }

    /// Serializes this tree to a fresh buffer, machine form.
    pub fn to_bytes_mach(&self) -> (buffer: Vec<u8>)
        ensures
            buffer@ == spec_write_mach(self@, false).0,
    {
        let mut buffer: Vec<u8> = Vec::new();
        self.write_mach(&mut buffer);
        buffer
    }
}

} // verus!
