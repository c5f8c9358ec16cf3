//! The human serializer: a two-pass greedy line-wrapping pretty-printer.
//!
//! Pass one pre-renders every atom and caches every subtree's size; pass
//! two walks top-down carrying the current column, breaking the line before
//! a child that would overflow the width budget and indenting one space per
//! nesting level.  Column and size arithmetic saturates at the machine
//! limit, which no reachable input approaches.

use vstd::prelude::*;
use vstd::slice::slice_to_vec;

use crate::escape::LF;
use crate::escape::LPAREN;
use crate::escape::RPAREN;
use crate::escape::SPACE;
use crate::escape::atom_rendering;
use crate::escape::must_escape;
use crate::escape::quoted_rendering;
use crate::escape::write_escaped;
use crate::sexp::Sexp;
use crate::sexp::SpecSexp;
use crate::sexp::lemma_view_elems;
use crate::sexp::view_elems;
use crate::write::append_bytes;

verus! {

/// The default line-width budget of the human writer.
pub const MAX_LINE_WIDTH: usize = 90;

/// Addition that stops at the machine limit, as the writer's size and
/// column bookkeeping does.
pub open spec fn sat_add(a: nat, b: nat) -> nat {
    if a + b > usize::MAX {
        usize::MAX as nat
    } else {
        a + b
    }
}

/// The cached size of a subtree: an atom's rendered length; for a list,
/// two parentheses plus one unit per child plus the children's sizes.
pub open spec fn spec_esize(t: SpecSexp) -> nat
    decreases t,
{
    match t {
        SpecSexp::Atom(a) => atom_rendering(a).len(),
        SpecSexp::List(l) => spec_esize_fold(l, sat_add(2, l.len())),
    }
}

/// Folds the children's sizes into the accumulator, left to right.
pub open spec fn spec_esize_fold(l: Seq<SpecSexp>, acc: nat) -> nat
    decreases l,
{
    if l.len() == 0 {
        acc
    } else {
        spec_esize_fold(l.drop_first(), sat_add(acc, spec_esize(l[0])))
    }
}

/// One space of indentation per nesting level.
pub open spec fn indent_spaces(n: nat) -> Seq<u8> {
    Seq::new(n, |i: int| SPACE)
}

/// The human rendering of one subtree and the column after it.  A first
/// child follows its parent directly; any other subtree is preceded by a
/// line break and indentation when it would overflow the budget, and by a
/// single space otherwise.
pub open spec fn spec_hum_write(t: SpecSexp, first: bool, indent: nat, col: nat, width: nat) -> (
    Seq<u8>,
    nat,
)
    decreases t,
{
    let size = spec_esize(t);
    let brk = !first && sat_add(size, col) > width;
    let pre: Seq<u8> = if brk {
        seq![LF] + indent_spaces(indent)
    } else if !first {
        seq![SPACE]
    } else {
        Seq::empty()
    };
    let col1: nat = if brk {
        indent
    } else if !first {
        sat_add(col, 1)
    } else {
        col
    };
    match t {
        SpecSexp::Atom(a) => (pre + atom_rendering(a), sat_add(col1, atom_rendering(a).len())),
        SpecSexp::List(l) => {
            let body = spec_hum_children(l, true, sat_add(indent, 1), sat_add(col1, 1), width);
            (pre + seq![LPAREN] + body.0 + seq![RPAREN], sat_add(body.1, 1))
        },
    }
}

/// The human rendering of a sequence of children, threading the column.
pub open spec fn spec_hum_children(
    l: Seq<SpecSexp>,
    first: bool,
    indent: nat,
    col: nat,
    width: nat,
) -> (Seq<u8>, nat)
    decreases l,
{
    if l.len() == 0 {
        (Seq::empty(), col)
    } else {
        let head = spec_hum_write(l[0], first, indent, col, width);
        let rest = spec_hum_children(l.drop_first(), false, indent, head.1, width);
        (head.0 + rest.0, rest.1)
    }
}

/// The whole human rendering of a tree under a width budget.
pub open spec fn spec_hum(t: SpecSexp, width: nat) -> Seq<u8> {
    spec_hum_write(t, true, 0, 0, width).0
}

/// Appending one more child appends its rendering under the column the
/// earlier children left behind.
pub proof fn lemma_hum_children_snoc(
    l: Seq<SpecSexp>,
    x: SpecSexp,
    first: bool,
    indent: nat,
    col: nat,
    width: nat,
)
    ensures
        spec_hum_children(l.push(x), first, indent, col, width).0 == spec_hum_children(
            l,
            first,
            indent,
            col,
            width,
        ).0 + spec_hum_write(
            x,
            first && l.len() == 0,
            indent,
            spec_hum_children(l, first, indent, col, width).1,
            width,
        ).0,
        spec_hum_children(l.push(x), first, indent, col, width).1 == spec_hum_write(
            x,
            first && l.len() == 0,
            indent,
            spec_hum_children(l, first, indent, col, width).1,
            width,
        ).1,
    decreases l,
{
    let t = l.push(x);
    if l.len() == 0 {
        assert(t.drop_first() =~= l);
        assert(t[0] == x);
        let head = spec_hum_write(x, first, indent, col, width);
        assert(spec_hum_children(t, first, indent, col, width) == (
            head.0 + spec_hum_children(l, false, indent, head.1, width).0,
            spec_hum_children(l, false, indent, head.1, width).1,
        ));
        assert(spec_hum_children(l, false, indent, head.1, width) == (
            Seq::<u8>::empty(),
            head.1,
        ));
        assert(spec_hum_children(l, first, indent, col, width) == (Seq::<u8>::empty(), col));
        assert(head.0 + Seq::<u8>::empty() =~= head.0);
        assert(Seq::<u8>::empty() + head.0 =~= head.0);
    } else {
        assert(t.drop_first() =~= l.drop_first().push(x));
        assert(t[0] == l[0]);
        let head = spec_hum_write(l[0], first, indent, col, width);
        lemma_hum_children_snoc(l.drop_first(), x, false, indent, head.1, width);
        let tail = spec_hum_children(l.drop_first(), false, indent, head.1, width);
        assert(spec_hum_children(l, first, indent, col, width) == (head.0 + tail.0, tail.1));
        assert(spec_hum_children(t, first, indent, col, width).1 == spec_hum_write(
            x,
            first && l.len() == 0,
            indent,
            spec_hum_children(l, first, indent, col, width).1,
            width,
        ).1);
        assert(spec_hum_children(t, first, indent, col, width).0 =~= spec_hum_children(
            l,
            first,
            indent,
            col,
            width,
        ).0 + spec_hum_write(
            x,
            first && l.len() == 0,
            indent,
            spec_hum_children(l, first, indent, col, width).1,
            width,
        ).0);
    }
}

/// A pre-escaped tree with cached sizes, built by pass one.
enum ESexp {
    Atom(Vec<u8>),
    List(usize, Vec<ESexp>),
}

/// The size pass two reads off a node without recomputing anything.
spec fn cached_size(e: ESexp) -> nat {
    match e {
        ESexp::Atom(v) => v@.len(),
        ESexp::List(n, _) => n as nat,
    }
}

/// The pre-escaped tree `e` faithfully represents the tree `t`: atoms hold
/// their rendering and every cached size is the size of its subtree.
spec fn esexp_wf(e: ESexp, t: SpecSexp) -> bool
    decreases e,
{
    match e {
        ESexp::Atom(v) => t matches SpecSexp::Atom(a) && v@ == atom_rendering(a),
        ESexp::List(n, es) => t matches SpecSexp::List(l) && (n as nat) == spec_esize(t)
            && esexp_wf_elems(es@, l),
    }
}

spec fn esexp_wf_elems(es: Seq<ESexp>, l: Seq<SpecSexp>) -> bool
    decreases es,
{
    if es.len() == 0 {
        l.len() == 0
    } else {
        l.len() == es.len() && esexp_wf(es[0], l[0]) && esexp_wf_elems(
            es.drop_first(),
            l.drop_first(),
        )
    }
}

proof fn lemma_esexp_wf_elems_index(es: Seq<ESexp>, l: Seq<SpecSexp>)
    requires
        esexp_wf_elems(es, l),
    ensures
        l.len() == es.len(),
        forall|i: int| 0 <= i < es.len() ==> esexp_wf(#[trigger] es[i], l[i]),
    decreases es,
{
    if es.len() != 0 {
        lemma_esexp_wf_elems_index(es.drop_first(), l.drop_first());
        assert forall|i: int| 0 <= i < es.len() implies esexp_wf(#[trigger] es[i], l[i]) by {
            if i > 0 {
                assert(es.drop_first()[i - 1] == es[i]);
                assert(l.drop_first()[i - 1] == l[i]);
            }
        }
    }
}

proof fn lemma_esexp_wf_elems_snoc(es: Seq<ESexp>, l: Seq<SpecSexp>, e: ESexp, t: SpecSexp)
    requires
        esexp_wf_elems(es, l),
        esexp_wf(e, t),
    ensures
        esexp_wf_elems(es.push(e), l.push(t)),
    decreases es,
{
    if es.len() == 0 {
        assert(es.push(e).drop_first() =~= es);
        assert(l.push(t).drop_first() =~= l);
        assert(es.push(e)[0] == e);
        assert(l.push(t)[0] == t);
    } else {
        lemma_esexp_wf_elems_snoc(es.drop_first(), l.drop_first(), e, t);
        assert(es.push(e).drop_first() =~= es.drop_first().push(e));
        assert(l.push(t).drop_first() =~= l.drop_first().push(t));
        assert(es.push(e)[0] == es[0]);
        assert(l.push(t)[0] == l[0]);
    }
}

/// Reads a node's cached size.
fn esize(e: &ESexp) -> (r: usize)
    ensures
        r as nat == cached_size(*e),
{
    match e {
        ESexp::Atom(v) => v.len(),
        ESexp::List(n, _) => *n,
    }
}

/// Pass one: renders every atom and caches every subtree's size.
#[verifier::loop_isolation(false)]
fn escape_tree(s: &Sexp) -> (e: ESexp)
    ensures
        esexp_wf(e, s@),
        cached_size(e) == spec_esize(s@),
    decreases *s,
{
    match s {
        Sexp::Atom(a) => {
            if must_escape(a.as_slice()) {
                let mut v: Vec<u8> = Vec::new();
                write_escaped(a.as_slice(), &mut v);
                proof {
                    assert(v@ =~= quoted_rendering(a@));
                }
                ESexp::Atom(v)
            } else {
                ESexp::Atom(slice_to_vec(a.as_slice()))
            }
        },
        Sexp::List(elems) => {
            proof {
                lemma_view_elems(elems@);
            }
            let ghost l = view_elems(elems@);
            let n = elems.len();
            let base: usize = 2;
            let mut total: usize = base.saturating_add(n);
            let mut children: Vec<ESexp> = Vec::new();
            let mut i: usize = 0;
            proof {
                assert(l.skip(0) =~= l);
            }
            while i < n
                invariant
                    i <= n,
                    children@.len() == i as int,
                    esexp_wf_elems(children@, l.take(i as int)),
                    spec_esize_fold(l, sat_add(2, l.len())) == spec_esize_fold(
                        l.skip(i as int),
                        total as nat,
                    ),
                decreases n - i,
            {
                let elem = &elems[i];
                proof {
                    assert(decreases_to!(*s => s->List_0));
                    assert(decreases_to!(s->List_0 => s->List_0[i as int]));
                    assert(decreases_to!(*s => elems@[i as int]));
                }
                let ev = escape_tree(elem);
                let sz = esize(&ev);
                proof {
                    assert(l.skip(i as int)[0] == l[i as int]);
                    assert(l.skip(i as int).drop_first() =~= l.skip(i + 1 as int));
                    lemma_esexp_wf_elems_snoc(children@, l.take(i as int), ev, l[i as int]);
                    assert(l.take(i + 1 as int) =~= l.take(i as int).push(l[i as int]));
                }
                total = total.saturating_add(sz);
                children.push(ev);
                i = i + 1;
            }
            proof {
                assert(l.skip(n as int) =~= Seq::<SpecSexp>::empty());
                assert(l.take(n as int) =~= l);
            }
            ESexp::List(total, children)
        },
    }
}

/// Pass two: emits a subtree, carrying the column and the indent level.
#[verifier::loop_isolation(false)]
#[verifier::rlimit(100)]
fn hum_write(
    e: &ESexp,
    Ghost(t): Ghost<SpecSexp>,
    first: bool,
    indent: usize,
    width: usize,
    col: &mut usize,
    out: &mut Vec<u8>,
)
    requires
        esexp_wf(*e, t),
    ensures
        final(out)@ == old(out)@ + spec_hum_write(
            t,
            first,
            indent as nat,
            *old(col) as nat,
            width as nat,
        ).0,
        *final(col) as nat == spec_hum_write(
            t,
            first,
            indent as nat,
            *old(col) as nat,
            width as nat,
        ).1,
    decreases *e,
{
    let size = esize(e);
    let ghost sw = spec_hum_write(t, first, indent as nat, *old(col) as nat, width as nat);
    if !first && size.saturating_add(*col) > width {
        out.push(LF);
        let mut k: usize = 0;
        while k < indent
            invariant
                k <= indent,
                out@ == old(out)@ + seq![LF] + indent_spaces(k as nat),
            decreases indent - k,
        {
            proof {
                assert(indent_spaces((k + 1) as nat) =~= indent_spaces(k as nat).push(SPACE));
            }
            out.push(SPACE);
            k = k + 1;
        }
        *col = indent;
    } else if !first {
        *col = col.saturating_add(1);
        out.push(SPACE);
        proof {
            assert(out@ =~= old(out)@ + seq![SPACE]);
        }
    }
    match e {
        ESexp::Atom(v) => {
            *col = col.saturating_add(v.len());
            append_bytes(out, v.as_slice());
            proof {
                assert(out@ =~= old(out)@ + sw.0);
            }
        },
        ESexp::List(_, es) => {
            let ghost l = t->List_0;
            proof {
                lemma_esexp_wf_elems_index(es@, l);
            }
            *col = col.saturating_add(1);
            out.push(LPAREN);
            let ghost mid = out@;
            let ghost col_in = *col as nat;
            let ghost ind1 = sat_add(indent as nat, 1);
            let n = es.len();
            let mut i: usize = 0;
            while i < n
                invariant
                    i <= n,
                    out@ == mid + spec_hum_children(l.take(i as int), true, ind1, col_in, width as nat).0,
                    *col as nat == spec_hum_children(l.take(i as int), true, ind1, col_in, width as nat).1,
                decreases n - i,
            {
                let elem = &es[i];
                proof {
                    assert(decreases_to!(*e => e->List_1));
                    assert(decreases_to!(e->List_1 => e->List_1[i as int]));
                    assert(decreases_to!(*e => es@[i as int]));
                }
                hum_write(elem, Ghost(l[i as int]), i == 0, indent.saturating_add(1), width, col, out);
                proof {
                    assert(l.take(i + 1 as int) =~= l.take(i as int).push(l[i as int]));
                    lemma_hum_children_snoc(
                        l.take(i as int),
                        l[i as int],
                        true,
                        ind1,
                        col_in,
                        width as nat,
                    );
                    assert((i == 0) == (true && l.take(i as int).len() == 0));
                }
                i = i + 1;
            }
            proof {
                assert(l.take(n as int) =~= l);
            }
            *col = col.saturating_add(1);
            out.push(RPAREN);
            proof {
                assert(out@ =~= old(out)@ + sw.0);
            }
        },
    }
}

impl Sexp {
    /// Serializes this tree into the sink in human form, wrapping lines at
    /// the given width budget and indenting one space per nesting level.
    pub fn write_hum(&self, out: &mut Vec<u8>, width: usize)
        ensures
            final(out)@ == old(out)@ + spec_hum(self@, width as nat),
    {
        let e = escape_tree(self);
        let mut col: usize = 0;
        hum_write(&e, Ghost(self@), true, 0, width, &mut col, out);
    }

    /// Serializes this tree to a fresh buffer in human form, under the
    /// default width budget.
    pub fn to_bytes_hum(&self) -> (buffer: Vec<u8>)
        ensures
            buffer@ == spec_hum(self@, MAX_LINE_WIDTH as nat),
    {
        let mut buffer: Vec<u8> = Vec::new();
        self.write_hum(&mut buffer, MAX_LINE_WIDTH);
        buffer
    }
}

} // verus!
