//! The laws of the library: parsing inverts every writer, the escape
//! encoding round-trips every byte string, and machine output places
//! separators only where token gluing demands them.

use vstd::prelude::*;

use crate::escape::APOS;
use crate::escape::BACKSLASH;
use crate::escape::CR;
use crate::escape::LF;
use crate::escape::LOWER_B;
use crate::escape::LOWER_N;
use crate::escape::LOWER_R;
use crate::escape::LOWER_T;
use crate::escape::LOWER_X;
use crate::escape::LPAREN;
use crate::escape::QUOTE;
use crate::escape::RPAREN;
use crate::escape::SEMI;
use crate::escape::SPACE;
use crate::escape::TAB;
use crate::escape::atom_rendering;
use crate::escape::block_marker;
use crate::escape::byte_needs_escape;
use crate::escape::escape_byte;
use crate::escape::escape_bytes;
use crate::escape::quoted_rendering;
use crate::escape::spec_must_escape;
use crate::parse::Error;
use crate::parse::escape_step;
use crate::parse::is_atom_terminator;
use crate::parse::is_ws_byte;
use crate::parse::lemma_items_unfold;
use crate::parse::lemma_skip_ws_noop;
use crate::parse::scan_unquoted;
use crate::parse::skip_ws;
use crate::parse::spec_atom;
use crate::parse::spec_digit_at;
use crate::parse::spec_items;
use crate::parse::spec_parse_many;
use crate::parse::spec_parse_one;
use crate::parse::spec_quoted;
use crate::parse::spec_sexp_nlb;
use crate::parse::spec_three_digits_at;
use crate::sexp::SpecSexp;
use crate::hum::indent_spaces;
use crate::hum::sat_add;
use crate::hum::spec_esize;
use crate::hum::spec_hum;
use crate::hum::spec_hum_children;
use crate::hum::spec_hum_write;
use crate::write::is_unquoted_atom;
use crate::write::spec_write;
use crate::write::spec_write_elems;
use crate::write::spec_write_mach;
use crate::write::spec_write_mach_elems;

verus! {

/// Splitting a byte into its decimal digits loses nothing.
proof fn lemma_decimal_digits(c: u8)
    ensures
        100 * (c as int / 100) + 10 * ((c as int / 10) % 10) + (c as int % 10) == c as int,
{
    assert(100 * (c as int / 100) + 10 * ((c as int / 10) % 10) + (c as int % 10)
        == c as int) by (nonlinear_arith);
}

/// Decoding one encoded byte consumes exactly its encoding and emits the
/// byte back.
proof fn lemma_escape_byte_decodes(c: u8, tail: Seq<u8>)
    ensures
        ({
            let s = escape_byte(c) + tail;
            escape_byte(c).len() >= 2 ==> s[0] == BACKSLASH && s.len() >= 2 && escape_step(s)
                == (escape_byte(c).len() as int, seq![c])
        }),
{
    let e = escape_byte(c);
    let s = e + tail;
    if c == BACKSLASH || c == QUOTE {
        assert(s[0] == BACKSLASH && s[1] == c);
        assert(escape_step(s) == (2int, seq![c]));
    } else if c == LF {
        assert(s[0] == BACKSLASH && s[1] == LOWER_N);
        assert(escape_step(s) == (2int, seq![LF]));
    } else if c == TAB {
        assert(s[0] == BACKSLASH && s[1] == LOWER_T);
        assert(escape_step(s) == (2int, seq![TAB]));
    } else if c == CR {
        assert(s[0] == BACKSLASH && s[1] == LOWER_R);
        assert(escape_step(s) == (2int, seq![CR]));
    } else if c == 8 {
        assert(s[0] == BACKSLASH && s[1] == LOWER_B);
        assert(escape_step(s) == (2int, seq![8u8]));
    } else if SPACE <= c && c <= 126 {
        assert(e.len() == 1);
    } else {
        let d1: u8 = (48 + c / 100) as u8;
        let d2: u8 = (48 + (c / 10) % 10) as u8;
        let d3: u8 = (48 + c % 10) as u8;
        assert(s[0] == BACKSLASH && s[1] == d1 && s[2] == d2 && s[3] == d3);
        assert(48 <= d1 <= 57 && 48 <= d2 <= 57 && 48 <= d3 <= 57);
        assert(spec_digit_at(s, 1) == Some((c / 100) as u8));
        assert(spec_digit_at(s, 2) == Some(((c / 10) % 10) as u8));
        assert(spec_digit_at(s, 3) == Some((c % 10) as u8));
        lemma_decimal_digits(c);
        assert(spec_three_digits_at(s, 1) == Some(c));
        assert(d1 != LF && d1 != APOS && d1 != QUOTE && d1 != BACKSLASH && d1 != LOWER_N && d1
            != LOWER_R && d1 != LOWER_T && d1 != LOWER_B && d1 != LOWER_X);
        assert(escape_step(s) == (4int, seq![c]));
    }
}

/// Decoding an encoded body prepends the original bytes and stops exactly
/// at what follows the encoding.
proof fn lemma_decode_encode(data: Seq<u8>, rest: Seq<u8>)
    requires
        rest.len() > 0,
        rest[0] == QUOTE,
    ensures
        spec_quoted(escape_bytes(data) + rest) == Ok::<(Seq<u8>, Seq<u8>), Error>((rest, data)),
    decreases data.len(),
{
    if data.len() == 0 {
        assert(escape_bytes(data) + rest =~= rest);
        assert(spec_quoted(rest) == Ok::<(Seq<u8>, Seq<u8>), Error>((rest, Seq::empty())));
        assert(data =~= Seq::<u8>::empty());
    } else {
        let c = data[0];
        let e = escape_byte(c);
        let tail = escape_bytes(data.drop_first()) + rest;
        let s = escape_bytes(data) + rest;
        assert(s =~= e + tail);
        lemma_decode_encode(data.drop_first(), rest);
        lemma_escape_byte_decodes(c, tail);
        if e.len() == 1 {
            assert(s[0] == c);
            assert(c != QUOTE && c != BACKSLASH);
            assert(s.drop_first() =~= tail);
            assert(spec_quoted(s) == Ok::<(Seq<u8>, Seq<u8>), Error>(
                (rest, seq![c] + data.drop_first()),
            ));
            assert(seq![c] + data.drop_first() =~= data);
        } else {
            assert(escape_step(s) == (e.len() as int, seq![c]));
            assert(s.skip(e.len() as int) =~= tail);
            assert(s.len() >= 2 && s[0] == BACKSLASH);
            assert(spec_quoted(s) == Ok::<(Seq<u8>, Seq<u8>), Error>(
                (rest, seq![c] + data.drop_first()),
            ));
            assert(seq![c] + data.drop_first() =~= data);
        }
    }
}

/// Bytes of an atom that needs no quoting are never terminators, never
/// whitespace, and never structural bytes.
proof fn lemma_unescaped_bytes_plain(data: Seq<u8>)
    requires
        !spec_must_escape(data),
    ensures
        data.len() > 0,
        forall|j: int| 0 <= j < data.len() ==> !is_atom_terminator(#[trigger] data[j]),
        forall|j: int| 0 <= j < data.len() ==> !is_ws_byte(#[trigger] data[j]),
        forall|j: int| 0 <= j < data.len() ==> data[j] != QUOTE && data[j] != LPAREN && data[j]
            != RPAREN && data[j] != SEMI && data[j] != SPACE && data[j] != BACKSLASH,
{
    assert forall|j: int| 0 <= j < data.len() implies !is_atom_terminator(#[trigger] data[j])
        && !is_ws_byte(data[j]) && data[j] != QUOTE && data[j] != LPAREN && data[j] != RPAREN
        && data[j] != SEMI && data[j] != SPACE && data[j] != BACKSLASH by {
        assert(!byte_needs_escape(data[j]));
    }
}

/// Scanning an unquoted rendering followed by a terminator (or nothing)
/// recovers exactly the rendering.
proof fn lemma_scan_clean(data: Seq<u8>, rest: Seq<u8>, i: int)
    requires
        !spec_must_escape(data),
        0 <= i <= data.len(),
        rest.len() == 0 || is_atom_terminator(rest[0]),
    ensures
        scan_unquoted(data + rest, i) == Ok::<(Seq<u8>, Seq<u8>), Error>((rest, data)),
    decreases data.len() - i,
{
    let s = data + rest;
    lemma_unescaped_bytes_plain(data);
    if i < data.len() {
        assert(s[i] == data[i]);
        assert(!is_atom_terminator(s[i]));
        if i > 0 {
            assert(s[i - 1] == data[i - 1]);
            assert(!block_marker(s[i - 1], s[i]));
        }
        lemma_scan_clean(data, rest, i + 1);
    } else {
        if rest.len() == 0 {
            assert(i >= s.len());
            assert(s =~= data);
            assert(rest =~= Seq::<u8>::empty());
            assert(scan_unquoted(s, i) == Ok::<(Seq<u8>, Seq<u8>), Error>((Seq::empty(), s)));
        } else {
            assert(s[i] == rest[0]);
            assert(s.skip(i) =~= rest);
            assert(s.take(i) =~= data);
        }
    }
}

/// Parsing an atom's rendering yields the atom back and stops exactly at
/// what follows it.  When the atom is unquoted, what follows must start
/// with a terminator byte or be empty.
proof fn lemma_atom_roundtrip(data: Seq<u8>, rest: Seq<u8>)
    requires
        !spec_must_escape(data) ==> rest.len() == 0 || is_atom_terminator(rest[0]),
    ensures
        spec_atom(atom_rendering(data) + rest) == Ok::<(Seq<u8>, SpecSexp), Error>(
            (rest, SpecSexp::Atom(data)),
        ),
{
    let s = atom_rendering(data) + rest;
    if spec_must_escape(data) {
        assert(s[0] == QUOTE);
        let inner = seq![QUOTE] + rest;
        assert(s.drop_first() =~= escape_bytes(data) + inner);
        lemma_decode_encode(data, inner);
        assert(inner[0] == QUOTE);
        assert(inner.drop_first() =~= rest);
    } else {
        lemma_unescaped_bytes_plain(data);
        assert(s[0] == data[0]);
        assert(s[0] != QUOTE);
        lemma_scan_clean(data, rest, 0);
    }
}

/// Every rendering is nonempty; its first byte is never whitespace or a
/// comment opener, and it is an opening parenthesis exactly for lists.
proof fn lemma_write_head(t: SpecSexp)
    ensures
        spec_write(t).len() > 0,
        !is_ws_byte(spec_write(t)[0]),
        spec_write(t)[0] != SEMI,
        t is List <==> spec_write(t)[0] == LPAREN,
{
    match t {
        SpecSexp::Atom(data) => {
            if spec_must_escape(data) {
                assert(spec_write(t)[0] == QUOTE);
            } else {
                lemma_unescaped_bytes_plain(data);
                assert(spec_write(t)[0] == data[0]);
            }
        },
        SpecSexp::List(l) => {
            assert(spec_write(t)[0] == LPAREN);
        },
    }
}

/// No expression starts where a list ends or the input stops: the item loop
/// halts exactly there.
proof fn lemma_items_stop(s: Seq<u8>)
    requires
        s.len() == 0 || s[0] == RPAREN,
    ensures
        spec_items(s) == (s, Seq::<SpecSexp>::empty()),
{
    if s.len() == 0 {
        assert(scan_unquoted(s, 0) == Ok::<(Seq<u8>, Seq<u8>), Error>((Seq::empty(), s)));
    } else {
        assert(is_atom_terminator(s[0]));
        assert(scan_unquoted(s, 0) == Ok::<(Seq<u8>, Seq<u8>), Error>((s.skip(0), s.take(0))));
        assert(s.take(0).len() == 0);
    }
    assert(spec_atom(s) == Err::<(Seq<u8>, SpecSexp), Error>(Error::EmptyAtom));
    assert(spec_sexp_nlb(s) == Err::<(Seq<u8>, SpecSexp), Error>(Error::EmptyAtom));
}

/// After the plain rendering of `t`, parsing one expression yields `t` back
/// and leaves the whitespace-skipped remainder.  When `t` renders unquoted,
/// what follows must start with a terminator byte or be empty.
proof fn lemma_write_nlb(t: SpecSexp, rest: Seq<u8>)
    requires
        (t matches SpecSexp::Atom(data) && !spec_must_escape(data)) ==> (rest.len() == 0
            || is_atom_terminator(rest[0])),
    ensures
        spec_sexp_nlb(spec_write(t) + rest) == Ok::<(Seq<u8>, SpecSexp), Error>(
            (skip_ws(rest), t),
        ),
    decreases t,
{
    let s = spec_write(t) + rest;
    lemma_write_head(t);
    assert(s[0] == spec_write(t)[0]);
    match t {
        SpecSexp::Atom(data) => {
            assert(s[0] != LPAREN);
            lemma_atom_roundtrip(data, rest);
        },
        SpecSexp::List(l) => {
            assert(s[0] == LPAREN);
            let close = seq![RPAREN] + rest;
            let inner = spec_write_elems(l, true) + close;
            assert(s.drop_first() =~= inner);
            if l.len() == 0 {
                assert(inner =~= close);
                assert(inner[0] == RPAREN);
                lemma_skip_ws_noop(inner);
                lemma_items_stop(inner);
                assert(inner.drop_first() =~= rest);
                assert(l =~= Seq::<SpecSexp>::empty());
            } else {
                assert(spec_write_elems(l, true) =~= spec_write(l[0]) + spec_write_elems(
                    l.drop_first(),
                    false,
                ));
                lemma_write_head(l[0]);
                assert(inner[0] == spec_write(l[0])[0]);
                lemma_skip_ws_noop(inner);
                lemma_write_items(l, close);
                assert(close[0] == RPAREN);
                assert(close.drop_first() =~= rest);
            }
        },
    }
}

/// Parsing the space-separated renderings of a sequence of trees, followed
/// by a closing parenthesis or the end of input, yields exactly those trees.
proof fn lemma_write_items(l: Seq<SpecSexp>, rest: Seq<u8>)
    requires
        rest.len() == 0 || rest[0] == RPAREN,
    ensures
        spec_items(spec_write_elems(l, true) + rest) == (rest, l),
    decreases l,
{
    let s = spec_write_elems(l, true) + rest;
    if l.len() == 0 {
        assert(s =~= rest);
        lemma_items_stop(rest);
        assert(l =~= Seq::<SpecSexp>::empty());
    } else {
        let x = l[0];
        let l2 = l.drop_first();
        let tail = spec_write_elems(l2, false) + rest;
        assert(spec_write_elems(l, true) =~= spec_write(x) + spec_write_elems(l2, false));
        assert(s =~= spec_write(x) + tail);
        if l2.len() == 0 {
            assert(spec_write_elems(l2, false) =~= Seq::<u8>::empty());
            assert(tail =~= rest);
            lemma_write_nlb(x, tail);
            lemma_skip_ws_noop(tail);
            lemma_items_unfold(s);
            lemma_items_stop(rest);
            assert(seq![x] + Seq::<SpecSexp>::empty() =~= l);
        } else {
            assert(spec_write_elems(l2, false) =~= seq![SPACE] + (spec_write(l2[0])
                + spec_write_elems(l2.drop_first(), false)));
            assert(tail[0] == SPACE);
            assert(is_atom_terminator(tail[0]));
            lemma_write_nlb(x, tail);
            let u = spec_write_elems(l2, true) + rest;
            assert(spec_write_elems(l2, true) =~= spec_write(l2[0]) + spec_write_elems(
                l2.drop_first(),
                false,
            ));
            assert(tail.drop_first() =~= u);
            lemma_write_head(l2[0]);
            assert(u[0] == spec_write(l2[0])[0]);
            lemma_skip_ws_noop(u);
            assert(skip_ws(tail) == u);
            lemma_write_items(l2, rest);
            lemma_items_unfold(s);
            assert(seq![x] + l2 =~= l);
        }
    }
}

/// Round trip for the plain writer: re-parsing the plain rendering of any
/// tree yields a tree with the same model.
pub proof fn lemma_write_roundtrip(t: SpecSexp)
    ensures
        spec_parse_one(spec_write(t)) == Ok::<SpecSexp, Error>(t),
{
    lemma_write_head(t);
    lemma_write_nlb(t, Seq::empty());
    assert(spec_write(t) + Seq::<u8>::empty() =~= spec_write(t));
    lemma_skip_ws_noop(spec_write(t));
    assert(skip_ws(Seq::<u8>::empty()) == Seq::<u8>::empty());
}

/// Round trip for the multi-value writer: re-parsing the space-separated
/// rendering of any sequence of trees yields the same sequence.
pub proof fn lemma_write_multi_roundtrip(l: Seq<SpecSexp>)
    ensures
        spec_parse_many(spec_write_elems(l, true)) == Ok::<Seq<SpecSexp>, Error>(l),
{
    let b = spec_write_elems(l, true);
    if l.len() == 0 {
        assert(b =~= Seq::<u8>::empty());
        assert(skip_ws(b) == b);
        lemma_items_stop(b);
        assert(l =~= Seq::<SpecSexp>::empty());
    } else {
        assert(b =~= spec_write(l[0]) + spec_write_elems(l.drop_first(), false));
        lemma_write_head(l[0]);
        assert(b[0] == spec_write(l[0])[0]);
        lemma_skip_ws_noop(b);
        assert(b + Seq::<u8>::empty() =~= b);
        lemma_write_items(l, Seq::empty());
    }
}

/// Escape correctness: an atom's bytes pass through the writer unchanged
/// exactly when the escape policy does not demand quoting; when it does,
/// the atom is emitted quoted, and the quoted form decodes back to exactly
/// the original bytes.  Either way the rendering re-parses to the atom.
pub proof fn lemma_escape_roundtrip(data: Seq<u8>)
    ensures
        !spec_must_escape(data) ==> atom_rendering(data) == data,
        spec_must_escape(data) ==> atom_rendering(data) == quoted_rendering(data),
        spec_quoted(escape_bytes(data) + seq![QUOTE]) == Ok::<(Seq<u8>, Seq<u8>), Error>(
            (seq![QUOTE], data),
        ),
        spec_parse_one(atom_rendering(data)) == Ok::<SpecSexp, Error>(SpecSexp::Atom(data)),
{
    lemma_decode_encode(data, seq![QUOTE]);
    lemma_write_roundtrip(SpecSexp::Atom(data));
}

/// The machine writer's state out of a tree is whether that tree was an
/// unquoted atom, and a leading glue-risk state adds exactly one space, and
/// only before an unquoted atom.
proof fn lemma_mach_shape(t: SpecSexp)
    ensures
        spec_write_mach(t, false).1 == is_unquoted_atom(t),
        spec_write_mach(t, true).1 == is_unquoted_atom(t),
        is_unquoted_atom(t) ==> spec_write_mach(t, true).0 == seq![SPACE] + spec_write_mach(
            t,
            false,
        ).0,
        !is_unquoted_atom(t) ==> spec_write_mach(t, true).0 == spec_write_mach(t, false).0,
{
    match t {
        SpecSexp::Atom(data) => {
            if !spec_must_escape(data) {
                assert(spec_write_mach(t, false).0 =~= data);
                assert(spec_write_mach(t, true).0 =~= seq![SPACE] + spec_write_mach(t, false).0);
            }
        },
        SpecSexp::List(_) => {},
    }
}

/// A machine rendering (without leading separator) is nonempty; its first
/// byte is never whitespace or a comment opener, and it is an opening
/// parenthesis exactly for lists.
proof fn lemma_mach_head(t: SpecSexp)
    ensures
        spec_write_mach(t, false).0.len() > 0,
        !is_ws_byte(spec_write_mach(t, false).0[0]),
        spec_write_mach(t, false).0[0] != SEMI,
        t is List <==> spec_write_mach(t, false).0[0] == LPAREN,
{
    match t {
        SpecSexp::Atom(data) => {
            if spec_must_escape(data) {
                assert(spec_write_mach(t, false).0[0] == QUOTE);
            } else {
                lemma_unescaped_bytes_plain(data);
                assert(spec_write_mach(t, false).0 =~= data);
            }
        },
        SpecSexp::List(l) => {
            assert(spec_write_mach(t, false).0[0] == LPAREN);
        },
    }
}

/// Under glue-risk, a nonempty element sequence renders with a terminator
/// byte first: a space, a quote, or an opening parenthesis.
proof fn lemma_mach_elems_head(l: Seq<SpecSexp>)
    requires
        l.len() > 0,
    ensures
        spec_write_mach_elems(l, true).0.len() > 0,
        is_atom_terminator(spec_write_mach_elems(l, true).0[0]),
{
    let x = l[0];
    lemma_mach_shape(x);
    lemma_mach_head(x);
    if is_unquoted_atom(x) {
        assert(spec_write_mach(x, true).0[0] == SPACE);
    } else {
        match x {
            SpecSexp::Atom(data) => {
                assert(spec_write_mach(x, true).0[0] == QUOTE);
            },
            SpecSexp::List(_) => {
                assert(spec_write_mach(x, true).0[0] == LPAREN);
            },
        }
    }
    assert(spec_write_mach_elems(l, true).0[0] == spec_write_mach(x, true).0[0]);
}

/// After the machine rendering of `t` (no leading separator), parsing one
/// expression yields `t` back and leaves the whitespace-skipped remainder.
proof fn lemma_mach_nlb(t: SpecSexp, rest: Seq<u8>)
    requires
        is_unquoted_atom(t) ==> (rest.len() == 0 || is_atom_terminator(rest[0])),
    ensures
        spec_sexp_nlb(spec_write_mach(t, false).0 + rest) == Ok::<(Seq<u8>, SpecSexp), Error>(
            (skip_ws(rest), t),
        ),
    decreases t,
{
    let b = spec_write_mach(t, false).0;
    let s = b + rest;
    lemma_mach_head(t);
    assert(s[0] == b[0]);
    match t {
        SpecSexp::Atom(data) => {
            if spec_must_escape(data) {
                assert(b =~= quoted_rendering(data));
            } else {
                assert(b =~= data);
            }
            assert(b == atom_rendering(data));
            assert(s[0] != LPAREN);
            lemma_atom_roundtrip(data, rest);
        },
        SpecSexp::List(l) => {
            assert(s[0] == LPAREN);
            let close = seq![RPAREN] + rest;
            let inner = spec_write_mach_elems(l, false).0 + close;
            assert(s.drop_first() =~= inner);
            lemma_mach_items(l, false, close);
            assert(close[0] == RPAREN);
            assert(close.drop_first() =~= rest);
        },
    }
}

/// Parsing the machine renderings of a sequence of trees, followed by a
/// closing parenthesis or the end of input, yields exactly those trees.
proof fn lemma_mach_items(l: Seq<SpecSexp>, need_ws: bool, rest: Seq<u8>)
    requires
        rest.len() == 0 || rest[0] == RPAREN,
    ensures
        spec_items(skip_ws(spec_write_mach_elems(l, need_ws).0 + rest)) == (rest, l),
    decreases l,
{
    let bytes = spec_write_mach_elems(l, need_ws).0 + rest;
    if l.len() == 0 {
        assert(bytes =~= rest);
        lemma_skip_ws_noop(rest);
        lemma_items_stop(rest);
        assert(l =~= Seq::<SpecSexp>::empty());
    } else {
        let x = l[0];
        let l2 = l.drop_first();
        lemma_mach_shape(x);
        lemma_mach_head(x);
        let st = spec_write_mach(x, need_ws).1;
        assert(st == is_unquoted_atom(x));
        let tail = spec_write_mach_elems(l2, st).0 + rest;
        assert(bytes =~= spec_write_mach(x, need_ws).0 + tail);
        let u = spec_write_mach(x, false).0 + tail;
        if need_ws && is_unquoted_atom(x) {
            assert(spec_write_mach(x, need_ws).0 == seq![SPACE] + spec_write_mach(x, false).0);
            assert(bytes[0] == SPACE);
            assert(bytes.drop_first() =~= u);
            assert(u[0] == spec_write_mach(x, false).0[0]);
            lemma_skip_ws_noop(u);
            assert(skip_ws(bytes) == u);
        } else {
            assert(spec_write_mach(x, need_ws).0 == spec_write_mach(x, false).0);
            assert(bytes =~= u);
            assert(u[0] == spec_write_mach(x, false).0[0]);
            lemma_skip_ws_noop(u);
            assert(skip_ws(bytes) == u);
        }
        if is_unquoted_atom(x) {
            if l2.len() == 0 {
                assert(spec_write_mach_elems(l2, st).0 =~= Seq::<u8>::empty());
                assert(tail =~= rest);
            } else {
                lemma_mach_elems_head(l2);
                assert(tail[0] == spec_write_mach_elems(l2, true).0[0]);
            }
        }
        lemma_mach_nlb(x, tail);
        lemma_items_unfold(u);
        lemma_mach_items(l2, st, rest);
        assert(seq![x] + l2 =~= l);
    }
}

/// Round trip for the machine writer: re-parsing the machine rendering of
/// any tree yields a tree with the same model.
pub proof fn lemma_write_mach_roundtrip(t: SpecSexp)
    ensures
        spec_parse_one(spec_write_mach(t, false).0) == Ok::<SpecSexp, Error>(t),
{
    lemma_mach_head(t);
    lemma_mach_nlb(t, Seq::empty());
    assert(spec_write_mach(t, false).0 + Seq::<u8>::empty() =~= spec_write_mach(t, false).0);
    lemma_skip_ws_noop(spec_write_mach(t, false).0);
    assert(skip_ws(Seq::<u8>::empty()) == Seq::<u8>::empty());
}

/// Machine-mode separator policy: in a sequence of elements, exactly one
/// space stands before an element if and only if it is an unquoted atom and
/// the token before it was one too; quoted atoms and list delimiters never
/// get a separator, and no separator is ever wider than one space.
pub proof fn lemma_mach_separator_policy(l: Seq<SpecSexp>, need_ws: bool)
    requires
        l.len() > 0,
    ensures
        spec_write_mach_elems(l, need_ws).0 == (if need_ws && is_unquoted_atom(l[0]) {
            seq![SPACE]
        } else {
            Seq::<u8>::empty()
        }) + spec_write_mach(l[0], false).0 + spec_write_mach_elems(
            l.drop_first(),
            is_unquoted_atom(l[0]),
        ).0,
{
    lemma_mach_shape(l[0]);
    if need_ws && is_unquoted_atom(l[0]) {
        assert(spec_write_mach_elems(l, need_ws).0 =~= seq![SPACE] + spec_write_mach(
            l[0],
            false,
        ).0 + spec_write_mach_elems(l.drop_first(), is_unquoted_atom(l[0])).0);
    } else {
        assert(spec_write_mach_elems(l, need_ws).0 =~= Seq::<u8>::empty() + spec_write_mach(
            l[0],
            false,
        ).0 + spec_write_mach_elems(l.drop_first(), is_unquoted_atom(l[0])).0);
    }
}

/// Skipping whitespace passes over any all-whitespace prefix.
proof fn lemma_skip_ws_prefix(w: Seq<u8>, u: Seq<u8>)
    requires
        forall|i: int| 0 <= i < w.len() ==> is_ws_byte(#[trigger] w[i]),
    ensures
        skip_ws(w + u) == skip_ws(u),
    decreases w.len(),
{
    if w.len() == 0 {
        assert(w + u =~= u);
    } else {
        assert((w + u)[0] == w[0]);
        assert((w + u).drop_first() =~= w.drop_first() + u);
        lemma_skip_ws_prefix(w.drop_first(), u);
    }
}

/// A non-first subtree renders as its separator followed by its rendering
/// as a first subtree at the adjusted column.
proof fn lemma_hum_split(t: SpecSexp, indent: nat, col: nat, width: nat)
    ensures
        ({
            let size = spec_esize(t);
            let brk = sat_add(size, col) > width;
            let pre: Seq<u8> = if brk {
                seq![LF] + indent_spaces(indent)
            } else {
                seq![SPACE]
            };
            let col1: nat = if brk {
                indent
            } else {
                sat_add(col, 1)
            };
            spec_hum_write(t, false, indent, col, width).0 == pre + spec_hum_write(
                t,
                true,
                indent,
                col1,
                width,
            ).0 && spec_hum_write(t, false, indent, col, width).1 == spec_hum_write(
                t,
                true,
                indent,
                col1,
                width,
            ).1 && pre.len() > 0 && (forall|i: int|
                0 <= i < pre.len() ==> is_ws_byte(#[trigger] pre[i]))
        }),
{
    let size = spec_esize(t);
    let brk = sat_add(size, col) > width;
    let pre: Seq<u8> = if brk {
        seq![LF] + indent_spaces(indent)
    } else {
        seq![SPACE]
    };
    let col1: nat = if brk {
        indent
    } else {
        sat_add(col, 1)
    };
    match t {
        SpecSexp::Atom(a) => {
            assert(spec_hum_write(t, false, indent, col, width).0 =~= pre + (Seq::<u8>::empty()
                + atom_rendering(a)));
        },
        SpecSexp::List(l) => {
            let body = spec_hum_children(l, true, sat_add(indent, 1), sat_add(col1, 1), width);
            assert(spec_hum_write(t, false, indent, col, width).0 =~= pre + (Seq::<u8>::empty()
                + seq![LPAREN] + body.0 + seq![RPAREN]));
        },
    }
    assert forall|i: int| 0 <= i < pre.len() implies is_ws_byte(#[trigger] pre[i]) by {
        if brk && i >= 1 {
            assert(pre[i] == indent_spaces(indent)[i - 1]);
        }
    }
}

/// A first-position human rendering is nonempty; its first byte is never
/// whitespace or a comment opener, and it is an opening parenthesis exactly
/// for lists.
proof fn lemma_hum_head(t: SpecSexp, indent: nat, col: nat, width: nat)
    ensures
        spec_hum_write(t, true, indent, col, width).0.len() > 0,
        !is_ws_byte(spec_hum_write(t, true, indent, col, width).0[0]),
        spec_hum_write(t, true, indent, col, width).0[0] != SEMI,
        t is List <==> spec_hum_write(t, true, indent, col, width).0[0] == LPAREN,
{
    match t {
        SpecSexp::Atom(a) => {
            assert(spec_hum_write(t, true, indent, col, width).0 =~= atom_rendering(a));
            if spec_must_escape(a) {
                assert(atom_rendering(a)[0] == QUOTE);
            } else {
                lemma_unescaped_bytes_plain(a);
            }
        },
        SpecSexp::List(l) => {
            assert(spec_hum_write(t, true, indent, col, width).0[0] == LPAREN);
        },
    }
}

/// A nonempty sequence of non-first children renders with a whitespace
/// byte first: the separator before its first element.
proof fn lemma_hum_children_ws_head(l: Seq<SpecSexp>, indent: nat, col: nat, width: nat)
    requires
        l.len() > 0,
    ensures
        spec_hum_children(l, false, indent, col, width).0.len() > 0,
        is_ws_byte(spec_hum_children(l, false, indent, col, width).0[0]),
{
    lemma_hum_split(l[0], indent, col, width);
    let head = spec_hum_write(l[0], false, indent, col, width);
    assert(spec_hum_children(l, false, indent, col, width).0 == head.0 + spec_hum_children(
        l.drop_first(),
        false,
        indent,
        head.1,
        width,
    ).0);
    assert(spec_hum_children(l, false, indent, col, width).0[0] == head.0[0]);
}

/// After the human rendering of `t` in first position, parsing one
/// expression yields `t` back and leaves the whitespace-skipped remainder.
proof fn lemma_hum_nlb(t: SpecSexp, indent: nat, col: nat, width: nat, rest: Seq<u8>)
    requires
        is_unquoted_atom(t) ==> (rest.len() == 0 || is_atom_terminator(rest[0])),
    ensures
        spec_sexp_nlb(spec_hum_write(t, true, indent, col, width).0 + rest) == Ok::<
            (Seq<u8>, SpecSexp),
            Error,
        >((skip_ws(rest), t)),
    decreases t,
{
    let b = spec_hum_write(t, true, indent, col, width).0;
    let s = b + rest;
    lemma_hum_head(t, indent, col, width);
    assert(s[0] == b[0]);
    match t {
        SpecSexp::Atom(data) => {
            assert(b =~= atom_rendering(data));
            assert(s[0] != LPAREN);
            lemma_atom_roundtrip(data, rest);
        },
        SpecSexp::List(l) => {
            assert(s[0] == LPAREN);
            let ind1 = sat_add(indent, 1);
            let col2 = sat_add(col, 1);
            let body = spec_hum_children(l, true, ind1, col2, width);
            let close = seq![RPAREN] + rest;
            let inner = body.0 + close;
            assert(b =~= Seq::<u8>::empty() + seq![LPAREN] + body.0 + seq![RPAREN]);
            assert(s.drop_first() =~= inner);
            lemma_hum_items(l, true, ind1, col2, width, close);
            assert(close[0] == RPAREN);
            assert(close.drop_first() =~= rest);
        },
    }
}

/// Parsing the human renderings of a sequence of children, followed by a
/// closing parenthesis or the end of input, yields exactly those trees.
proof fn lemma_hum_items(
    l: Seq<SpecSexp>,
    first: bool,
    indent: nat,
    col: nat,
    width: nat,
    rest: Seq<u8>,
)
    requires
        rest.len() == 0 || rest[0] == RPAREN,
    ensures
        spec_items(skip_ws(spec_hum_children(l, first, indent, col, width).0 + rest)) == (
            rest,
            l,
        ),
    decreases l,
{
    let bytes = spec_hum_children(l, first, indent, col, width).0 + rest;
    if l.len() == 0 {
        assert(bytes =~= rest);
        lemma_skip_ws_noop(rest);
        lemma_items_stop(rest);
        assert(l =~= Seq::<SpecSexp>::empty());
    } else {
        let x = l[0];
        let l2 = l.drop_first();
        let head = spec_hum_write(x, first, indent, col, width);
        let tail = spec_hum_children(l2, false, indent, head.1, width).0 + rest;
        assert(spec_hum_children(l, first, indent, col, width).0 == head.0
            + spec_hum_children(l2, false, indent, head.1, width).0);
        assert(bytes =~= head.0 + tail);
        let col1: nat = if first {
            col
        } else if sat_add(spec_esize(x), col) > width {
            indent
        } else {
            sat_add(col, 1)
        };
        let core = spec_hum_write(x, true, indent, col1, width).0;
        lemma_hum_head(x, indent, col1, width);
        let u = core + tail;
        if first {
            assert(head.0 == core);
            assert(bytes =~= u);
            lemma_skip_ws_noop(u);
            assert(skip_ws(bytes) == u);
        } else {
            lemma_hum_split(x, indent, col, width);
            let size = spec_esize(x);
            let brk = sat_add(size, col) > width;
            let pre: Seq<u8> = if brk {
                seq![LF] + indent_spaces(indent)
            } else {
                seq![SPACE]
            };
            assert(head.0 == pre + core);
            assert(bytes =~= pre + u);
            lemma_skip_ws_prefix(pre, u);
            lemma_skip_ws_noop(u);
            assert(skip_ws(bytes) == u);
        }
        if is_unquoted_atom(x) {
            if l2.len() == 0 {
                assert(spec_hum_children(l2, false, indent, head.1, width).0
                    =~= Seq::<u8>::empty());
                assert(tail =~= rest);
            } else {
                lemma_hum_children_ws_head(l2, indent, head.1, width);
                assert(tail[0] == spec_hum_children(l2, false, indent, head.1, width).0[0]);
            }
        }
        lemma_hum_nlb(x, indent, col1, width, tail);
        lemma_items_unfold(u);
        lemma_hum_items(l2, false, indent, head.1, width, rest);
        assert(seq![x] + l2 =~= l);
    }
}

/// Round trip for the human writer: re-parsing the width-wrapped rendering
/// of any tree, under any width budget, yields a tree with the same model.
pub proof fn lemma_write_hum_roundtrip(t: SpecSexp, width: nat)
    ensures
        spec_parse_one(spec_hum(t, width)) == Ok::<SpecSexp, Error>(t),
{
    lemma_hum_head(t, 0, 0, width);
    lemma_hum_nlb(t, 0, 0, width, Seq::empty());
    assert(spec_hum(t, width) + Seq::<u8>::empty() =~= spec_hum(t, width));
    lemma_skip_ws_noop(spec_hum(t, width));
    assert(skip_ws(Seq::<u8>::empty()) == Seq::<u8>::empty());
}

/// Pretty-printing is a fixed point: re-parsing human output and emitting
/// it again with the same width budget yields byte-identical output.
pub proof fn lemma_hum_idempotent(t: SpecSexp, width: nat)
    ensures
        spec_parse_one(spec_hum(t, width)) matches Ok(t2) && spec_hum(t2, width) == spec_hum(
            t,
            width,
        ),
{
    lemma_write_hum_roundtrip(t, width);
}

/// A byte window free of line breaks.
pub open spec fn lf_free(b: Seq<u8>, i: int, j: int) -> bool {
    forall|k: int| i <= k < j ==> b[k] != LF
}

/// Every line of the bytes is at most `limit` long: any window that never
/// crosses a line break fits in `limit` bytes.
pub open spec fn lines_bounded(b: Seq<u8>, limit: nat) -> bool {
    forall|i: int, j: int| 0 <= i <= j <= b.len() && lf_free(b, i, j) ==> j - i <= limit
}

/// The rendering of an atom contains no line break: the escape encoding
/// turns every control byte into printable characters.
proof fn lemma_rendering_no_lf(a: Seq<u8>)
    ensures
        forall|k: int| 0 <= k < atom_rendering(a).len() ==> atom_rendering(a)[k] != LF,
{
    if spec_must_escape(a) {
        lemma_escape_bytes_no_lf(a);
        assert forall|k: int| 0 <= k < atom_rendering(a).len() implies atom_rendering(a)[k]
            != LF by {
            if 1 <= k < 1 + escape_bytes(a).len() {
                assert(atom_rendering(a)[k] == escape_bytes(a)[k - 1]);
            }
        }
    } else {
        lemma_unescaped_bytes_plain(a);
        assert forall|k: int| 0 <= k < atom_rendering(a).len() implies atom_rendering(a)[k]
            != LF by {
            assert(!is_ws_byte(a[k]));
        }
    }
}

proof fn lemma_escape_bytes_no_lf(a: Seq<u8>)
    ensures
        forall|k: int| 0 <= k < escape_bytes(a).len() ==> escape_bytes(a)[k] != LF,
    decreases a.len(),
{
    if a.len() != 0 {
        lemma_escape_bytes_no_lf(a.drop_first());
        let e = escape_byte(a[0]);
        assert(forall|k: int| 0 <= k < e.len() ==> e[k] != LF);
        assert forall|k: int| 0 <= k < escape_bytes(a).len() implies escape_bytes(a)[k]
            != LF by {
            if k < e.len() {
                assert(escape_bytes(a)[k] == e[k]);
            } else {
                assert(escape_bytes(a)[k] == escape_bytes(a.drop_first())[k - e.len()]);
            }
        }
    }
}

/// Width bookkeeping for a flat list: rendering children that are all
/// atoms small enough for the budget keeps every line within one byte of
/// it (the greedy break check does not count the separator space), and the
/// column telling the length of the open line.
proof fn lemma_hum_flat_children(l: Seq<SpecSexp>, first: bool, col: nat, width: nat)
    requires
        2 <= width,
        2 * width + 2 <= usize::MAX,
        forall|i: int| 0 <= i < l.len() ==> (#[trigger] l[i]) is Atom,
        forall|i: int| 0 <= i < l.len() ==> spec_esize(#[trigger] l[i]) <= width - 2,
        col <= width + 1,
        first ==> col == 1,
    ensures
        ({
            let b = spec_hum_children(l, first, 1, col, width).0;
            let co = spec_hum_children(l, first, 1, col, width).1;
            &&& co <= width + 1
            &&& lines_bounded(b, (width + 1) as nat)
            &&& (forall|j: int| 0 <= j <= b.len() && lf_free(b, 0, j) ==> col + j <= width + 1)
            &&& (forall|i: int|
                0 <= i <= b.len() && lf_free(b, i, b.len() as int) ==> b.len() - i <= co)
            &&& (lf_free(b, 0, b.len() as int) ==> co == col + b.len())
        }),
    decreases l,
{
    let b = spec_hum_children(l, first, 1, col, width).0;
    let co = spec_hum_children(l, first, 1, col, width).1;
    if l.len() == 0 {
        assert(b.len() == 0);
    } else {
        let x = l[0];
        let a = x->Atom_0;
        let s = atom_rendering(a).len();
        assert(spec_esize(x) == s);
        assert(s <= width - 2);
        lemma_rendering_no_lf(a);
        let brk = !first && sat_add(s, col) > width;
        assert(sat_add(s, col) == s + col);
        let pre: Seq<u8> = if brk {
            seq![LF] + indent_spaces(1)
        } else if !first {
            seq![SPACE]
        } else {
            Seq::<u8>::empty()
        };
        let col_mid: nat = if brk {
            sat_add(1, s)
        } else if !first {
            sat_add(sat_add(col, 1), s)
        } else {
            sat_add(col, s)
        };
        assert(indent_spaces(1) =~= seq![SPACE]);
        let h = spec_hum_write(x, first, 1, col, width).0;
        assert(h == pre + atom_rendering(a));
        assert(spec_hum_write(x, first, 1, col, width).1 == col_mid);
        assert(h.len() == pre.len() + s);
        if brk {
            assert(col_mid == 1 + s);
            assert(h[0] == LF);
            assert(forall|k: int| 1 <= k < h.len() ==> h[k] != LF) by {
                assert forall|k: int| 1 <= k < h.len() implies h[k] != LF by {
                    if k == 1 {
                        assert(h[k] == SPACE);
                    } else {
                        assert(h[k] == atom_rendering(a)[k - 2]);
                    }
                }
            }
            assert(col_mid <= width - 1);
        } else {
            assert(forall|k: int| 0 <= k < h.len() ==> h[k] != LF) by {
                assert forall|k: int| 0 <= k < h.len() implies h[k] != LF by {
                    if !first && k == 0 {
                        assert(h[k] == SPACE);
                    } else {
                        assert(h[k] == atom_rendering(a)[k - pre.len()]);
                    }
                }
            }
            if first {
                assert(col_mid == col + s);
                assert(col_mid <= width - 1);
            } else {
                assert(s + col <= width);
                assert(col_mid == col + 1 + s);
                assert(col_mid <= width + 1);
            }
            assert(col + h.len() == col_mid);
        }
        let l2 = l.drop_first();
        assert forall|i: int| 0 <= i < l2.len() implies (#[trigger] l2[i]) is Atom
            && spec_esize(l2[i]) <= width - 2 by {
            assert(l2[i] == l[i + 1]);
        }
        lemma_hum_flat_children(l2, false, col_mid, width);
        let r = spec_hum_children(l2, false, 1, col_mid, width).0;
        assert(b == h + r);
        assert(co == spec_hum_children(l2, false, 1, col_mid, width).1);
        assert(b.len() == h.len() + r.len());
        assert(forall|k: int| 0 <= k < b.len() ==> b[k] == (if k < h.len() {
            h[k]
        } else {
            r[k - h.len()]
        }));
        // A: all lines bounded
        assert forall|i: int, j: int|
            0 <= i <= j <= b.len() && lf_free(b, i, j) implies j - i <= width + 1 by {
            if j <= h.len() {
                if brk {
                    if i == 0 && j > 0 {
                        assert(b[0] == h[0]);
                        assert(!lf_free(b, i, j));
                    } else {
                        assert(j - i <= h.len() - 1);
                    }
                } else {
                    assert(j - i <= h.len());
                    assert(h.len() <= col_mid);
                }
            } else if i >= h.len() {
                assert(lf_free(r, i - h.len(), j - h.len())) by {
                    assert forall|k: int| i - h.len() <= k < j - h.len() implies r[k] != LF by {
                        assert(b[k + h.len()] == r[k]);
                    }
                }
            } else {
                // spans the boundary
                assert(lf_free(r, 0, j - h.len())) by {
                    assert forall|k: int| 0 <= k < j - h.len() implies r[k] != LF by {
                        assert(b[k + h.len()] == r[k]);
                    }
                }
                assert(col_mid + (j - h.len()) <= width + 1);
                if brk {
                    assert(i >= 1) by {
                        if i == 0 {
                            assert(b[0] == h[0]);
                            assert(!lf_free(b, i, j));
                        }
                    }
                    assert(h.len() - i <= 1 + s);
                    assert(h.len() - i <= col_mid);
                } else {
                    assert(h.len() - i <= h.len());
                    assert(col + h.len() == col_mid);
                }
                assert(j - i == (h.len() - i) + (j - h.len()));
            }
        }
        // B: the first line continues the open line
        assert forall|j: int| 0 <= j <= b.len() && lf_free(b, 0, j) implies col + j <= width
            + 1 by {
            if brk {
                if j > 0 {
                    assert(b[0] == h[0]);
                    assert(!lf_free(b, 0, j));
                }
            } else {
                if j <= h.len() {
                    assert(col + j <= col + h.len());
                } else {
                    assert(lf_free(r, 0, j - h.len())) by {
                        assert forall|k: int| 0 <= k < j - h.len() implies r[k] != LF by {
                            assert(b[k + h.len()] == r[k]);
                        }
                    }
                    assert(col_mid + (j - h.len()) <= width + 1);
                }
            }
        }
        // C: the last line fits in the final column
        assert forall|i: int|
            0 <= i <= b.len() && lf_free(b, i, b.len() as int) implies b.len() - i <= co by {
            assert(lf_free(r, 0, r.len() as int) ==> co == col_mid + r.len());
            if i >= h.len() {
                assert(lf_free(r, i - h.len(), r.len() as int)) by {
                    assert forall|k: int| i - h.len() <= k < r.len() implies r[k] != LF by {
                        assert(b[k + h.len()] == r[k]);
                    }
                }
            } else {
                assert(lf_free(r, 0, r.len() as int)) by {
                    assert forall|k: int| 0 <= k < r.len() implies r[k] != LF by {
                        assert(b[k + h.len()] == r[k]);
                    }
                }
                assert(co == col_mid + r.len());
                if brk {
                    assert(i >= 1) by {
                        if i == 0 {
                            assert(b[0] == h[0]);
                            assert(!lf_free(b, i, b.len() as int));
                        }
                    }
                    assert(h.len() - i <= col_mid);
                } else {
                    assert(h.len() - i <= h.len());
                    assert(col + h.len() == col_mid);
                }
            }
        }
        // E: a break-free rendering ends where its length says
        if lf_free(b, 0, b.len() as int) {
            assert(!brk) by {
                if brk {
                    assert(b[0] == h[0]);
                }
            }
            assert(lf_free(r, 0, r.len() as int)) by {
                assert forall|k: int| 0 <= k < r.len() implies r[k] != LF by {
                    assert(b[k + h.len()] == r[k]);
                }
            }
            assert(co == col_mid + r.len());
            assert(co == col + b.len());
        }
    }
}

/// Width law for a flat list: when every element is an atom whose rendered
/// size is at most two under the budget, no emitted line of the human
/// rendering exceeds the budget by more than the two bytes the greedy
/// breaker never counts: the separator space before an element that ends a
/// line exactly at the budget, and the closing parenthesis.
pub proof fn lemma_hum_width_flat(l: Seq<SpecSexp>, width: nat)
    requires
        2 <= width,
        2 * width + 2 <= usize::MAX,
        forall|i: int| 0 <= i < l.len() ==> (#[trigger] l[i]) is Atom,
        forall|i: int| 0 <= i < l.len() ==> spec_esize(#[trigger] l[i]) <= width - 2,
    ensures
        lines_bounded(spec_hum(SpecSexp::List(l), width), (width + 2) as nat),
{
    let t = SpecSexp::List(l);
    assert(sat_add(0, 1) == 1);
    let bdy = spec_hum_children(l, true, 1, 1, width).0;
    let co = spec_hum_children(l, true, 1, 1, width).1;
    let full = spec_hum(t, width);
    assert(full =~= Seq::<u8>::empty() + seq![LPAREN] + bdy + seq![RPAREN]);
    assert(full.len() == bdy.len() + 2);
    assert(forall|k: int| 0 <= k < bdy.len() ==> full[k + 1] == bdy[k]);
    assert(full[0] == LPAREN);
    assert(full[full.len() - 1] == RPAREN);
    lemma_hum_flat_children(l, true, 1, width);
    assert forall|i: int, j: int|
        0 <= i <= j <= full.len() && lf_free(full, i, j) implies j - i <= width + 2 by {
        let i2: int = if i == 0 {
            0
        } else {
            i - 1
        };
        let j2: int = if j == full.len() {
            bdy.len() as int
        } else {
            j - 1
        };
        if j2 > i2 {
            assert(lf_free(bdy, i2, j2)) by {
                assert forall|k: int| i2 <= k < j2 implies bdy[k] != LF by {
                    assert(full[k + 1] == bdy[k]);
                }
            }
        }
        if i == 0 && j == full.len() {
            if bdy.len() > 0 {
                assert(lf_free(bdy, 0, bdy.len() as int));
                assert(co == 1 + bdy.len());
                assert(j - i == bdy.len() + 2);
            }
        } else if i == 0 {
            if j2 > 0 {
                assert(1 + j2 <= width + 1);
            }
        } else if j == full.len() {
            if j2 > i2 {
                assert(bdy.len() - i2 <= co);
            }
        } else {
            if j2 > i2 {
                assert(j2 - i2 <= width + 1);
            }
        }
    }
}

} // verus!
