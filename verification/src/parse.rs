//! Lexing and recursive-descent parsing of the S-expression grammar.
//!
//! Each executable function mirrors a specification function over byte
//! sequences exactly; the round-trip theorems in `props` are then proved
//! against those specification functions alone.

use vstd::prelude::*;
use vstd::slice::slice_subrange;
use vstd::slice::slice_to_vec;

use crate::escape::APOS;
use crate::escape::BACKSLASH;
use crate::escape::CR;
use crate::escape::HASH;
use crate::escape::LF;
use crate::escape::LOWER_B;
use crate::escape::LOWER_N;
use crate::escape::LOWER_R;
use crate::escape::LOWER_T;
use crate::escape::LOWER_X;
use crate::escape::LPAREN;
use crate::escape::PIPE;
use crate::escape::QUOTE;
use crate::escape::RPAREN;
use crate::escape::SEMI;
use crate::escape::SPACE;
use crate::escape::TAB;
use crate::sexp::Sexp;
use crate::sexp::SpecSexp;
use crate::sexp::lemma_view_elems_snoc;
use crate::sexp::view_elems;

verus! {

/// Parse-time errors; each is terminal for the call that raised it.
#[derive(Clone, Debug, PartialEq, Eq)]
pub enum Error {
    /// A block-comment marker appeared inside an unquoted atom; carries the
    /// byte that preceded the offending one.
    UnexpectedCharInString(u8),
    /// Input ended before a quoted atom's closing quote.
    UnexpectedEofInString,
    /// A list was missing its closing parenthesis, a required byte was
    /// absent, or leftover bytes followed a complete parse.
    UnexpectedEof,
    /// An unquoted-atom scan matched zero bytes.
    EmptyAtom,
}

/// ASCII whitespace recognized between tokens.
pub open spec fn is_ws_byte(c: u8) -> bool {
    c == SPACE || c == TAB || c == CR || c == LF
}

/// A byte that ends an unquoted atom.
pub open spec fn is_atom_terminator(c: u8) -> bool {
    c == SEMI || c == LPAREN || c == RPAREN || c == QUOTE || is_ws_byte(c)
}

/// The suffix that remains after skipping whitespace and `;` comments.
pub open spec fn skip_ws(s: Seq<u8>) -> Seq<u8>
    decreases s.len(), 0nat,
{
    if s.len() == 0 {
        s
    } else if is_ws_byte(s[0]) {
        skip_ws(s.drop_first())
    } else if s[0] == SEMI {
        skip_comment(s.drop_first())
    } else {
        s
    }
}

/// Inside a `;` comment: everything up to the next CR or LF belongs to the
/// comment, and whitespace skipping resumes there.
pub open spec fn skip_comment(s: Seq<u8>) -> Seq<u8>
    decreases s.len(), 1nat,
{
    if s.len() == 0 {
        s
    } else if s[0] == CR || s[0] == LF {
        skip_ws(s)
    } else {
        skip_comment(s.drop_first())
    }
}

/// Skipping whitespace never lengthens the input.
pub proof fn lemma_skip_ws_len(s: Seq<u8>)
    ensures
        skip_ws(s).len() <= s.len(),
        skip_comment(s).len() <= s.len(),
    decreases s.len(),
{
    if s.len() != 0 {
        lemma_skip_ws_len(s.drop_first());
    }
}

/// Skipping whitespace from a suffix that starts with none is a no-op.
pub proof fn lemma_skip_ws_noop(s: Seq<u8>)
    requires
        s.len() > 0 ==> !is_ws_byte(s[0]) && s[0] != SEMI,
    ensures
        skip_ws(s) == s,
{
}

/// The raw unquoted-atom scan from position `i`: stops at the first
/// terminator byte, rejects block-comment markers, and accepts the end of
/// input.
pub open spec fn scan_unquoted(s: Seq<u8>, i: int) -> Result<(Seq<u8>, Seq<u8>), Error>
    decreases s.len() - i,
{
    if i < 0 || i >= s.len() {
        Ok((Seq::empty(), s))
    } else if is_atom_terminator(s[i]) {
        Ok((s.skip(i), s.take(i)))
    } else if s[i] == HASH && i > 0 && s[i - 1] == PIPE {
        Err(Error::UnexpectedCharInString(PIPE))
    } else if s[i] == PIPE && i > 0 && s[i - 1] == HASH {
        Err(Error::UnexpectedCharInString(HASH))
    } else {
        scan_unquoted(s, i + 1)
    }
}

/// The maximal unquoted run at the head of the input, and what follows it.
pub open spec fn spec_raw_atom(s: Seq<u8>) -> Result<(Seq<u8>, Seq<u8>), Error> {
    scan_unquoted(s, 0)
}

/// An unquoted atom: the raw scan, with an empty run rejected.
pub open spec fn spec_unquoted_atom(s: Seq<u8>) -> Result<(Seq<u8>, Seq<u8>), Error> {
    match spec_raw_atom(s) {
        Ok(p) => if p.1.len() == 0 {
            Err(Error::EmptyAtom)
        } else {
            Ok(p)
        },
        Err(e) => Err(e),
    }
}

/// A successful scan splits the input: remainder and run lengths add up, and
/// the run never contains a terminator.
pub proof fn lemma_scan_unquoted_split(s: Seq<u8>, i: int)
    requires
        0 <= i <= s.len(),
    ensures
        scan_unquoted(s, i) matches Ok(p) ==> p.0.len() + p.1.len() == s.len(),
    decreases s.len() - i,
{
    if i < s.len() && !is_atom_terminator(s[i]) && !(s[i] == HASH && i > 0 && s[i - 1] == PIPE)
        && !(s[i] == PIPE && i > 0 && s[i - 1] == HASH) {
        lemma_scan_unquoted_split(s, i + 1);
    }
}

/// Skips ASCII whitespace and `;`-to-end-of-line comments; never fails.
#[verifier::loop_isolation(false)]
pub fn space_or_comments(input: &[u8]) -> (r: &[u8])
    ensures
        r@ == skip_ws(input@),
{
    let n = input.len();
    let mut index: usize = 0;
    proof {
        assert(input@.skip(0) =~= input@);
    }
    while index < n
        invariant
            index <= n,
            skip_ws(input@) == skip_ws(input@.skip(index as int)),
        decreases n - index,
    {
        let c = input[index];
        if c == SPACE || c == TAB || c == CR || c == LF {
            proof {
                assert(input@.skip(index as int).drop_first() =~= input@.skip(index + 1 as int));
            }
            index = index + 1;
        } else if c == SEMI {
            proof {
                assert(input@.skip(index as int).drop_first() =~= input@.skip(index + 1 as int));
            }
            index = index + 1;
            let ghost idx0 = index as int;
            while index < n && input[index] != CR && input[index] != LF
                invariant
                    idx0 <= index,
                    index <= n,
                    skip_ws(input@) == skip_comment(input@.skip(index as int)),
                decreases n - index,
            {
                proof {
                    assert(input@.skip(index as int).drop_first() =~= input@.skip(
                        index + 1 as int,
                    ));
                }
                index = index + 1;
            }
            proof {
                if index < n {
                    assert(skip_comment(input@.skip(index as int)) == skip_ws(
                        input@.skip(index as int),
                    ));
                }
            }
        } else {
            proof {
                assert(skip_ws(input@.skip(index as int)) == input@.skip(index as int));
            }
            return slice_subrange(input, index, n);
        }
    }
    proof {
        assert(input@.skip(n as int) =~= Seq::<u8>::empty());
    }
    slice_subrange(input, n, n)
}

/// Scans the maximal unquoted run at the head of the input.
#[verifier::loop_isolation(false)]
fn unquoted_string_raw(input: &[u8]) -> (r: Result<(&[u8], &[u8]), Error>)
    ensures
        r matches Ok(p) ==> spec_raw_atom(input@) == Ok::<(Seq<u8>, Seq<u8>), Error>(
            (p.0@, p.1@),
        ),
        r matches Err(e) ==> spec_raw_atom(input@) == Err::<(Seq<u8>, Seq<u8>), Error>(e),
{
    let n = input.len();
    let mut index: usize = 0;
    while index < n
        invariant
            index <= n,
            spec_raw_atom(input@) == scan_unquoted(input@, index as int),
        decreases n - index,
    {
        let c = input[index];
        if c == SEMI || c == LPAREN || c == RPAREN || c == QUOTE || c == SPACE || c == TAB || c
            == CR || c == LF {
            return Ok((slice_subrange(input, index, n), slice_subrange(input, 0, index)));
        }
        if index > 0 {
            let prev = input[index - 1];
            if c == HASH && prev == PIPE {
                return Err(Error::UnexpectedCharInString(PIPE));
            }
            if c == PIPE && prev == HASH {
                return Err(Error::UnexpectedCharInString(HASH));
            }
        }
        index = index + 1;
    }
    proof {
        assert(input@.skip(n as int) =~= Seq::<u8>::empty());
        assert(input@.take(n as int) =~= input@);
    }
    Ok((slice_subrange(input, n, n), slice_subrange(input, 0, n)))
}

/// Scans an unquoted atom and copies its bytes out, rejecting an empty run.
fn unquoted_string(input: &[u8]) -> (r: Result<(&[u8], Vec<u8>), Error>)
    ensures
        r matches Ok(p) ==> spec_unquoted_atom(input@) == Ok::<(Seq<u8>, Seq<u8>), Error>(
            (p.0@, p.1@),
        ),
        r matches Err(e) ==> spec_unquoted_atom(input@) == Err::<(Seq<u8>, Seq<u8>), Error>(e),
{
    match unquoted_string_raw(input) {
        Ok((next_input, run)) => {
            if run.is_empty() {
                Err(Error::EmptyAtom)
            } else {
                Ok((next_input, slice_to_vec(run)))
            }
        },
        Err(err) => Err(err),
    }
}

/// The decimal digit value at position `i`, if there is one.
pub open spec fn spec_digit_at(s: Seq<u8>, i: int) -> Option<u8> {
    if 0 <= i < s.len() && 48 <= s[i] && s[i] <= 57 {
        Some((s[i] - 48) as u8)
    } else {
        None
    }
}

/// The hexadecimal digit value at position `i`, if there is one.
pub open spec fn spec_hex_digit_at(s: Seq<u8>, i: int) -> Option<u8> {
    if 0 <= i < s.len() {
        if 48 <= s[i] && s[i] <= 57 {
            Some((s[i] - 48) as u8)
        } else if 65 <= s[i] && s[i] <= 70 {
            Some((s[i] - 65 + 10) as u8)
        } else if 97 <= s[i] && s[i] <= 102 {
            Some((s[i] - 97 + 10) as u8)
        } else {
            None
        }
    } else {
        None
    }
}

/// The byte named by three decimal digits starting at `i`, reduced modulo
/// 256, if all three digits are present.
pub open spec fn spec_three_digits_at(s: Seq<u8>, i: int) -> Option<u8> {
    if spec_digit_at(s, i) is Some && spec_digit_at(s, i + 1) is Some && spec_digit_at(
        s,
        i + 2,
    ) is Some {
        Some(
            (((100 * spec_digit_at(s, i)->0 + 10 * spec_digit_at(s, i + 1)->0 + spec_digit_at(
                s,
                i + 2,
            )->0) as int % 256) as u8),
        )
    } else {
        None
    }
}

/// The byte named by two hexadecimal digits starting at `i`, if both are
/// present.
pub open spec fn spec_two_hex_at(s: Seq<u8>, i: int) -> Option<u8> {
    if spec_hex_digit_at(s, i) is Some && spec_hex_digit_at(s, i + 1) is Some {
        Some(((16 * spec_hex_digit_at(s, i)->0 + spec_hex_digit_at(s, i + 1)->0) as u8))
    } else {
        None
    }
}

/// The length of the run of spaces and tabs starting at position `i`.
pub open spec fn cont_run(s: Seq<u8>, i: int) -> int
    decreases s.len() - i,
{
    if 0 <= i < s.len() && (s[i] == SPACE || s[i] == TAB) {
        1 + cont_run(s, i + 1)
    } else {
        0
    }
}

/// The continuation run is nonnegative and stays inside the input.
pub proof fn lemma_cont_run_bounds(s: Seq<u8>, i: int)
    requires
        0 <= i,
    ensures
        0 <= cont_run(s, i),
        i <= s.len() ==> i + cont_run(s, i) <= s.len(),
    decreases s.len() - i,
{
    if 0 <= i < s.len() && (s[i] == SPACE || s[i] == TAB) {
        lemma_cont_run_bounds(s, i + 1);
    }
}

/// One escape step: `s` starts at a backslash with at least one byte after
/// it.  Returns how many bytes the escape consumes (backslash included) and
/// which bytes it emits.  A backslash-newline consumes the following run of
/// spaces and tabs and emits nothing; an unrecognized escape emits the
/// backslash and the byte literally.
pub open spec fn escape_step(s: Seq<u8>) -> (int, Seq<u8>) {
    let c = s[1];
    if c == LF {
        (2 + cont_run(s, 2), Seq::<u8>::empty())
    } else if c == APOS || c == QUOTE || c == BACKSLASH {
        (2, seq![c])
    } else if c == LOWER_N {
        (2, seq![LF])
    } else if c == LOWER_R {
        (2, seq![CR])
    } else if c == LOWER_T {
        (2, seq![TAB])
    } else if c == LOWER_B {
        (2, seq![8u8])
    } else if c == LOWER_X {
        if spec_two_hex_at(s, 2) is Some {
            (4, seq![spec_two_hex_at(s, 2)->0])
        } else {
            (2, seq![BACKSLASH, LOWER_X])
        }
    } else {
        if spec_three_digits_at(s, 1) is Some {
            (4, seq![spec_three_digits_at(s, 1)->0])
        } else {
            (2, seq![BACKSLASH, c])
        }
    }
}

/// An escape step consumes at least the backslash pair and never more than
/// the input holds.
pub proof fn lemma_escape_step_bounds(s: Seq<u8>)
    requires
        s.len() >= 2,
        s[0] == BACKSLASH,
    ensures
        2 <= escape_step(s).0,
        escape_step(s).0 <= s.len(),
{
    if s[1] == LF {
        lemma_cont_run_bounds(s, 2);
    }
}

/// The decoded body of a quoted atom: `s` starts just after the opening
/// quote.  On success, the remainder starts at the closing quote.
pub open spec fn spec_quoted(s: Seq<u8>) -> Result<(Seq<u8>, Seq<u8>), Error>
    decreases s.len(),
    via spec_quoted_decreases
{
    if s.len() == 0 {
        Err(Error::UnexpectedEofInString)
    } else if s[0] == QUOTE {
        Ok((s, Seq::empty()))
    } else if s[0] == BACKSLASH {
        if s.len() == 1 {
            Err(Error::UnexpectedEofInString)
        } else {
            match spec_quoted(s.skip(escape_step(s).0)) {
                Ok(p) => Ok((p.0, escape_step(s).1 + p.1)),
                Err(e) => Err(e),
            }
        }
    } else {
        match spec_quoted(s.drop_first()) {
            Ok(p) => Ok((p.0, seq![s[0]] + p.1)),
            Err(e) => Err(e),
        }
    }
}

#[via_fn]
proof fn spec_quoted_decreases(s: Seq<u8>) {
    if s.len() > 1 && s[0] == BACKSLASH {
        lemma_escape_step_bounds(s);
    }
}

/// Reads the decimal digit at `index`, if any.
fn digit(input: &[u8], index: usize) -> (r: Option<u8>)
    ensures
        r == spec_digit_at(input@, index as int),
{
    if index >= input.len() {
        None
    } else {
        let c = input[index];
        if 48 <= c && c <= 57 {
            Some(c - 48)
        } else {
            None
        }
    }
}

/// Reads the hexadecimal digit at `index`, if any.
fn hex_digit(input: &[u8], index: usize) -> (r: Option<u8>)
    ensures
        r == spec_hex_digit_at(input@, index as int),
{
    if index >= input.len() {
        None
    } else {
        let c = input[index];
        if 48 <= c && c <= 57 {
            Some(c - 48)
        } else if 65 <= c && c <= 70 {
            Some(c - 65 + 10)
        } else if 97 <= c && c <= 102 {
            Some(c - 97 + 10)
        } else {
            None
        }
    }
}

/// Reads a three-decimal-digit escape value starting at `index`.
fn three_digits(input: &[u8], index: usize) -> (r: Option<u8>)
    ensures
        r == spec_three_digits_at(input@, index as int),
{
    let n = input.len();
    match digit(input, index) {
        None => None,
        Some(d1) => {
            proof {
                assert(index < n);
            }
            match digit(input, index + 1) {
                None => None,
                Some(d2) => {
                    proof {
                        assert(index + 1 < n);
                    }
                    match digit(input, index + 2) {
                        None => None,
                        Some(d3) => {
                            let v: u16 = 100 * (d1 as u16) + 10 * (d2 as u16) + (d3 as u16);
                            Some((v % 256) as u8)
                        },
                    }
                },
            }
        },
    }
}

/// Reads a two-hexadecimal-digit escape value starting at `index`.
fn two_hex_digits(input: &[u8], index: usize) -> (r: Option<u8>)
    ensures
        r == spec_two_hex_at(input@, index as int),
{
    let n = input.len();
    match hex_digit(input, index) {
        None => None,
        Some(d1) => {
            proof {
                assert(index < n);
            }
            match hex_digit(input, index + 1) {
                None => None,
                Some(d2) => Some(16 * d1 + d2),
            }
        },
    }
}

/// Prepends already-decoded bytes to a decoder result.
pub open spec fn quoted_prepend(b: Seq<u8>, r: Result<(Seq<u8>, Seq<u8>), Error>) -> Result<
    (Seq<u8>, Seq<u8>),
    Error,
> {
    match r {
        Ok(p) => Ok((p.0, b + p.1)),
        Err(e) => Err(e),
    }
}

proof fn lemma_quoted_prepend_assoc(a: Seq<u8>, b: Seq<u8>, r: Result<(Seq<u8>, Seq<u8>), Error>)
    ensures
        quoted_prepend(a, quoted_prepend(b, r)) == quoted_prepend(a + b, r),
{
    match r {
        Ok(p) => {
            assert(a + (b + p.1) =~= (a + b) + p.1);
        },
        Err(_) => {},
    }
}

/// Skipping twice skips the sum.
pub proof fn lemma_skip_skip(s: Seq<u8>, a: int, b: int)
    requires
        0 <= a,
        0 <= b,
        a + b <= s.len(),
    ensures
        s.skip(a).skip(b) == s.skip(a + b),
{
    assert(s.skip(a).skip(b) =~= s.skip(a + b));
}

/// Digit lookups commute with dropping a prefix.
proof fn lemma_digits_shift(s: Seq<u8>, k: int)
    requires
        0 <= k <= s.len(),
    ensures
        forall|i: int| 0 <= i ==> spec_digit_at(s.skip(k), i) == spec_digit_at(s, k + i),
        forall|i: int| 0 <= i ==> spec_hex_digit_at(s.skip(k), i) == spec_hex_digit_at(s, k + i),
{
    assert forall|i: int| 0 <= i implies spec_digit_at(s.skip(k), i) == spec_digit_at(
        s,
        k + i,
    ) by {
        if i < s.skip(k).len() {
            assert(s.skip(k)[i] == s[k + i]);
        }
    }
    assert forall|i: int| 0 <= i implies spec_hex_digit_at(s.skip(k), i) == spec_hex_digit_at(
        s,
        k + i,
    ) by {
        if i < s.skip(k).len() {
            assert(s.skip(k)[i] == s[k + i]);
        }
    }
}

/// The continuation run commutes with dropping a prefix.
proof fn lemma_cont_run_shift(s: Seq<u8>, k: int, i: int)
    requires
        0 <= k <= s.len(),
        0 <= i,
    ensures
        cont_run(s.skip(k), i) == cont_run(s, k + i),
    decreases s.len() - k - i,
{
    if k + i < s.len() && (s[k + i] == SPACE || s[k + i] == TAB) {
        assert(s.skip(k)[i] == s[k + i]);
        lemma_cont_run_shift(s, k, i + 1);
    } else {
        if i < s.skip(k).len() {
            assert(s.skip(k)[i] == s[k + i]);
        }
    }
}

/// Unfolds one escape step of the decoder on the suffix starting at `k`.
proof fn lemma_quoted_step(s: Seq<u8>, k: int)
    requires
        0 <= k,
        k + 2 <= s.len(),
        s[k] == BACKSLASH,
    ensures
        2 <= escape_step(s.skip(k)).0,
        k + escape_step(s.skip(k)).0 <= s.len(),
        spec_quoted(s.skip(k)) == quoted_prepend(
            escape_step(s.skip(k)).1,
            spec_quoted(s.skip(k + escape_step(s.skip(k)).0)),
        ),
{
    let suf = s.skip(k);
    assert(suf[0] == s[k]);
    assert(suf.len() == s.len() - k);
    lemma_escape_step_bounds(suf);
    lemma_skip_skip(s, k, escape_step(suf).0);
    assert(spec_quoted(suf) == (match spec_quoted(suf.skip(escape_step(suf).0)) {
        Ok(p) => Ok::<(Seq<u8>, Seq<u8>), Error>((p.0, escape_step(suf).1 + p.1)),
        Err(e) => Err(e),
    }));
}

/// Reads a quoted atom's body, decoding escapes, up to the closing quote.
/// The returned remainder starts at that quote.
#[verifier::loop_isolation(false)]
fn quoted_string(input: &[u8]) -> (r: Result<(&[u8], Vec<u8>), Error>)
    ensures
        r matches Ok(p) ==> spec_quoted(input@) == Ok::<(Seq<u8>, Seq<u8>), Error>(
            (p.0@, p.1@),
        ),
        r matches Err(e) ==> spec_quoted(input@) == Err::<(Seq<u8>, Seq<u8>), Error>(e),
{
    let mut buffer: Vec<u8> = Vec::new();
    let mut index: usize = 0;
    let n = input.len();
    proof {
        assert(input@.skip(0) =~= input@);
    }
    while index < n
        invariant
            index <= n,
            spec_quoted(input@) == quoted_prepend(
                buffer@,
                spec_quoted(input@.skip(index as int)),
            ),
        decreases n - index,
    {
        let ghost pre = buffer@;
        let ghost suf = input@.skip(index as int);
        let c = input[index];
        proof {
            assert(suf[0] == input@[index as int]);
            assert(suf.len() == n - index);
        }
        if c == QUOTE {
            proof {
                assert(spec_quoted(suf) == Ok::<(Seq<u8>, Seq<u8>), Error>(
                    (suf, Seq::<u8>::empty()),
                ));
                assert(pre + Seq::<u8>::empty() =~= pre);
            }
            return Ok((slice_subrange(input, index, n), buffer));
        }
        if c == BACKSLASH {
            if index + 1 == n {
                proof {
                    assert(spec_quoted(suf) == Err::<(Seq<u8>, Seq<u8>), Error>(
                        Error::UnexpectedEofInString,
                    ));
                }
                return Err(Error::UnexpectedEofInString);
            }
            let e = input[index + 1];
            proof {
                assert(suf[1] == input@[index as int + 1]);
                lemma_quoted_step(input@, index as int);
                lemma_digits_shift(input@, index as int);
                lemma_cont_run_shift(input@, index as int, 2);
            }
            let ghost step = escape_step(suf);
            if e == LF {
                let mut j = index + 1;
                while j + 1 < n && (input[j + 1] == SPACE || input[j + 1] == TAB)
                    invariant
                        index + 1 <= j,
                        j < n,
                        cont_run(input@, index as int + 2) == (j - index - 1) + cont_run(
                            input@,
                            j as int + 1,
                        ),
                    decreases n - j,
                {
                    j = j + 1;
                }
                proof {
                    assert(cont_run(input@, j as int + 1) == 0);
                    assert(step == (2 + cont_run(suf, 2), Seq::<u8>::empty()));
                    assert(step.0 == j + 1 - index);
                    lemma_quoted_prepend_assoc(pre, step.1, spec_quoted(input@.skip(j + 1 as int)));
                    assert(pre + step.1 =~= pre);
                }
                index = j + 1;
            } else if e == APOS || e == QUOTE || e == BACKSLASH {
                buffer.push(e);
                proof {
                    assert(step == (2int, seq![e]));
                    lemma_quoted_prepend_assoc(pre, step.1, spec_quoted(input@.skip(index + 2 as int)));
                    assert(pre + step.1 =~= buffer@);
                }
                index = index + 2;
            } else if e == LOWER_N {
                buffer.push(LF);
                proof {
                    assert(step == (2int, seq![LF]));
                    lemma_quoted_prepend_assoc(pre, step.1, spec_quoted(input@.skip(index + 2 as int)));
                    assert(pre + step.1 =~= buffer@);
                }
                index = index + 2;
            } else if e == LOWER_R {
                buffer.push(CR);
                proof {
                    assert(step == (2int, seq![CR]));
                    lemma_quoted_prepend_assoc(pre, step.1, spec_quoted(input@.skip(index + 2 as int)));
                    assert(pre + step.1 =~= buffer@);
                }
                index = index + 2;
            } else if e == LOWER_T {
                buffer.push(TAB);
                proof {
                    assert(step == (2int, seq![TAB]));
                    lemma_quoted_prepend_assoc(pre, step.1, spec_quoted(input@.skip(index + 2 as int)));
                    assert(pre + step.1 =~= buffer@);
                }
                index = index + 2;
            } else if e == LOWER_B {
                buffer.push(8);
                proof {
                    assert(step == (2int, seq![8u8]));
                    lemma_quoted_prepend_assoc(pre, step.1, spec_quoted(input@.skip(index + 2 as int)));
                    assert(pre + step.1 =~= buffer@);
                }
                index = index + 2;
            } else if e == LOWER_X {
                match two_hex_digits(input, index + 2) {
                    Some(v) => {
                        buffer.push(v);
                        proof {
                            assert(spec_two_hex_at(suf, 2) == spec_two_hex_at(
                                input@,
                                index as int + 2,
                            ));
                            assert(step == (4int, seq![v]));
                            lemma_quoted_prepend_assoc(
                                pre,
                                step.1,
                                spec_quoted(input@.skip(index + 4 as int)),
                            );
                            assert(pre + step.1 =~= buffer@);
                        }
                        index = index + 4;
                    },
                    None => {
                        buffer.push(BACKSLASH);
                        buffer.push(LOWER_X);
                        proof {
                            assert(spec_two_hex_at(suf, 2) == spec_two_hex_at(
                                input@,
                                index as int + 2,
                            ));
                            assert(step == (2int, seq![BACKSLASH, LOWER_X]));
                            lemma_quoted_prepend_assoc(
                                pre,
                                step.1,
                                spec_quoted(input@.skip(index + 2 as int)),
                            );
                            assert(pre + step.1 =~= buffer@);
                        }
                        index = index + 2;
                    },
                }
            } else {
                match three_digits(input, index + 1) {
                    Some(v) => {
                        buffer.push(v);
                        proof {
                            assert(spec_three_digits_at(suf, 1) == spec_three_digits_at(
                                input@,
                                index as int + 1,
                            ));
                            assert(step == (4int, seq![v]));
                            lemma_quoted_prepend_assoc(
                                pre,
                                step.1,
                                spec_quoted(input@.skip(index + 4 as int)),
                            );
                            assert(pre + step.1 =~= buffer@);
                        }
                        index = index + 4;
                    },
                    None => {
                        buffer.push(BACKSLASH);
                        buffer.push(e);
                        proof {
                            assert(spec_three_digits_at(suf, 1) == spec_three_digits_at(
                                input@,
                                index as int + 1,
                            ));
                            assert(step == (2int, seq![BACKSLASH, e]));
                            lemma_quoted_prepend_assoc(
                                pre,
                                step.1,
                                spec_quoted(input@.skip(index + 2 as int)),
                            );
                            assert(pre + step.1 =~= buffer@);
                        }
                        index = index + 2;
                    },
                }
            }
        } else {
            buffer.push(c);
            proof {
                assert(suf.drop_first() =~= input@.skip(index + 1 as int));
                assert(spec_quoted(suf) == quoted_prepend(
                    seq![c],
                    spec_quoted(input@.skip(index + 1 as int)),
                ));
                lemma_quoted_prepend_assoc(pre, seq![c], spec_quoted(input@.skip(index + 1 as int)));
                assert(pre + seq![c] =~= buffer@);
            }
            index = index + 1;
        }
    }
    proof {
        assert(input@.skip(n as int) =~= Seq::<u8>::empty());
    }
    Err(Error::UnexpectedEofInString)
}

/// On success the decoder's remainder starts at a quote inside the input.
pub proof fn lemma_spec_quoted_ok(s: Seq<u8>)
    ensures
        spec_quoted(s) matches Ok(p) ==> p.0.len() > 0 && p.0[0] == QUOTE && p.0.len() <= s.len(),
    decreases s.len(),
{
    if s.len() == 0 {
    } else if s[0] == QUOTE {
    } else if s[0] == BACKSLASH {
        if s.len() > 1 {
            lemma_escape_step_bounds(s);
            lemma_spec_quoted_ok(s.skip(escape_step(s).0));
        }
    } else {
        lemma_spec_quoted_ok(s.drop_first());
    }
}

/// Parses one atom at the head of the input: a quoted one if it starts with
/// a quote, otherwise an unquoted run.
pub open spec fn spec_atom(s: Seq<u8>) -> Result<(Seq<u8>, SpecSexp), Error> {
    if s.len() > 0 && s[0] == QUOTE {
        match spec_quoted(s.drop_first()) {
            Ok(p) => if p.0.len() > 0 && p.0[0] == QUOTE {
                Ok((p.0.drop_first(), SpecSexp::Atom(p.1)))
            } else {
                Err(Error::UnexpectedEof)
            },
            Err(e) => Err(e),
        }
    } else {
        match spec_unquoted_atom(s) {
            Ok(p) => Ok((p.0, SpecSexp::Atom(p.1))),
            Err(e) => Err(e),
        }
    }
}

/// Parses a parenthesized list at the head of the input.
pub open spec fn spec_sexp_in_list(s: Seq<u8>) -> Result<(Seq<u8>, SpecSexp), Error>
    decreases s.len(), 0nat,
    via spec_sexp_in_list_decreases
{
    if s.len() > 0 && s[0] == LPAREN {
        let r = spec_items(skip_ws(s.drop_first()));
        if r.0.len() > 0 && r.0[0] == RPAREN {
            Ok((r.0.drop_first(), SpecSexp::List(r.1)))
        } else {
            Err(Error::UnexpectedEof)
        }
    } else {
        Err(Error::UnexpectedEof)
    }
}

#[via_fn]
proof fn spec_sexp_in_list_decreases(s: Seq<u8>) {
    if s.len() > 0 && s[0] == LPAREN {
        lemma_skip_ws_len(s.drop_first());
    }
}

/// Parses one expression (atom or list) and the whitespace after it.
pub open spec fn spec_sexp_nlb(s: Seq<u8>) -> Result<(Seq<u8>, SpecSexp), Error>
    decreases s.len(), 1nat,
{
    if s.len() > 0 && s[0] == LPAREN {
        match spec_sexp_in_list(s) {
            Ok(p) => Ok((skip_ws(p.0), p.1)),
            Err(e) => Err(e),
        }
    } else {
        match spec_atom(s) {
            Ok(p) => Ok((skip_ws(p.0), p.1)),
            Err(e) => Err(e),
        }
    }
}

/// Parses expressions until one fails, returning the remainder and the
/// trees in order.  Parsing always consumes input on success, so the inner
/// guard is always taken; see `lemma_parse_progress`.
pub open spec fn spec_items(s: Seq<u8>) -> (Seq<u8>, Seq<SpecSexp>)
    decreases s.len(), 2nat,
{
    match spec_sexp_nlb(s) {
        Ok(p) => if p.0.len() < s.len() {
            (spec_items(p.0).0, seq![p.1] + spec_items(p.0).1)
        } else {
            (s, Seq::empty())
        },
        Err(_) => (s, Seq::empty()),
    }
}

/// The remainder of an item sequence is a suffix-length of its input.
pub proof fn lemma_items_len(s: Seq<u8>)
    ensures
        spec_items(s).0.len() <= s.len(),
    decreases s.len(),
{
    match spec_sexp_nlb(s) {
        Ok(p) => {
            if p.0.len() < s.len() {
                lemma_items_len(p.0);
            }
        },
        Err(_) => {},
    }
}

/// Every successful parse consumes at least one byte.
pub proof fn lemma_parse_progress(s: Seq<u8>)
    ensures
        spec_atom(s) matches Ok(p) ==> p.0.len() < s.len(),
        spec_sexp_in_list(s) matches Ok(p) ==> p.0.len() < s.len(),
        spec_sexp_nlb(s) matches Ok(p) ==> p.0.len() < s.len(),
{
    if s.len() > 0 && s[0] == QUOTE {
        lemma_spec_quoted_ok(s.drop_first());
    } else {
        lemma_scan_unquoted_split(s, 0);
    }
    if s.len() > 0 && s[0] == LPAREN {
        lemma_skip_ws_len(s.drop_first());
        lemma_items_len(skip_ws(s.drop_first()));
    }
    match spec_sexp_nlb(s) {
        Ok(_) => {
            if s.len() > 0 && s[0] == LPAREN {
                match spec_sexp_in_list(s) {
                    Ok(p) => {
                        lemma_skip_ws_len(p.0);
                    },
                    Err(_) => {},
                }
            } else {
                match spec_atom(s) {
                    Ok(p) => {
                        lemma_skip_ws_len(p.0);
                    },
                    Err(_) => {},
                }
            }
        },
        Err(_) => {},
    }
}

/// When a parse succeeds, the item sequence extends by that tree.
pub proof fn lemma_items_unfold(s: Seq<u8>)
    requires
        spec_sexp_nlb(s) matches Ok(p),
    ensures
        spec_sexp_nlb(s) matches Ok(p) ==> spec_items(s) == (
            spec_items(p.0).0,
            seq![p.1] + spec_items(p.0).1,
        ),
{
    lemma_parse_progress(s);
}

/// Whether the first byte of the input is `c`.
fn first_char_is(c: u8, input: &[u8]) -> (r: bool)
    ensures
        r == (input@.len() > 0 && input@[0] == c),
{
    if input.len() > 0 {
        input[0] == c
    } else {
        false
    }
}

/// Consumes one required byte, or fails.
fn expect_char(c: u8, input: &[u8]) -> (r: Result<&[u8], Error>)
    ensures
        (input@.len() > 0 && input@[0] == c) ==> (r matches Ok(rest) && rest@
            == input@.drop_first()),
        !(input@.len() > 0 && input@[0] == c) ==> (r matches Err(e) && e
            == Error::UnexpectedEof),
{
    if first_char_is(c, input) {
        let rest = slice_subrange(input, 1, input.len());
        proof {
            assert(rest@ =~= input@.drop_first());
        }
        Ok(rest)
    } else {
        Err(Error::UnexpectedEof)
    }
}

/// Parses one atom.
fn atom(input: &[u8]) -> (r: Result<(&[u8], Sexp), Error>)
    ensures
        r matches Ok(p) ==> spec_atom(input@) matches Ok(q) && q.0 == p.0@ && q.1 == p.1@,
        r matches Err(e) ==> spec_atom(input@) == Err::<(Seq<u8>, SpecSexp), Error>(e),
{
    if first_char_is(QUOTE, input) {
        let rest0 = match expect_char(QUOTE, input) {
            Ok(rest) => rest,
            Err(e) => {
                return Err(e);
            },
        };
        match quoted_string(rest0) {
            Ok((rest1, data)) => {
                match expect_char(QUOTE, rest1) {
                    Ok(rest2) => Ok((rest2, Sexp::Atom(data))),
                    Err(e) => Err(e),
                }
            },
            Err(e) => Err(e),
        }
    } else {
        match unquoted_string(input) {
            Ok((rest, data)) => Ok((rest, Sexp::Atom(data))),
            Err(e) => Err(e),
        }
    }
}

/// Parses a parenthesized list.
fn sexp_in_list(input: &[u8]) -> (r: Result<(&[u8], Sexp), Error>)
    ensures
        r matches Ok(p) ==> spec_sexp_in_list(input@) matches Ok(q) && q.0 == p.0@ && q.1
            == p.1@,
        r matches Err(e) ==> spec_sexp_in_list(input@) == Err::<(Seq<u8>, SpecSexp), Error>(e),
    decreases input@.len(), 0nat,
{
    let body0 = match expect_char(LPAREN, input) {
        Ok(rest) => rest,
        Err(e) => {
            return Err(e);
        },
    };
    let mut cur = space_or_comments(body0);
    let ghost body = skip_ws(input@.drop_first());
    let mut elems: Vec<Sexp> = Vec::new();
    proof {
        lemma_skip_ws_len(input@.drop_first());
        assert(view_elems(elems@) =~= Seq::<SpecSexp>::empty());
        assert(view_elems(elems@) + spec_items(cur@).1 =~= spec_items(cur@).1);
    }
    loop
        invariant_except_break
            cur@.len() < input@.len(),
            spec_items(body).0 == spec_items(cur@).0,
            spec_items(body).1 == view_elems(elems@) + spec_items(cur@).1,
        ensures
            spec_items(body).0 == cur@,
            spec_items(body).1 == view_elems(elems@),
            cur@.len() < input@.len(),
        decreases cur@.len(),
    {
        match sexp_no_leading_blank(cur) {
            Ok((rest, sexp)) => {
                proof {
                    lemma_items_unfold(cur@);
                    lemma_view_elems_snoc(elems@, sexp);
                    assert(view_elems(elems@.push(sexp)) + spec_items(rest@).1 =~= view_elems(
                        elems@,
                    ) + (seq![sexp@] + spec_items(rest@).1));
                }
                elems.push(sexp);
                cur = rest;
            },
            Err(_) => {
                proof {
                    assert(spec_items(cur@).0 == cur@);
                    assert(spec_items(cur@).1 =~= Seq::<SpecSexp>::empty());
                    assert(view_elems(elems@) + Seq::<SpecSexp>::empty() =~= view_elems(elems@));
                }
                break;
            },
        }
    }
    match expect_char(RPAREN, cur) {
        Ok(rest) => Ok((rest, Sexp::List(elems))),
        Err(e) => Err(e),
    }
}

/// Parses one expression and the whitespace that follows it.
fn sexp_no_leading_blank(input: &[u8]) -> (r: Result<(&[u8], Sexp), Error>)
    ensures
        r matches Ok(p) ==> spec_sexp_nlb(input@) matches Ok(q) && q.0 == p.0@ && q.1 == p.1@,
        r matches Err(e) ==> spec_sexp_nlb(input@) == Err::<(Seq<u8>, SpecSexp), Error>(e),
    decreases input@.len(), 1nat,
{
    if first_char_is(LPAREN, input) {
        match sexp_in_list(input) {
            Ok((rest, sexp)) => Ok((space_or_comments(rest), sexp)),
            Err(e) => Err(e),
        }
    } else {
        match atom(input) {
            Ok((rest, sexp)) => Ok((space_or_comments(rest), sexp)),
            Err(e) => Err(e),
        }
    }
}

/// What `from_slice_allow_remaining` returns: one expression parsed after
/// leading whitespace, with the unconsumed suffix.
pub open spec fn spec_parse_one_allow_remaining(s: Seq<u8>) -> Result<(Seq<u8>, SpecSexp), Error> {
    spec_sexp_nlb(skip_ws(s))
}

/// What `from_slice` returns: one expression, with leftover bytes rejected.
pub open spec fn spec_parse_one(s: Seq<u8>) -> Result<SpecSexp, Error> {
    match spec_parse_one_allow_remaining(s) {
        Ok(p) => if p.0.len() == 0 {
            Ok(p.1)
        } else {
            Err(Error::UnexpectedEof)
        },
        Err(e) => Err(e),
    }
}

/// What `from_slice_multi` returns: expressions until the input is
/// exhausted, with leftover bytes rejected.
pub open spec fn spec_parse_many(s: Seq<u8>) -> Result<Seq<SpecSexp>, Error> {
    if spec_items(skip_ws(s)).0.len() == 0 {
        Ok(spec_items(skip_ws(s)).1)
    } else {
        Err(Error::UnexpectedEof)
    }
}

/// Deserializes a tree from bytes, returning both the tree and the
/// remaining bytes.
pub fn from_slice_allow_remaining(input: &[u8]) -> (r: Result<(&[u8], Sexp), Error>)
    ensures
        r matches Ok(p) ==> spec_parse_one_allow_remaining(input@) matches Ok(q) && q.0 == p.0@
            && q.1 == p.1@,
        r matches Err(e) ==> spec_parse_one_allow_remaining(input@) == Err::<
            (Seq<u8>, SpecSexp),
            Error,
        >(e),
{
    let input1 = space_or_comments(input);
    sexp_no_leading_blank(input1)
}

/// Deserializes a tree from bytes; fails on remaining bytes.
pub fn from_slice(input: &[u8]) -> (r: Result<Sexp, Error>)
    ensures
        r matches Ok(s) ==> spec_parse_one(input@) matches Ok(q) && q == s@,
        r matches Err(e) ==> spec_parse_one(input@) == Err::<SpecSexp, Error>(e),
{
    match from_slice_allow_remaining(input) {
        Ok((remaining, sexp)) => {
            if remaining.is_empty() {
                Ok(sexp)
            } else {
                Err(Error::UnexpectedEof)
            }
        },
        Err(e) => Err(e),
    }
}

/// Deserializes any number of trees from bytes; fails on remaining bytes.
pub fn from_slice_multi(input: &[u8]) -> (r: Result<Vec<Sexp>, Error>)
    ensures
        r matches Ok(v) ==> spec_parse_many(input@) matches Ok(q) && q == view_elems(v@),
        r matches Err(e) ==> spec_parse_many(input@) == Err::<Seq<SpecSexp>, Error>(e),
{
    let mut cur = space_or_comments(input);
    let ghost body = skip_ws(input@);
    let mut elems: Vec<Sexp> = Vec::new();
    proof {
        assert(view_elems(elems@) =~= Seq::<SpecSexp>::empty());
        assert(view_elems(elems@) + spec_items(cur@).1 =~= spec_items(cur@).1);
    }
    loop
        invariant_except_break
            spec_items(body).0 == spec_items(cur@).0,
            spec_items(body).1 == view_elems(elems@) + spec_items(cur@).1,
        ensures
            spec_items(body).0 == cur@,
            spec_items(body).1 == view_elems(elems@),
        decreases cur@.len(),
    {
        match sexp_no_leading_blank(cur) {
            Ok((rest, sexp)) => {
                proof {
                    lemma_parse_progress(cur@);
                    lemma_items_unfold(cur@);
                    lemma_view_elems_snoc(elems@, sexp);
                    assert(view_elems(elems@.push(sexp)) + spec_items(rest@).1 =~= view_elems(
                        elems@,
                    ) + (seq![sexp@] + spec_items(rest@).1));
                }
                elems.push(sexp);
                cur = rest;
            },
            Err(_) => {
                proof {
                    assert(spec_items(cur@).0 == cur@);
                    assert(spec_items(cur@).1 =~= Seq::<SpecSexp>::empty());
                    assert(view_elems(elems@) + Seq::<SpecSexp>::empty() =~= view_elems(elems@));
                }
                break;
            },
        }
    }
    if cur.is_empty() {
        Ok(elems)
    } else {
        Err(Error::UnexpectedEof)
    }
}

} // verus!

