//! The escape policy: when an atom needs quoting, and the backslash-escape
//! encoding used inside quoted atoms.  Parser and all writers share it.

use vstd::prelude::*;

verus! {

/// ASCII byte values used by the grammar.
pub const QUOTE: u8 = 34;

pub const LPAREN: u8 = 40;

pub const RPAREN: u8 = 41;

pub const SEMI: u8 = 59;

pub const BACKSLASH: u8 = 92;

pub const HASH: u8 = 35;

pub const PIPE: u8 = 124;

pub const SPACE: u8 = 32;

pub const TAB: u8 = 9;

pub const CR: u8 = 13;

pub const LF: u8 = 10;

pub const TILDE: u8 = 126;

pub const LOWER_N: u8 = 110;

pub const LOWER_T: u8 = 116;

pub const LOWER_R: u8 = 114;

pub const LOWER_B: u8 = 98;

pub const LOWER_X: u8 = 120;

pub const APOS: u8 = 39;


/// A byte that, on its own, forces an atom to be quoted: controls and space,
/// DEL and everything above ASCII, and the structural bytes of the format.
pub open spec fn byte_needs_escape(c: u8) -> bool {
    c <= 32 || c >= 127 || c == QUOTE || c == LPAREN || c == RPAREN || c == SEMI || c == BACKSLASH
}

/// Adjacent byte pair reserved for block-comment syntax.
pub open spec fn block_marker(a: u8, b: u8) -> bool {
    (a == HASH && b == PIPE) || (a == PIPE && b == HASH)
}

/// Whether an atom's bytes must be written in quoted form: empty atoms, any
/// byte outside the printable safe range, and the reserved pairs `#|`, `|#`.
pub open spec fn spec_must_escape(data: Seq<u8>) -> bool {
    ||| data.len() == 0
    ||| exists|i: int| 0 <= i < data.len() && byte_needs_escape(data[i])
    ||| exists|i: int| 1 <= i < data.len() && #[trigger] block_marker(data[i - 1], data[i])
}

/// The encoded form of one byte inside a quoted atom: backslash and quote
/// are escaped with a backslash, the named controls get their short form,
/// printable ASCII passes through, and everything else becomes a decimal
/// `\DDD` escape.
pub open spec fn escape_byte(c: u8) -> Seq<u8> {
    if c == BACKSLASH || c == QUOTE {
        seq![BACKSLASH, c]
    } else if c == LF {
        seq![BACKSLASH, LOWER_N]
    } else if c == TAB {
        seq![BACKSLASH, LOWER_T]
    } else if c == CR {
        seq![BACKSLASH, LOWER_R]
    } else if c == 8 {
        seq![BACKSLASH, LOWER_B]
    } else if SPACE <= c && c <= TILDE {
        seq![c]
    } else {
        seq![BACKSLASH, (48 + c / 100) as u8, (48 + (c / 10) % 10) as u8, (48 + c % 10) as u8]
    }
}

/// The body of a quoted atom: each byte encoded in order.
pub open spec fn escape_bytes(data: Seq<u8>) -> Seq<u8>
    decreases data.len(),
{
    if data.len() == 0 {
        Seq::empty()
    } else {
        escape_byte(data[0]) + escape_bytes(data.drop_first())
    }
}

/// The full quoted form of an atom: the encoded body between two quotes.
pub open spec fn quoted_rendering(data: Seq<u8>) -> Seq<u8> {
    seq![QUOTE] + escape_bytes(data) + seq![QUOTE]
}

/// How an atom is written: quoted exactly when the escape policy demands it,
/// otherwise its bytes pass through unchanged.
pub open spec fn atom_rendering(data: Seq<u8>) -> Seq<u8> {
    if spec_must_escape(data) {
        quoted_rendering(data)
    } else {
        data
    }
}

/// Encoding one more byte extends the encoded body on the right.
pub proof fn lemma_escape_bytes_snoc(s: Seq<u8>, x: u8)
    ensures
        escape_bytes(s.push(x)) == escape_bytes(s) + escape_byte(x),
    decreases s.len(),
{
    let t = s.push(x);
    assert(escape_bytes(t) == escape_byte(t[0]) + escape_bytes(t.drop_first()));
    if s.len() == 0 {
        assert(t.drop_first() =~= s);
        assert(t[0] == x);
        assert(escape_bytes(t) =~= escape_bytes(s) + escape_byte(x));
    } else {
        assert(t.drop_first() =~= s.drop_first().push(x));
        lemma_escape_bytes_snoc(s.drop_first(), x);
        assert(t[0] == s[0]);
        assert(escape_bytes(t) =~= escape_bytes(s) + escape_byte(x));
    }
}

/// Decides whether an atom's bytes must be quoted, exactly as the escape
/// policy defines it.
pub fn must_escape(data: &[u8]) -> (r: bool)
    ensures
        r == spec_must_escape(data@),
{
    if data.is_empty() {
        return true;
    }
    let n = data.len();
    let mut i: usize = 0;
    while i < n
        invariant
            n == data@.len(),
            0 < n,
            i <= n,
            forall|j: int| 0 <= j < i ==> !byte_needs_escape(data@[j]),
            forall|j: int| 1 <= j < i ==> !(#[trigger] block_marker(data@[j - 1], data@[j])),
        decreases n - i,
    {
        let c = data[i];
        if c <= 32 || c >= 127 || c == QUOTE || c == LPAREN || c == RPAREN || c == SEMI || c == BACKSLASH
        {
            proof {
                assert(byte_needs_escape(data@[i as int]));
            }
            return true;
        }
        if i > 0 {
            let prev = data[i - 1];
            if (c == PIPE && prev == HASH) || (c == HASH && prev == PIPE) {
                proof {
                    assert(block_marker(data@[i as int - 1], data@[i as int]));
                }
                return true;
            }
        }
        i = i + 1;
    }
    false
}

/// Appends the quoted form of `data` to `out`.
#[verifier::loop_isolation(false)]
pub fn write_escaped(data: &[u8], out: &mut Vec<u8>)
    ensures
        final(out)@ == old(out)@ + quoted_rendering(data@),
{
    out.push(QUOTE);
    let n = data.len();
    let mut i: usize = 0;
    while i < n
        invariant
            out@ == old(out)@ + seq![QUOTE] + escape_bytes(data@.take(i as int)),
            i <= n,
        decreases n - i,
    {
        let c = data[i];
        proof {
            assert(data@.take(i + 1 as int) =~= data@.take(i as int).push(data@[i as int]));
            lemma_escape_bytes_snoc(data@.take(i as int), data@[i as int]);
        }
        if c == BACKSLASH || c == QUOTE {
            out.push(BACKSLASH);
            out.push(c);
        } else if c == LF {
            out.push(BACKSLASH);
            out.push(LOWER_N);
        } else if c == TAB {
            out.push(BACKSLASH);
            out.push(LOWER_T);
        } else if c == CR {
            out.push(BACKSLASH);
            out.push(LOWER_R);
        } else if c == 8 {
            out.push(BACKSLASH);
            out.push(LOWER_B);
        } else if c >= SPACE && c <= TILDE {
            out.push(c);
        } else {
            out.push(BACKSLASH);
            out.push(48 + c / 100);
            out.push(48 + (c / 10) % 10);
            out.push(48 + c % 10);
        }
        proof {
            assert(out@ =~= old(out)@ + seq![QUOTE] + escape_bytes(data@.take(i + 1 as int)));
        }
        i = i + 1;
    }
    out.push(QUOTE);
    proof {
        assert(data@.take(n as int) =~= data@);
        assert(out@ =~= old(out)@ + quoted_rendering(data@));
    }
}

} // verus!
