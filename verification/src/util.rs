//! Quoting for the shell.

use vstd::prelude::*;
use crate::text::{chars_of, string_of};

verus! {

/// What stands for the character `c` between single quotes: the character itself, or
/// for a single quote the four characters that end the quoted text, add an escaped
/// quote and begin a quoted text again.
pub open spec fn quoted_char(c: char) -> Seq<char> {
    if c == '\'' {
        seq!['\'', '\\', '\'', '\'']
    } else {
        seq![c]
    }
}

/// The characters of `s`, each as it stands between single quotes.
pub open spec fn quoted_body(s: Seq<char>) -> Seq<char>
    decreases s.len(),
{
    if s.len() == 0 {
        Seq::empty()
    } else {
        quoted_body(s.drop_last()) + quoted_char(s.last())
    }
}

/// `s` as one word of a POSIX shell, between single quotes.
pub open spec fn sh_quote_spec(s: Seq<char>) -> Seq<char> {
    seq!['\''] + quoted_body(s) + seq!['\'']
}

/// Quotes `s` for a POSIX shell.
pub fn sh_quote(s: &str) -> (r: String)
    ensures
        r@ == sh_quote_spec(s@),
{
    let v = chars_of(s);
    let mut out: Vec<char> = Vec::new();
    out.push('\'');
    let mut i: usize = 0;
    while i < v.len()
        invariant
            i <= v.len(),
            out@ == seq!['\''] + quoted_body(v@.take(i as int)),
        decreases v.len() - i,
    {
        let c = v[i];
        proof {
            assert(v@.take(i + 1).drop_last() =~= v@.take(i as int));
            assert(v@.take(i + 1).last() == c);
        }
        if c == '\'' {
            out.push('\'');
            out.push('\\');
            out.push('\'');
            out.push('\'');
        } else {
            out.push(c);
        }
        assert(out@ =~= seq!['\''] + quoted_body(v@.take(i + 1)));
        i += 1;
    }
    assert(v@.take(v.len() as int) == v@);
    out.push('\'');
    assert(out@ =~= sh_quote_spec(s@));
    string_of(&out)
}

} // verus!
