//! Names of worktrees: the normal form under which a worktree is known.
//!
//! A name is normalised by lowercasing it, cutting it to a fixed number of bytes and
//! replacing every run of bytes other than `a`-`z` and `0`-`9` by one hyphen. The cut
//! comes first, so a character that it splits turns into a hyphen like any other.

use vstd::prelude::*;
use vstd::utf8::encode_utf8;
use crate::text::{
    lemma_strip, lowercase, lowercased, run_len, string_of, strip, strip_range, trim, CharClass,
};

verus! {

/// The number of bytes of a name that count.
pub const NAME_CAP: usize = 24;

/// Whether `b` is one of the bytes that a normal name keeps: a lowercase ASCII letter or
/// an ASCII digit.
pub open spec fn is_name_byte(b: u8) -> bool {
    (0x61 <= b <= 0x7a) || (0x30 <= b <= 0x39)
}

/// The bytes with every run of other bytes than name bytes replaced by one hyphen.
pub open spec fn collapse(bytes: Seq<u8>) -> Seq<char>
    decreases bytes.len(),
{
    if bytes.len() == 0 {
        Seq::empty()
    } else if is_name_byte(bytes.last()) {
        collapse(bytes.drop_last()).push(bytes.last() as char)
    } else if bytes.len() >= 2 && !is_name_byte(bytes[bytes.len() - 2]) {
        collapse(bytes.drop_last())
    } else {
        collapse(bytes.drop_last()).push('-')
    }
}

/// The first `cap` bytes, or all of them if there are fewer.
pub open spec fn capped(bytes: Seq<u8>, cap: nat) -> Seq<u8> {
    if bytes.len() > cap {
        bytes.take(cap as int)
    } else {
        bytes
    }
}

/// The normal form of a lowercased name of which `cap` bytes count: cut, collapsed, and
/// without hyphens at either end.
pub open spec fn normalize(bytes: Seq<u8>, cap: nat) -> Seq<char> {
    strip(collapse(capped(bytes, cap)), CharClass::Dash)
}

/// The normal form of any name: white space cut off both ends, lowercased, normalised
/// over its UTF-8 bytes.
pub open spec fn slug_spec(name: Seq<char>) -> Seq<char> {
    normalize(encode_utf8(lowercased(strip(name, CharClass::Space))), NAME_CAP as nat)
}

/// Whether `c` may occur in a normal name.
pub open spec fn is_name_char(c: char) -> bool {
    (0x61 <= c as u32 <= 0x7a) || (0x30 <= c as u32 <= 0x39) || c == '-'
}

/// Whether `s` has the shape of a normal name: only lowercase letters, digits and
/// hyphens, no hyphen at either end and no two hyphens in a row.
pub open spec fn is_normal(s: Seq<char>) -> bool {
    &&& forall|i: int| 0 <= i < s.len() ==> is_name_char(#[trigger] s[i])
    &&& s.len() > 0 ==> s[0] != '-' && s.last() != '-'
    &&& forall|i: int| 0 <= i < s.len() - 1 ==> !(#[trigger] s[i] == '-' && s[i + 1] == '-')
}

/// Computes `normalize` for a name that is lowercased already.
pub fn normalize_name(lowered: &str, cap: usize) -> (r: String)
    ensures
        r@ == normalize(encode_utf8(lowered@), cap as nat),
        is_normal(r@),
        r@.len() <= cap,
{
    proof {
        lemma_normalize(encode_utf8(lowered@), cap as nat);
    }
    let bytes = lowered.as_bytes();
    let n: usize = if bytes.len() > cap {
        cap
    } else {
        bytes.len()
    };
    let ghost cut = capped(bytes@, cap as nat);
    let mut out: Vec<char> = Vec::new();
    let mut prev_dash = false;
    let mut k: usize = 0;
    while k < n
        invariant
            k <= n <= bytes.len(),
            n == cut.len(),
            forall|i: int| 0 <= i < n ==> cut[i] == bytes@[i],
            out@ == collapse(cut.take(k as int)),
            prev_dash == (k > 0 && !is_name_byte(cut[k - 1])),
        decreases n - k,
    {
        let b: u8 = bytes[k];
        proof {
            let next = cut.take(k + 1);
            assert(next.drop_last() =~= cut.take(k as int));
            assert(next.last() == b);
            if k > 0 {
                assert(next[next.len() - 2] == cut[k - 1]);
            }
        }
        if (0x61 <= b && b <= 0x7a) || (0x30 <= b && b <= 0x39) {
            out.push(b as char);
            prev_dash = false;
        } else {
            if !prev_dash {
                out.push('-');
            }
            prev_dash = true;
        }
        k += 1;
    }
    assert(cut.take(n as int) == cut);
    assert(out@.subrange(0, out@.len() as int) == out@);
    let kept = strip_range(&out, 0, out.len(), CharClass::Dash);
    string_of(&kept)
}

/// The normal form of a worktree name.
pub fn slug(name: &str) -> (r: String)
    ensures
        r@ == slug_spec(name@),
        is_normal(r@),
        r@.len() <= NAME_CAP,
{
    let lowered = lowercase(trim(name).as_str());
    normalize_name(lowered.as_str(), NAME_CAP)
}

/// What collapsing gives: only characters of names, as many as there are bytes at
/// most, never two hyphens in a row, and a hyphen at the end just where the last byte
/// is no name byte.
pub proof fn lemma_collapse(bytes: Seq<u8>)
    ensures
        collapse(bytes).len() <= bytes.len(),
        forall|i: int| 0 <= i < collapse(bytes).len() ==> is_name_char(#[trigger] collapse(bytes)[i]),
        forall|i: int|
            0 <= i < collapse(bytes).len() - 1 ==> !(#[trigger] collapse(bytes)[i] == '-'
                && collapse(bytes)[i + 1] == '-'),
        bytes.len() > 0 ==> collapse(bytes).len() > 0 && (collapse(bytes).last() == '-')
            == !is_name_byte(bytes.last()),
    decreases bytes.len(),
{
    if bytes.len() > 0 {
        let init = bytes.drop_last();
        lemma_collapse(init);
        let c = collapse(bytes);
        let ci = collapse(init);
        if bytes.len() >= 2 {
            assert(init.last() == bytes[bytes.len() - 2]);
        }
        assert forall|i: int| 0 <= i < c.len() implies is_name_char(#[trigger] c[i]) by {
            if i < ci.len() {
                assert(c[i] == ci[i]);
            }
        }
        assert forall|i: int| 0 <= i < c.len() - 1 implies !(#[trigger] c[i] == '-' && c[i + 1]
            == '-') by {
            if i + 1 < ci.len() {
                assert(c[i] == ci[i] && c[i + 1] == ci[i + 1]);
            } else {
                assert(c[i] == ci[i]);
            }
        }
    }
}

/// Where no byte is a name byte, collapsing leaves one hyphen, or nothing of nothing.
pub proof fn lemma_collapse_nothing(bytes: Seq<u8>)
    requires
        forall|i: int| 0 <= i < bytes.len() ==> !is_name_byte(#[trigger] bytes[i]),
    ensures
        collapse(bytes) == (if bytes.len() == 0 { Seq::<char>::empty() } else { seq!['-'] }),
    decreases bytes.len(),
{
    if bytes.len() > 0 {
        let init = bytes.drop_last();
        assert forall|i: int| 0 <= i < init.len() implies !is_name_byte(#[trigger] init[i]) by {
            assert(init[i] == bytes[i]);
        }
        lemma_collapse_nothing(init);
        assert(!is_name_byte(bytes[bytes.len() - 1]));
        if bytes.len() >= 2 {
            assert(!is_name_byte(bytes[bytes.len() - 2]));
        } else {
            assert(collapse(bytes) =~= seq!['-']);
        }
    }
}

/// A normalised name has the shape of a normal name and is no longer than the cap.
pub proof fn lemma_normalize(bytes: Seq<u8>, cap: nat)
    ensures
        is_normal(normalize(bytes, cap)),
        normalize(bytes, cap).len() <= cap,
{
    let cut = capped(bytes, cap);
    let c = collapse(cut);
    lemma_collapse(cut);
    lemma_strip(c, CharClass::Dash);
    let a = run_len(c, CharClass::Dash) as int;
    let r = normalize(bytes, cap);
    assert forall|i: int| 0 <= i < r.len() implies is_name_char(#[trigger] r[i]) by {
        assert(r[i] == c[a + i]);
    }
    assert forall|i: int| 0 <= i < r.len() - 1 implies !(#[trigger] r[i] == '-' && r[i + 1]
        == '-') by {
        assert(r[i] == c[a + i]);
        assert(r[i + 1] == c[a + i + 1]);
    }
}

/// A name without a letter or a digit among the bytes that count has the empty normal
/// form.
pub proof fn lemma_normalize_nothing(bytes: Seq<u8>, cap: nat)
    requires
        forall|i: int| 0 <= i < bytes.len() && i < cap ==> !is_name_byte(#[trigger] bytes[i]),
    ensures
        normalize(bytes, cap).len() == 0,
{
    let cut = capped(bytes, cap);
    assert forall|i: int| 0 <= i < cut.len() implies !is_name_byte(#[trigger] cut[i]) by {
        assert(cut[i] == bytes[i]);
    }
    lemma_collapse_nothing(cut);
    lemma_strip(collapse(cut), CharClass::Dash);
}

/// Only the bytes up to the cap count: the name is cut before it is collapsed.
pub proof fn lemma_normalize_cut(bytes: Seq<u8>, cap: nat)
    ensures
        normalize(bytes, cap) == normalize(capped(bytes, cap), cap),
{
    assert(capped(capped(bytes, cap), cap) == capped(bytes, cap));
}

/// The normal form of any name has the shape of a normal name and is no longer than
/// the cap.
pub proof fn lemma_slug_shape(name: Seq<char>)
    ensures
        is_normal(slug_spec(name)),
        slug_spec(name).len() <= NAME_CAP,
{
    lemma_normalize(encode_utf8(lowercased(strip(name, CharClass::Space))), NAME_CAP as nat);
}

} // verus!
