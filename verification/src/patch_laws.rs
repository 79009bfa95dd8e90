//! Laws of the configuration patch: what a second run of it does.
//!
//! A second run with the same suffix and offset finds the identifier suffixed already
//! and leaves it alone. Ports are another matter: the text does not tell whether a
//! port was moved before, so a port that moved once moves again, unless the offset is
//! 0 or the port would leave the range of port numbers. A text is settled where no
//! port of it moves twice. The laws of this module say that a second run changes
//! nothing in what the first run made of a settled text, and that it changes something
//! or fails for every other text; with the offset 0 every text is settled.

use vstd::prelude::*;
use vstd::utf8::encode_utf8;
use crate::patch_shapes::{
    closes_at, is_inline, is_key, lemma_any_key_end, lemma_identifier_or_port, lemma_key_chars,
    lemma_key_end_frame, lemma_key_region, lemma_keys, lemma_last_close, lemma_split_feed,
    lemma_split_join, lemma_split_lines, lemma_split_stripped, lemma_url_at, lemma_url_at_from,
    no_ht,
};
use crate::supabase::{
    any_key_end, declared_port, identifier_key, identifier_parts, in_port_range, is_tail,
    join_lines, key_end, last_close, lemma_patch_lines_each, patch_identifier, patch_line_spec,
    patch_lines, patch_text, port_keys, port_parts, shift_urls, shifted_port, split_lines,
    suffix_spec, url_at, url_heads, with_suffix, PatchError, SUFFIX_CAP,
};
use crate::text::{
    all_digits, decimal, decimal_value, ends_with, in_class, is_digit, is_space, lemma_decimal,
    lemma_run_len, lemma_run_len_is, lowercased, run_len, strip, strip_end, CharClass,
};
use crate::worktree::{is_name_char, lemma_normalize};

verus! {

/// Moving ports keeps the first character, and keeps the empty string empty.
pub proof fn lemma_shift_first(s: Seq<char>, offset: int)
    ensures
        (shift_urls(s, offset).len() == 0) == (s.len() == 0),
        s.len() > 0 ==> shift_urls(s, offset)[0] == s[0],
        url_at(s) is Some ==> shift_urls(s, offset).len() >= 2 && shift_urls(s, offset)[1] == s[1],
{
    if s.len() > 0 {
        match url_at(s) {
            Some((h, d)) => {
                lemma_url_at(s);
                let r = s.take(h) + shifted_port(s.subrange(h, h + d), offset) + shift_urls(
                    s.skip(h + d),
                    offset,
                );
                assert(r[0] == s.take(h)[0]);
                assert(r[1] == s.take(h)[1]);
            },
            None => {},
        }
    }
}

/// Where the result of moving ports holds no `ht`, nothing was moved: up to there the
/// result is the text itself, and from there on it is the rest with its ports moved.
pub proof fn lemma_shift_plain_prefix(s: Seq<char>, offset: int, k: int)
    requires
        0 <= k <= shift_urls(s, offset).len(),
        no_ht(shift_urls(s, offset), k),
    ensures
        k <= s.len(),
        shift_urls(s, offset).take(k) == s.take(k),
        shift_urls(s, offset).skip(k) == shift_urls(s.skip(k), offset),
    decreases k,
{
    let r = shift_urls(s, offset);
    if k == 0 {
        assert(s.skip(0) == s);
        assert(r.take(0) =~= s.take(0));
        assert(r.skip(0) == r);
    } else {
        lemma_shift_first(s, offset);
        if url_at(s) is Some {
            assert(r[0] == 'h' && r[1] == 't') by {
                lemma_url_at(s);
            }
            assert(false);
        }
        let t = s.skip(1);
        let rt = shift_urls(t, offset);
        assert(r == seq![s[0]] + rt);
        assert forall|j: int| 0 <= j < k - 1 && j + 1 < rt.len() implies !(#[trigger] rt[j] == 'h'
            && rt[j + 1] == 't') by {
            assert(rt[j] == r[j + 1]);
            assert(rt[j + 1] == r[j + 2]);
        }
        lemma_shift_plain_prefix(t, offset, k - 1);
        assert(r.take(k) =~= seq![s[0]] + rt.take(k - 1));
        assert(s.take(k) =~= seq![s[0]] + t.take(k - 1));
        assert(r.skip(k) =~= rt.skip(k - 1));
        assert(s.skip(k) =~= t.skip(k - 1));
    }
}

/// If the result of moving ports begins with a loopback URL, so did the text.
pub proof fn lemma_shift_keeps_start(s: Seq<char>, offset: int)
    requires
        url_at(shift_urls(s, offset)) is Some,
    ensures
        url_at(s) is Some,
{
    let r = shift_urls(s, offset);
    if url_at(s) is None {
        lemma_url_at(r);
        lemma_shift_first(s, offset);
        let (h, d) = url_at(r)->0;
        let t = s.skip(1);
        let rt = shift_urls(t, offset);
        assert(r == seq![s[0]] + rt);
        assert forall|j: int| 0 <= j < h && j + 1 < rt.len() implies !(#[trigger] rt[j] == 'h'
            && rt[j + 1] == 't') by {
            assert(rt[j] == r[j + 1]);
            assert(rt[j + 1] == r[j + 2]);
        }
        lemma_shift_plain_prefix(t, offset, h);
        assert(s.take(h + 1) =~= seq![s[0]] + t.take(h));
        assert(r.take(h + 1) =~= seq![s[0]] + rt.take(h));
        assert(s.take(h) =~= s.take(h + 1).take(h));
        assert(r.take(h) =~= r.take(h + 1).take(h));
        assert(s[h] == s.take(h + 1)[h]);
        assert(r[h] == r.take(h + 1)[h]);
        let k = choose|k: int| 0 <= k < 4 && r.take(h) == #[trigger] url_heads()[k];
        lemma_url_at_from(s, k);
    }
}

/// Whether the port that the digits give comes to rest: moved a second time it would
/// be no port number, if it moves at all.
pub open spec fn port_settled(digits: Seq<char>, offset: int) -> bool {
    ||| offset == 0
    ||| !in_port_range(decimal_value(digits) + offset)
    ||| !in_port_range(decimal_value(digits) + 2 * offset)
}

/// Whether the port of every loopback URL in `s` comes to rest.
pub open spec fn urls_settled(s: Seq<char>, offset: int) -> bool
    decreases s.len(),
{
    if s.len() == 0 {
        true
    } else {
        match url_at(s) {
            Some((h, d)) => port_settled(s.subrange(h, h + d), offset) && urls_settled(
                s.skip(h + d),
                offset,
            ),
            None => urls_settled(s.skip(1), offset),
        }
    }
}

/// Moving the ports of the URLs a second time changes nothing, where every port comes
/// to rest.
pub proof fn lemma_shift_twice(s: Seq<char>, offset: int)
    requires
        urls_settled(s, offset),
    ensures
        shift_urls(shift_urls(s, offset), offset) == shift_urls(s, offset),
    decreases s.len(),
{
    let r = shift_urls(s, offset);
    if s.len() > 0 {
        match url_at(s) {
            Some((h, d)) => {
                lemma_url_at(s);
                let y = s.skip(h + d);
                let ry = shift_urls(y, offset);
                let digits = s.subrange(h, h + d);
                let moved = shifted_port(digits, offset);
                lemma_shift_twice(y, offset);
                lemma_shift_first(y, offset);
                assert(r == s.take(h) + moved + ry);
                assert(all_digits(digits) && digits.len() >= 1) by {
                    assert forall|i: int| 0 <= i < digits.len() implies is_digit(
                        #[trigger] digits[i],
                    ) by {
                        assert(digits[i] == s[h + i]);
                    }
                }
                if in_port_range(decimal_value(digits) + offset) {
                    lemma_decimal((decimal_value(digits) + offset) as nat);
                }
                assert(all_digits(moved) && moved.len() >= 1);
                let m = moved.len() as int;
                let k = choose|k: int| 0 <= k < 4 && s.take(h) == #[trigger] url_heads()[k];
                assert(r.take(h) =~= s.take(h));
                assert(r[h] == moved[0]);
                lemma_url_at_from(r, k);
                assert forall|i: int| 0 <= i < m implies is_digit(#[trigger] r.skip(h)[i]) by {
                    assert(r.skip(h)[i] == moved[i]);
                }
                if m < r.skip(h).len() {
                    assert(r.skip(h)[m] == ry[0]);
                    assert(y[0] == s[h + d]);
                }
                lemma_run_len_is(r.skip(h), CharClass::Digit, m);
                assert(url_at(r) == Some((h, m)));
                assert(r.subrange(h, h + m) =~= moved);
                assert(r.skip(h + m) =~= ry);
                assert(shifted_port(moved, offset) == moved) by {
                    if in_port_range(decimal_value(digits) + offset) {
                        assert(decimal_value(moved) == decimal_value(digits) + offset);
                    }
                }
            },
            None => {
                lemma_shift_twice(s.skip(1), offset);
                lemma_shift_first(s, offset);
                if url_at(r) is Some {
                    lemma_shift_keeps_start(s, offset);
                }
                assert(r.skip(1) =~= shift_urls(s.skip(1), offset));
            },
        }
    }
}

/// If the line can end behind a value once ports were moved, it could before.
pub proof fn lemma_shift_keeps_tail(x: Seq<char>, offset: int)
    requires
        is_tail(shift_urls(x, offset)),
    ensures
        is_tail(x),
{
    let r = shift_urls(x, offset);
    let j = run_len(r, CharClass::Space) as int;
    lemma_run_len(r, CharClass::Space);
    assert(no_ht(r, j));
    lemma_shift_plain_prefix(x, offset, j);
    lemma_shift_first(x.skip(j), offset);
    assert forall|i: int| 0 <= i < j implies is_space(#[trigger] x[i]) by {
        assert(x.take(j)[i] == x[i]);
        assert(r.take(j)[i] == r[i]);
    }
    if j < r.len() {
        assert(r.skip(j)[0] == r[j]);
        assert(x.skip(j)[0] == x[j]);
    }
    lemma_run_len_is(x, CharClass::Space, j);
}

/// If a quoted value can close somewhere once ports were moved, it could before.
pub proof fn lemma_shift_keeps_close(x: Seq<char>, offset: int, q: int)
    requires
        closes_at(shift_urls(x, offset), q),
    ensures
        exists|q0: int| closes_at(x, q0),
    decreases x.len(),
{
    let r = shift_urls(x, offset);
    lemma_shift_first(x, offset);
    match url_at(x) {
        Some((h, d)) => {
            lemma_url_at(x);
            let y = x.skip(h + d);
            let ry = shift_urls(y, offset);
            let digits = x.subrange(h, h + d);
            let moved = shifted_port(digits, offset);
            assert(all_digits(digits)) by {
                assert forall|i: int| 0 <= i < digits.len() implies is_digit(
                    #[trigger] digits[i],
                ) by {
                    assert(digits[i] == x[h + i]);
                }
            }
            if in_port_range(decimal_value(digits) + offset) {
                lemma_decimal((decimal_value(digits) + offset) as nat);
            }
            let m = moved.len() as int;
            assert(r == x.take(h) + moved + ry);
            if q < h {
                assert(r[q] == x[q]);
            } else if q < h + m {
                assert(r[q] == moved[q - h]);
            } else {
                assert(r[q] == ry[q - h - m]);
                assert(r.skip(q + 1) =~= ry.skip(q - h - m + 1));
                lemma_shift_keeps_close(y, offset, q - h - m);
                let q0 = choose|q0: int| closes_at(y, q0);
                assert(x[h + d + q0] == y[q0]);
                assert(x.skip(h + d + q0 + 1) =~= y.skip(q0 + 1));
                assert(closes_at(x, h + d + q0));
            }
        },
        None => {
            let t = x.skip(1);
            let rt = shift_urls(t, offset);
            assert(r == seq![x[0]] + rt);
            if q == 0 {
                assert(r.skip(1) =~= rt);
                lemma_shift_keeps_tail(t, offset);
                assert(closes_at(x, 0));
            } else {
                assert(r[q] == rt[q - 1]);
                assert(r.skip(q + 1) =~= rt.skip(q));
                lemma_shift_keeps_close(t, offset, q - 1);
                let q0 = choose|q0: int| closes_at(t, q0);
                assert(x[q0 + 1] == t[q0]);
                assert(x.skip(q0 + 2) =~= t.skip(q0 + 1));
                assert(closes_at(x, q0 + 1));
            }
        },
    }
}

/// Moving the ports of URLs makes no identifier assignment of a line that was none.
pub proof fn lemma_shift_keeps_plain_of_identifier(s: Seq<char>, offset: int)
    requires
        identifier_parts(shift_urls(s, offset)) is Some,
    ensures
        identifier_parts(s) is Some,
{
    let r = shift_urls(s, offset);
    let key = identifier_key();
    let p = key_end(r, key)->0;
    let q = last_close(r, p, r.len() as int)->0;
    lemma_key_region(r, key, p);
    lemma_last_close(r, p, r.len() as int);
    assert(no_ht(r, p + 1));
    lemma_shift_plain_prefix(s, offset, p + 1);
    assert(r.take(p) =~= r.take(p + 1).take(p));
    assert(s.take(p) =~= s.take(p + 1).take(p));
    assert(s[p] == s.take(p + 1)[p]);
    assert(r[p] == r.take(p + 1)[p]);
    lemma_key_end_frame(r, s, key, p);
    let x = s.skip(p + 1);
    let rx = shift_urls(x, offset);
    assert(rx[q - p - 1] == r[q]);
    assert(rx.skip(q - p) =~= r.skip(q + 1));
    lemma_shift_keeps_close(x, offset, q - p - 1);
    let q0 = choose|q0: int| closes_at(x, q0);
    assert(s[p + 1 + q0] == x[q0]);
    assert(s.skip(p + q0 + 2) =~= x.skip(q0 + 1));
    assert(closes_at(s, p + 1 + q0));
    lemma_last_close(s, p, s.len() as int);
}

/// Moving the ports of URLs makes no port assignment of a line that was none.
pub proof fn lemma_shift_keeps_plain_of_port(s: Seq<char>, offset: int)
    requires
        port_parts(shift_urls(s, offset)) is Some,
    ensures
        port_parts(s) is Some,
{
    let r = shift_urls(s, offset);
    lemma_any_key_end(r);
    lemma_any_key_end(s);
    lemma_keys();
    let p = any_key_end(r, port_keys(), 0)->0;
    let k = choose|k: int| 0 <= k < 4 && key_end(r, #[trigger] port_keys()[k]) == Some(p);
    let key = port_keys()[k];
    lemma_key_region(r, key, p);
    lemma_shift_plain_prefix(s, offset, p);
    let x = s.skip(p);
    let rx = shift_urls(x, offset);
    let d = run_len(rx, CharClass::Digit) as int;
    lemma_run_len(rx, CharClass::Digit);
    lemma_shift_first(x, offset);
    assert(x[0] == s[p]);
    assert(is_digit(rx[0]));
    lemma_key_end_frame(r, s, key, p);
    assert(no_ht(rx, d));
    lemma_shift_plain_prefix(x, offset, d);
    lemma_shift_first(x.skip(d), offset);
    assert forall|i: int| 0 <= i < d implies is_digit(#[trigger] x[i]) by {
        assert(x.take(d)[i] == x[i]);
        assert(rx.take(d)[i] == rx[i]);
    }
    if d < x.len() {
        assert(x.skip(d)[0] == x[d]);
        assert(rx.skip(d)[0] == rx[d]);
    }
    lemma_run_len_is(x, CharClass::Digit, d);
    assert(r.skip(p + d) =~= rx.skip(d));
    assert(s.skip(p + d) =~= x.skip(d));
    lemma_shift_keeps_tail(x.skip(d), offset);
}

/// An identifier line that was patched is an identifier line that needs no patch.
pub proof fn lemma_identifier_twice(s: Seq<char>, suffix: Seq<char>)
    requires
        identifier_parts(s) is Some,
    ensures
        ({
            let (p, q) = identifier_parts(s)->0;
            let r = patch_identifier(s, p, q, suffix);
            &&& identifier_parts(r) is Some
            &&& patch_line_spec(r, suffix, 0) == Ok::<Seq<char>, PatchError>(r)
        }),
{
    let key = identifier_key();
    let (p, q) = identifier_parts(s)->0;
    let base = s.subrange(p + 1, q);
    let w = with_suffix(base, suffix);
    let r = patch_identifier(s, p, q, suffix);
    let q2 = p + 1 + w.len();
    assert(is_key(key));
    lemma_key_region(s, key, p);
    lemma_last_close(s, p, s.len() as int);
    assert(r == s.take(p + 1) + w + s.skip(q));
    assert(r.take(p) =~= s.take(p));
    assert(r[p] == s[p]);
    lemma_key_end_frame(s, r, key, p);
    assert(r[q2] == s[q]);
    assert(r.skip(q2 + 1) =~= s.skip(q + 1));
    assert(closes_at(r, q2));
    lemma_last_close(r, p, r.len() as int);
    assert forall|q3: int| q2 < q3 < r.len() implies !closes_at(r, q3) by {
        assert(r[q3] == s[q3 - q2 + q]);
        assert(r.skip(q3 + 1) =~= s.skip(q3 - q2 + q + 1));
        assert(!closes_at(s, q3 - q2 + q));
    }
    assert(last_close(r, p, r.len() as int) == Some(q2));
    assert(r.subrange(p + 1, q2) =~= w);
    let dashed = seq!['-'] + suffix;
    if suffix.len() > 0 && !ends_with(base, dashed) {
        assert(w.skip(w.len() - dashed.len()) =~= dashed);
    }
    assert(with_suffix(w, suffix) == w);
    assert(r.take(p + 1) =~= s.take(p + 1));
    assert(r.skip(q2) =~= s.skip(q));
    assert(patch_identifier(r, p, q2, suffix) == r);
}

/// Whether no loopback URL with a port begins anywhere in `s`.
pub open spec fn no_urls(s: Seq<char>) -> bool {
    forall|j: int| 0 <= j < s.len() ==> url_at(#[trigger] s.skip(j)) is None
}

/// A line without a loopback URL stays as it is when ports are moved.
pub proof fn lemma_shift_nothing(s: Seq<char>, offset: int)
    requires
        no_urls(s),
    ensures
        shift_urls(s, offset) == s,
    decreases s.len(),
{
    if s.len() > 0 {
        assert(s.skip(0) == s);
        let t = s.skip(1);
        assert forall|j: int| 0 <= j < t.len() implies url_at(#[trigger] t.skip(j)) is None by {
            assert(t.skip(j) == s.skip(j + 1));
        }
        lemma_shift_nothing(t, offset);
        assert(seq![s[0]] + t =~= s);
    }
}

/// A line that assigns neither the identifier nor a port and holds no loopback URL is
/// left as it is, character by character.
pub proof fn lemma_other_line_kept(s: Seq<char>, suffix: Seq<char>, offset: int)
    requires
        identifier_parts(s) is None,
        port_parts(s) is None,
        no_urls(s),
    ensures
        patch_line_spec(s, suffix, offset) == Ok::<Seq<char>, PatchError>(s),
{
    lemma_shift_nothing(s, offset);
}

/// What a patch changes in a port line: the digits, and nothing before or behind them.
pub proof fn lemma_port_line_frame(s: Seq<char>, suffix: Seq<char>, offset: int)
    requires
        identifier_parts(s) is None,
        port_parts(s) is Some,
        patch_line_spec(s, suffix, offset) is Ok,
    ensures
        ({
            let (p, e) = port_parts(s)->0;
            let r = patch_line_spec(s, suffix, offset)->Ok_0;
            &&& 0 <= p < e <= s.len()
            &&& r.len() >= p + (s.len() - e)
            &&& r.take(p) == s.take(p)
            &&& r.skip(r.len() - (s.len() - e)) == s.skip(e)
            &&& r != s ==> decimal_value(r.subrange(p, r.len() - (s.len() - e))) == decimal_value(
                s.subrange(p, e),
            ) + offset
        }),
{
    let (p, e) = port_parts(s)->0;
    let r = patch_line_spec(s, suffix, offset)->Ok_0;
    lemma_any_key_end(s);
    lemma_run_len(s.skip(p), CharClass::Digit);
    if r != s {
        let n = declared_port(s.subrange(p, e));
        let digits = decimal((n + offset) as nat);
        lemma_decimal((n + offset) as nat);
        assert(r == s.take(p) + digits + s.skip(e));
        assert(r.take(p) =~= s.take(p));
        assert(r.skip(r.len() - (s.len() - e)) =~= s.skip(e));
        assert(r.subrange(p, r.len() - (s.len() - e)) =~= digits);
    } else {
        assert(s.skip(s.len() - (s.len() - e)) == s.skip(e));
    }
}

/// Whether no port of the line moves twice: the line assigns the identifier, or it
/// declares no port or the offset is 0, or the port of each of its URLs comes to rest.
pub open spec fn line_settled(s: Seq<char>, offset: int) -> bool {
    match identifier_parts(s) {
        Some(_) => true,
        None => match port_parts(s) {
            Some((p, e)) => offset == 0 || declared_port(s.subrange(p, e)) == 0,
            None => urls_settled(s, offset),
        },
    }
}

/// With the offset 0 no port of any line moves.
pub proof fn lemma_settled_at_zero(s: Seq<char>)
    ensures
        urls_settled(s, 0),
        line_settled(s, 0),
    decreases s.len(),
{
    if s.len() > 0 {
        match url_at(s) {
            Some((h, d)) => {
                lemma_url_at(s);
                lemma_settled_at_zero(s.skip(h + d));
            },
            None => {
                lemma_settled_at_zero(s.skip(1));
            },
        }
    }
}

/// A line that was patched needs no further patch, where none of its ports moves twice.
pub proof fn lemma_patch_line_twice(s: Seq<char>, suffix: Seq<char>, offset: int)
    requires
        line_settled(s, offset),
        patch_line_spec(s, suffix, offset) is Ok,
    ensures
        patch_line_spec(patch_line_spec(s, suffix, offset)->Ok_0, suffix, offset)
            == patch_line_spec(s, suffix, offset),
{
    let r = patch_line_spec(s, suffix, offset)->Ok_0;
    match identifier_parts(s) {
        Some((p, q)) => {
            lemma_identifier_twice(s, suffix);
        },
        None => match port_parts(s) {
            Some((p, e)) => {
                assert(r == s);
            },
            None => {
                if identifier_parts(r) is Some {
                    lemma_shift_keeps_plain_of_identifier(s, offset);
                }
                if port_parts(r) is Some {
                    lemma_shift_keeps_plain_of_port(s, offset);
                }
                lemma_shift_twice(s, offset);
            },
        },
    }
}

/// Moving the ports of URLs brings no line feed into a line.
pub proof fn lemma_shift_inline(s: Seq<char>, offset: int)
    requires
        is_inline(s),
    ensures
        is_inline(shift_urls(s, offset)),
    decreases s.len(),
{
    let r = shift_urls(s, offset);
    if s.len() > 0 {
        match url_at(s) {
            Some((h, d)) => {
                lemma_url_at(s);
                let y = s.skip(h + d);
                let digits = s.subrange(h, h + d);
                let moved = shifted_port(digits, offset);
                assert(is_inline(y)) by {
                    assert forall|i: int| 0 <= i < y.len() implies #[trigger] y[i] != '\n' by {
                        assert(y[i] == s[h + d + i]);
                    }
                }
                lemma_shift_inline(y, offset);
                if in_port_range(decimal_value(digits) + offset) {
                    lemma_decimal((decimal_value(digits) + offset) as nat);
                }
                assert forall|i: int| 0 <= i < moved.len() implies #[trigger] moved[i] != '\n' by {
                    if !in_port_range(decimal_value(digits) + offset) {
                        assert(moved[i] == s[h + i]);
                    } else {
                        assert(is_digit(moved[i]));
                    }
                }
                let m = moved.len() as int;
                let ry = shift_urls(y, offset);
                assert forall|i: int| 0 <= i < r.len() implies #[trigger] r[i] != '\n' by {
                    if i < h {
                        assert(r[i] == s[i]);
                    } else if i < h + m {
                        assert(r[i] == moved[i - h]);
                    } else {
                        assert(r[i] == ry[i - h - m]);
                    }
                }
            },
            None => {
                let t = s.skip(1);
                assert(is_inline(t)) by {
                    assert forall|i: int| 0 <= i < t.len() implies #[trigger] t[i] != '\n' by {
                        assert(t[i] == s[i + 1]);
                    }
                }
                lemma_shift_inline(t, offset);
                let rt = shift_urls(t, offset);
                assert forall|i: int| 0 <= i < r.len() implies #[trigger] r[i] != '\n' by {
                    if i > 0 {
                        assert(r[i] == rt[i - 1]);
                    }
                }
            },
        }
    }
}

/// Patching brings no line feed into a line, unless the suffix holds one.
pub proof fn lemma_patch_line_inline(s: Seq<char>, suffix: Seq<char>, offset: int)
    requires
        is_inline(s),
        is_inline(suffix),
        patch_line_spec(s, suffix, offset) is Ok,
    ensures
        is_inline(patch_line_spec(s, suffix, offset)->Ok_0),
{
    let r = patch_line_spec(s, suffix, offset)->Ok_0;
    match identifier_parts(s) {
        Some((p, q)) => {
            assert(is_key(identifier_key()));
            lemma_key_region(s, identifier_key(), p);
            lemma_last_close(s, p, s.len() as int);
            let base = s.subrange(p + 1, q);
            let w = with_suffix(base, suffix);
            assert forall|i: int| 0 <= i < w.len() implies #[trigger] w[i] != '\n' by {
                if i < base.len() {
                    assert(w[i] == s[p + 1 + i]);
                } else if i > base.len() {
                    assert(w[i] == suffix[i - base.len() - 1]);
                }
            }
            assert forall|i: int| 0 <= i < r.len() implies #[trigger] r[i] != '\n' by {
                if i <= p {
                    assert(r[i] == s[i]);
                } else if i < p + 1 + w.len() {
                    assert(r[i] == w[i - p - 1]);
                } else {
                    assert(r[i] == s[i - p - 1 - w.len() + q]);
                }
            }
        },
        None => match port_parts(s) {
            Some((p, e)) => {
                let n = declared_port(s.subrange(p, e));
                if r != s {
                    lemma_any_key_end(s);
                    lemma_run_len(s.skip(p), CharClass::Digit);
                    let digits = decimal((n + offset) as nat);
                    lemma_decimal((n + offset) as nat);
                    assert forall|i: int| 0 <= i < r.len() implies #[trigger] r[i] != '\n' by {
                        if i < p {
                            assert(r[i] == s[i]);
                        } else if i < p + digits.len() {
                            assert(r[i] == digits[i - p]);
                            assert(is_digit(digits[i - p]));
                        } else {
                            assert(r[i] == s[i - p - digits.len() + e]);
                        }
                    }
                }
            },
            None => {
                lemma_shift_inline(s, offset);
            },
        },
    }
}

/// The empty line needs no patch.
pub proof fn lemma_patch_empty_line(suffix: Seq<char>, offset: int)
    ensures
        patch_line_spec(Seq::<char>::empty(), suffix, offset) == Ok::<Seq<char>, PatchError>(
            Seq::<char>::empty(),
        ),
{
    let e = Seq::<char>::empty();
    lemma_keys();
    reveal_with_fuel(any_key_end, 5);
    assert(e.skip(0) =~= e);
    assert forall|key: Seq<char>| is_key(key) implies key_end(e, key) is None by {
        lemma_key_chars(key);
    }
    assert(is_key(identifier_key()));
    assert(is_key(port_keys()[0]));
    assert(is_key(port_keys()[1]));
    assert(is_key(port_keys()[2]));
    assert(is_key(port_keys()[3]));
}

/// Lines of which none needs a patch stay as they are.
pub proof fn lemma_patch_lines_fixed(lines: Seq<Seq<char>>, suffix: Seq<char>, offset: int)
    requires
        forall|i: int|
            0 <= i < lines.len() ==> patch_line_spec(#[trigger] lines[i], suffix, offset) == Ok::<
                Seq<char>,
                PatchError,
            >(lines[i]),
    ensures
        patch_lines(lines, suffix, offset) == Ok::<Seq<Seq<char>>, PatchError>(lines),
    decreases lines.len(),
{
    if lines.len() > 0 {
        let init = lines.drop_last();
        assert forall|i: int| 0 <= i < init.len() implies patch_line_spec(
            #[trigger] init[i],
            suffix,
            offset,
        ) == Ok::<Seq<char>, PatchError>(init[i]) by {
            assert(init[i] == lines[i]);
        }
        lemma_patch_lines_fixed(init, suffix, offset);
        assert(patch_line_spec(lines[lines.len() - 1], suffix, offset) == Ok::<
            Seq<char>,
            PatchError,
        >(lines.last()));
        assert(init.push(lines.last()) =~= lines);
    } else {
        assert(lines =~= Seq::<Seq<char>>::empty());
    }
}

/// Whether no port of the text moves twice: see `line_settled`.
pub open spec fn text_settled(text: Seq<char>, offset: int) -> bool {
    forall|i: int|
        0 <= i < split_lines(text).len() ==> line_settled(#[trigger] split_lines(text)[i], offset)
}

/// A second run of the patch, with the same suffix and offset, finds nothing to change
/// in what the first run made of a text, where no port of the text moves twice and the
/// suffix holds no line feed.
pub proof fn lemma_patch_twice(text: Seq<char>, suffix: Seq<char>, offset: int, once: Seq<char>)
    requires
        is_inline(suffix),
        text_settled(text, offset),
        patch_text(text, suffix, offset) == Ok::<Option<Seq<char>>, PatchError>(Some(once)),
    ensures
        patch_text(once, suffix, offset) == Ok::<Option<Seq<char>>, PatchError>(None),
{
    let lines = split_lines(text);
    let out = patch_lines(lines, suffix, offset)->Ok_0;
    lemma_split_lines(text);
    lemma_patch_lines_each(lines, suffix, offset);
    assert forall|i: int| 0 <= i < out.len() implies is_inline(#[trigger] out[i])
        && patch_line_spec(out[i], suffix, offset) == Ok::<Seq<char>, PatchError>(out[i]) by {
        assert(is_inline(lines[i]));
        assert(line_settled(lines[i], offset));
        lemma_patch_line_inline(lines[i], suffix, offset);
        lemma_patch_line_twice(lines[i], suffix, offset);
    }
    let joined = join_lines(out);
    let kept = strip_end(joined, CharClass::Feed);
    let empty = Seq::<char>::empty();
    lemma_patch_empty_line(suffix, offset);
    lemma_split_join(out);
    lemma_split_stripped(joined);
    lemma_split_feed(kept);
    let again = split_lines(once);
    assert(again == split_lines(kept).push(empty));
    assert forall|i: int| 0 <= i < again.len() implies patch_line_spec(
        #[trigger] again[i],
        suffix,
        offset,
    ) == Ok::<Seq<char>, PatchError>(again[i]) by {
        if i < split_lines(kept).len() {
            assert(again[i] == split_lines(kept)[i]);
            assert(again[i] == out[i]);
        }
    }
    lemma_patch_lines_fixed(again, suffix, offset);
}

/// With the offset 0 a second run of the patch finds nothing to change, whatever the
/// text: the identifier is not suffixed twice.
pub proof fn lemma_patch_twice_at_zero(text: Seq<char>, suffix: Seq<char>, once: Seq<char>)
    requires
        is_inline(suffix),
        patch_text(text, suffix, 0) == Ok::<Option<Seq<char>>, PatchError>(Some(once)),
    ensures
        patch_text(once, suffix, 0) == Ok::<Option<Seq<char>>, PatchError>(None),
{
    assert forall|i: int| 0 <= i < split_lines(text).len() implies line_settled(
        #[trigger] split_lines(text)[i],
        0,
    ) by {
        lemma_settled_at_zero(split_lines(text)[i]);
    }
    lemma_patch_twice(text, suffix, 0, once);
}

/// A second run of `patch_config`, for the same worktree and with the same offset,
/// finds nothing to change in what the first run made of a configuration, where no port
/// of the configuration moves twice.
pub proof fn lemma_patch_config_twice(
    text: Seq<char>,
    worktree_name: Seq<char>,
    offset: int,
    once: Seq<char>,
)
    requires
        text_settled(text, offset),
        patch_text(text, suffix_spec(worktree_name), offset) == Ok::<
            Option<Seq<char>>,
            PatchError,
        >(Some(once)),
    ensures
        patch_text(once, suffix_spec(worktree_name), offset) == Ok::<
            Option<Seq<char>>,
            PatchError,
        >(None),
{
    let suffix = suffix_spec(worktree_name);
    lemma_normalize(
        encode_utf8(lowercased(strip(worktree_name, CharClass::Space))),
        SUFFIX_CAP as nat,
    );
    assert(is_inline(suffix)) by {
        assert forall|i: int| 0 <= i < suffix.len() implies #[trigger] suffix[i] != '\n' by {
            assert(is_name_char(suffix[i]));
        }
    }
    lemma_patch_twice(text, suffix, offset, once);
}

/// With the offset 0 a second run of `patch_config` for the same worktree finds nothing
/// to change, whatever the configuration.
pub proof fn lemma_patch_config_twice_at_zero(
    text: Seq<char>,
    worktree_name: Seq<char>,
    once: Seq<char>,
)
    requires
        patch_text(text, suffix_spec(worktree_name), 0) == Ok::<Option<Seq<char>>, PatchError>(
            Some(once),
        ),
    ensures
        patch_text(once, suffix_spec(worktree_name), 0) == Ok::<Option<Seq<char>>, PatchError>(
            None,
        ),
{
    assert forall|i: int| 0 <= i < split_lines(text).len() implies line_settled(
        #[trigger] split_lines(text)[i],
        0,
    ) by {
        lemma_settled_at_zero(split_lines(text)[i]);
    }
    lemma_patch_config_twice(text, worktree_name, 0, once);
}

/// A port line with other digits in place of its own is a port line still, with the
/// new digits for its port.
pub proof fn lemma_port_line_with(s: Seq<char>, digits: Seq<char>)
    requires
        port_parts(s) is Some,
        digits.len() >= 1,
        all_digits(digits),
    ensures
        ({
            let (p, e) = port_parts(s)->0;
            let t = s.take(p) + digits + s.skip(e);
            &&& 0 <= p < e <= s.len()
            &&& identifier_parts(t) is None
            &&& port_parts(t) == Some((p, p + digits.len()))
        }),
{
    let (p, e) = port_parts(s)->0;
    let t = s.take(p) + digits + s.skip(e);
    let m = digits.len() as int;
    lemma_any_key_end(s);
    lemma_run_len(s.skip(p), CharClass::Digit);
    let k = choose|k: int| 0 <= k < 4 && key_end(s, #[trigger] port_keys()[k]) == Some(p);
    let key = port_keys()[k];
    assert(is_key(key));
    lemma_key_region(s, key, p);
    assert(t.take(p) =~= s.take(p));
    assert(t[p] == digits[0]);
    lemma_key_end_frame(s, t, key, p);
    lemma_any_key_end(t);
    if key_end(t, identifier_key()) is Some {
        lemma_identifier_or_port(t);
    }
    let x = t.skip(p);
    assert forall|i: int| 0 <= i < m implies in_class(CharClass::Digit, #[trigger] x[i]) by {
        assert(x[i] == digits[i]);
    }
    if m < x.len() {
        assert(x[m] == s[e]);
        assert(s[e] == s.skip(p)[e - p]);
    }
    lemma_run_len_is(x, CharClass::Digit, m);
    assert(t.skip(p + m) =~= s.skip(e));
}

/// A port line whose port moved is a port line whose port moves again: patched once
/// more, it changes or its port leaves the range.
pub proof fn lemma_port_line_moves_again(s: Seq<char>, suffix: Seq<char>, offset: int)
    requires
        identifier_parts(s) is None,
        offset != 0,
        port_parts(s) matches Some((p, e)) && declared_port(s.subrange(p, e)) != 0,
        patch_line_spec(s, suffix, offset) is Ok,
    ensures
        patch_line_spec(patch_line_spec(s, suffix, offset)->Ok_0, suffix, offset)
            != patch_line_spec(s, suffix, offset),
{
    let (p, e) = port_parts(s)->0;
    let r = patch_line_spec(s, suffix, offset)->Ok_0;
    let n = declared_port(s.subrange(p, e));
    let moved = decimal((n + offset) as nat);
    let m = moved.len() as int;
    lemma_decimal((n + offset) as nat);
    lemma_port_line_with(s, moved);
    assert(r == s.take(p) + moved + s.skip(e));
    assert(r.subrange(p, p + m) =~= moved);
    assert(declared_port(moved) == n + offset);
    if in_port_range(n + 2 * offset) {
        let again = decimal((n + 2 * offset) as nat);
        lemma_decimal((n + 2 * offset) as nat);
        let t = r.take(p) + again + r.skip(p + m);
        assert(patch_line_spec(r, suffix, offset) == Ok::<Seq<char>, PatchError>(t));
        if t == r {
            assert(t.len() == r.len());
            assert(again.len() == m);
            assert(t.subrange(p, p + m) =~= again);
        }
    }
}

/// The digits of a port that does not come to rest change when the port is moved again.
proof fn lemma_port_unsettled(digits: Seq<char>, offset: int)
    requires
        all_digits(digits),
        !port_settled(digits, offset),
    ensures
        shifted_port(shifted_port(digits, offset), offset) != shifted_port(digits, offset),
        all_digits(shifted_port(digits, offset)),
        all_digits(shifted_port(shifted_port(digits, offset), offset)),
        shifted_port(digits, offset).len() >= 1,
        shifted_port(shifted_port(digits, offset), offset).len() >= 1,
{
    let v = decimal_value(digits);
    lemma_decimal((v + offset) as nat);
    lemma_decimal((v + 2 * offset) as nat);
}

/// Where the port of a URL does not come to rest, moving the ports once more changes
/// the line again.
pub proof fn lemma_shift_moves_again(s: Seq<char>, offset: int)
    requires
        !urls_settled(s, offset),
    ensures
        shift_urls(shift_urls(s, offset), offset) != shift_urls(s, offset),
    decreases s.len(),
{
    let r = shift_urls(s, offset);
    match url_at(s) {
        Some((h, d)) => {
            lemma_url_at(s);
            let y = s.skip(h + d);
            let ry = shift_urls(y, offset);
            let digits = s.subrange(h, h + d);
            let moved = shifted_port(digits, offset);
            lemma_shift_first(y, offset);
            assert(r == s.take(h) + moved + ry);
            assert(all_digits(digits) && digits.len() >= 1) by {
                assert forall|i: int| 0 <= i < digits.len() implies is_digit(
                    #[trigger] digits[i],
                ) by {
                    assert(digits[i] == s[h + i]);
                }
            }
            if in_port_range(decimal_value(digits) + offset) {
                lemma_decimal((decimal_value(digits) + offset) as nat);
            }
            let m = moved.len() as int;
            let k = choose|k: int| 0 <= k < 4 && s.take(h) == #[trigger] url_heads()[k];
            assert(r.take(h) =~= s.take(h));
            assert(r[h] == moved[0]);
            lemma_url_at_from(r, k);
            assert forall|i: int| 0 <= i < m implies is_digit(#[trigger] r.skip(h)[i]) by {
                assert(r.skip(h)[i] == moved[i]);
            }
            if m < r.skip(h).len() {
                assert(r.skip(h)[m] == ry[0]);
                assert(y[0] == s[h + d]);
            }
            lemma_run_len_is(r.skip(h), CharClass::Digit, m);
            assert(url_at(r) == Some((h, m)));
            assert(r.subrange(h, h + m) =~= moved);
            assert(r.skip(h + m) =~= ry);
            let again = shifted_port(moved, offset);
            let rr = shift_urls(r, offset);
            assert(rr == r.take(h) + again + shift_urls(ry, offset));
            if port_settled(digits, offset) {
                lemma_shift_moves_again(y, offset);
                assert(again == moved) by {
                    if in_port_range(decimal_value(digits) + offset) {
                        assert(decimal_value(moved) == decimal_value(digits) + offset);
                    }
                }
                if rr == r {
                    assert(rr.skip(h + m) =~= shift_urls(ry, offset));
                }
            } else {
                lemma_port_unsettled(digits, offset);
                lemma_shift_first(ry, offset);
                if rr == r {
                    let a = again.len() as int;
                    let z = rr.skip(h);
                    assert forall|i: int| 0 <= i < a implies is_digit(#[trigger] z[i]) by {
                        assert(z[i] == again[i]);
                    }
                    if a < z.len() {
                        assert(z[a] == shift_urls(ry, offset)[0]);
                        assert(ry.len() > 0);
                        assert(ry[0] == y[0]);
                        assert(y[0] == s[h + d]);
                    }
                    lemma_run_len_is(z, CharClass::Digit, a);
                    assert(a == m);
                    assert(rr.subrange(h, h + m) =~= again);
                }
            }
        },
        None => {
            let t = s.skip(1);
            lemma_shift_moves_again(t, offset);
            lemma_shift_first(s, offset);
            if url_at(r) is Some {
                lemma_shift_keeps_start(s, offset);
            }
            let rt = shift_urls(t, offset);
            assert(r == seq![s[0]] + rt);
            assert(r.skip(1) =~= rt);
            let rr = shift_urls(r, offset);
            assert(rr == seq![r[0]] + shift_urls(rt, offset));
            if rr == r {
                assert(rr.skip(1) =~= shift_urls(rt, offset));
            }
        },
    }
}

/// A line of which a port moves twice does change twice: patched once more after a
/// patch, it changes again or its port leaves the range.
pub proof fn lemma_patch_line_moves_again(s: Seq<char>, suffix: Seq<char>, offset: int)
    requires
        !line_settled(s, offset),
        patch_line_spec(s, suffix, offset) is Ok,
    ensures
        patch_line_spec(patch_line_spec(s, suffix, offset)->Ok_0, suffix, offset)
            != patch_line_spec(s, suffix, offset),
{
    let r = patch_line_spec(s, suffix, offset)->Ok_0;
    if port_parts(s) is Some {
        lemma_port_line_moves_again(s, suffix, offset);
    } else {
        if identifier_parts(r) is Some {
            lemma_shift_keeps_plain_of_identifier(s, offset);
        }
        if port_parts(r) is Some {
            lemma_shift_keeps_plain_of_port(s, offset);
        }
        lemma_shift_moves_again(s, offset);
    }
}

/// The law of the second run holds of no other texts: where a port of the text moves
/// twice, a second run of the patch does not leave alone what the first run made of
/// the text.
pub proof fn lemma_patch_moves_again(text: Seq<char>, suffix: Seq<char>, offset: int, once: Seq<char>)
    requires
        is_inline(suffix),
        !text_settled(text, offset),
        patch_text(text, suffix, offset) == Ok::<Option<Seq<char>>, PatchError>(Some(once)),
    ensures
        patch_text(once, suffix, offset) != Ok::<Option<Seq<char>>, PatchError>(None),
{
    let lines = split_lines(text);
    let out = patch_lines(lines, suffix, offset)->Ok_0;
    lemma_patch_lines_each(lines, suffix, offset);
    lemma_split_lines(text);
    assert forall|j: int| 0 <= j < out.len() implies is_inline(#[trigger] out[j]) by {
        assert(is_inline(lines[j]));
        lemma_patch_line_inline(lines[j], suffix, offset);
    }
    let i = choose|i: int| 0 <= i < lines.len() && !line_settled(#[trigger] lines[i], offset);
    assert(patch_line_spec(lines[i], suffix, offset) == Ok::<Seq<char>, PatchError>(out[i]));
    lemma_patch_line_moves_again(lines[i], suffix, offset);
    lemma_patch_empty_line(suffix, offset);
    assert(out[i].len() > 0) by {
        if out[i].len() == 0 {
            assert(out[i] =~= Seq::<char>::empty());
        }
    }
    let joined = join_lines(out);
    let kept = strip_end(joined, CharClass::Feed);
    lemma_split_feed(kept);
    let again = split_lines(once);
    assert(again == split_lines(kept).push(Seq::<char>::empty()));
    lemma_split_join(out);
    lemma_split_stripped(joined);
    assert(i < split_lines(kept).len());
    assert(again[i] == out[i]);
    if patch_text(once, suffix, offset) == Ok::<Option<Seq<char>>, PatchError>(None) {
        lemma_patch_lines_each(again, suffix, offset);
        assert(patch_line_spec(again[i], suffix, offset) == Ok::<Seq<char>, PatchError>(again[i]));
    }
}

/// Where a port of a configuration moves twice, a second run of `patch_config` for the
/// same worktree and with the same offset does not leave alone what the first run made
/// of the configuration.
pub proof fn lemma_patch_config_moves_again(
    text: Seq<char>,
    worktree_name: Seq<char>,
    offset: int,
    once: Seq<char>,
)
    requires
        !text_settled(text, offset),
        patch_text(text, suffix_spec(worktree_name), offset) == Ok::<
            Option<Seq<char>>,
            PatchError,
        >(Some(once)),
    ensures
        patch_text(once, suffix_spec(worktree_name), offset) != Ok::<
            Option<Seq<char>>,
            PatchError,
        >(None),
{
    let suffix = suffix_spec(worktree_name);
    lemma_normalize(
        encode_utf8(lowercased(strip(worktree_name, CharClass::Space))),
        SUFFIX_CAP as nat,
    );
    assert(is_inline(suffix)) by {
        assert forall|i: int| 0 <= i < suffix.len() implies #[trigger] suffix[i] != '\n' by {
            assert(is_name_char(suffix[i]));
        }
    }
    lemma_patch_moves_again(text, suffix, offset, once);
}

} // verus!
