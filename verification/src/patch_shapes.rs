//! What the lines of a configuration look like: the keys and URL heads character by
//! character, what the recognisers of the patch find and how far they read, and how a
//! text falls into lines.

use vstd::prelude::*;
use crate::supabase::{
    any_key_end, identifier_key, is_tail, join_lines, key_end, last_close, port_keys,
    split_lines, url_at, url_head_len, url_heads,
};
use crate::text::{
    in_class, is_digit, is_space, lemma_run_len, lemma_run_len_is, run_len, starts_with,
    strip_end, CharClass,
};

verus! {

/// The URL heads, character by character.
pub proof fn lemma_url_heads()
    ensures
        url_heads().len() == 4,
        url_heads()[0] == seq![
            'h', 't', 't', 'p', ':', '/', '/', '1', '2', '7', '.', '0', '.', '0', '.', '1', ':',
        ],
        url_heads()[1] == seq![
            'h', 't', 't', 'p', ':', '/', '/', 'l', 'o', 'c', 'a', 'l', 'h', 'o', 's', 't', ':',
        ],
        url_heads()[2] == seq![
            'h', 't', 't', 'p', 's', ':', '/', '/', '1', '2', '7', '.', '0', '.', '0', '.', '1', ':',
        ],
        url_heads()[3] == seq![
            'h', 't', 't', 'p', 's', ':', '/', '/', 'l', 'o', 'c', 'a', 'l', 'h', 'o', 's', 't', ':',
        ],
{
    reveal_strlit("http://127.0.0.1:");
    reveal_strlit("http://localhost:");
    reveal_strlit("https://127.0.0.1:");
    reveal_strlit("https://localhost:");
    assert(url_heads()[0] =~= seq![
        'h', 't', 't', 'p', ':', '/', '/', '1', '2', '7', '.', '0', '.', '0', '.', '1', ':',
    ]);
    assert(url_heads()[1] =~= seq![
        'h', 't', 't', 'p', ':', '/', '/', 'l', 'o', 'c', 'a', 'l', 'h', 'o', 's', 't', ':',
    ]);
    assert(url_heads()[2] =~= seq![
        'h', 't', 't', 'p', 's', ':', '/', '/', '1', '2', '7', '.', '0', '.', '0', '.', '1', ':',
    ]);
    assert(url_heads()[3] =~= seq![
        'h', 't', 't', 'p', 's', ':', '/', '/', 'l', 'o', 'c', 'a', 'l', 'h', 'o', 's', 't', ':',
    ]);
}

/// Whether `c` can stand in the head of a loopback URL.
pub open spec fn is_head_char(c: char) -> bool {
    c != '"' && c != '\n' && c != '#' && c != '=' && c != '_' && c != ' '
}

/// What a string that begins with a loopback URL looks like: a head of 17 or 18
/// characters that begins with `ht` and holds these two in a row nowhere else, then the
/// digits of the port, and behind them no further digit.
pub proof fn lemma_url_at(s: Seq<char>)
    requires
        url_at(s) is Some,
    ensures
        ({
            let (h, d) = url_at(s)->0;
            &&& (h == 17 || h == 18)
            &&& d >= 1
            &&& h + d <= s.len()
            &&& s[0] == 'h'
            &&& s[1] == 't'
            &&& forall|j: int| 1 <= j < h ==> !(#[trigger] s[j] == 'h' && s[j + 1] == 't')
            &&& forall|j: int| 0 <= j < h ==> is_head_char(#[trigger] s[j])
            &&& forall|j: int| h <= j < h + d ==> is_digit(#[trigger] s[j])
            &&& h + d < s.len() ==> !is_digit(s[h + d])
            &&& d == run_len(s.skip(h), CharClass::Digit)
            &&& exists|k: int| 0 <= k < 4 && s.take(h) == #[trigger] url_heads()[k]
        }),
{
    reveal_with_fuel(url_head_len, 5);
    lemma_url_heads();
    let (h, d) = url_at(s)->0;
    lemma_run_len(s.skip(h), CharClass::Digit);
    let k = if starts_with(s, url_heads()[0]) {
        0int
    } else if starts_with(s, url_heads()[1]) {
        1int
    } else if starts_with(s, url_heads()[2]) {
        2int
    } else {
        3int
    };
    let lit = url_heads()[k];
    assert(s.take(h) == lit);
    assert forall|j: int| 0 <= j < h implies #[trigger] s[j] == lit[j] by {
        assert(s.take(h)[j] == s[j]);
    }
    assert forall|j: int| h <= j < h + d implies is_digit(#[trigger] s[j]) by {
        assert(s[j] == s.skip(h)[j - h]);
    }
    if h + d < s.len() {
        assert(s[h + d] == s.skip(h)[d]);
    }
    assert(s[h] == s.skip(h)[0]);
    assert forall|j: int| 1 <= j < h implies !(#[trigger] s[j] == 'h' && s[j + 1] == 't') by {
        if j + 1 < h {
            assert(s[j + 1] == lit[j + 1]);
        }
    }
}

/// A string that begins with a URL head and a digit begins with a loopback URL.
pub proof fn lemma_url_at_from(s: Seq<char>, k: int)
    requires
        0 <= k < 4,
        starts_with(s, url_heads()[k]),
        url_heads()[k].len() < s.len(),
        is_digit(s[url_heads()[k].len() as int]),
    ensures
        url_at(s) is Some,
        url_at(s) matches Some((h, _)) && h == url_heads()[k].len(),
{
    reveal_with_fuel(url_head_len, 5);
    lemma_url_heads();
    let h = url_heads()[k].len() as int;
    assert forall|i: int| 0 <= i < 4 && i != k implies !starts_with(s, #[trigger] url_heads()[i]) by {
        let li = url_heads()[i];
        let lk = url_heads()[k];
        if starts_with(s, li) {
            assert(s.take(li.len() as int)[4] == li[4]);
            assert(s.take(li.len() as int)[8] == li[8]);
            assert(s.take(lk.len() as int)[4] == lk[4]);
            assert(s.take(lk.len() as int)[8] == lk[8]);
        }
    }
    assert(url_head_len(s, 0) == h);
    lemma_run_len(s.skip(h), CharClass::Digit);
    assert(s.skip(h)[0] == s[h]);
}

/// Whether `ht` stands nowhere in `r` at an index below `k`.
pub open spec fn no_ht(r: Seq<char>, k: int) -> bool {
    forall|j: int| 0 <= j < k && j + 1 < r.len() ==> !(#[trigger] r[j] == 'h' && r[j + 1] == 't')
}

/// The keys, character by character.
pub proof fn lemma_keys()
    ensures
        identifier_key() == seq!['p', 'r', 'o', 'j', 'e', 'c', 't', '_', 'i', 'd'],
        port_keys().len() == 4,
        port_keys()[0] == seq!['p', 'o', 'r', 't'],
        port_keys()[1] == seq!['s', 'h', 'a', 'd', 'o', 'w', '_', 'p', 'o', 'r', 't'],
        port_keys()[2] == seq!['s', 'm', 't', 'p', '_', 'p', 'o', 'r', 't'],
        port_keys()[3] == seq!['p', 'o', 'p', '3', '_', 'p', 'o', 'r', 't'],
{
    reveal_strlit("project_id");
    reveal_strlit("port");
    reveal_strlit("shadow_port");
    reveal_strlit("smtp_port");
    reveal_strlit("pop3_port");
    assert(identifier_key() =~= seq!['p', 'r', 'o', 'j', 'e', 'c', 't', '_', 'i', 'd']);
    assert(port_keys()[0] =~= seq!['p', 'o', 'r', 't']);
    assert(port_keys()[1] =~= seq!['s', 'h', 'a', 'd', 'o', 'w', '_', 'p', 'o', 'r', 't']);
    assert(port_keys()[2] =~= seq!['s', 'm', 't', 'p', '_', 'p', 'o', 'r', 't']);
    assert(port_keys()[3] =~= seq!['p', 'o', 'p', '3', '_', 'p', 'o', 'r', 't']);
}

/// Whether `key` is one of the keys of this module.
pub open spec fn is_key(key: Seq<char>) -> bool {
    key == identifier_key() || exists|k: int| 0 <= k < 4 && key == #[trigger] port_keys()[k]
}

/// No key is empty, holds `ht`, ends in `h` or holds a space.
pub proof fn lemma_key_chars(key: Seq<char>)
    requires
        is_key(key),
    ensures
        key.len() > 0,
        forall|j: int| 0 <= j < key.len() ==> !is_space(#[trigger] key[j]),
        forall|j: int|
            0 <= j < key.len() && #[trigger] key[j] == 'h' ==> j + 1 < key.len() && key[j + 1]
                != 't',
{
    lemma_keys();
}

/// The parts of a line up to the value of an assignment, as `key_end` finds them: white
/// space up to `a`, the key, white space up to `b`, the `=`, and white space up to the
/// value at `p`, which does not begin with white space.
pub open spec fn key_layout(s: Seq<char>, key: Seq<char>, a: int, b: int, p: int) -> bool {
    &&& 0 <= a
    &&& a + key.len() <= b < p <= s.len()
    &&& forall|i: int| 0 <= i < a ==> is_space(#[trigger] s[i])
    &&& forall|i: int| 0 <= i < key.len() ==> #[trigger] s[a + i] == key[i]
    &&& forall|i: int| a + key.len() <= i < b ==> is_space(#[trigger] s[i])
    &&& s[b] == '='
    &&& forall|i: int| b < i < p ==> is_space(#[trigger] s[i])
    &&& p < s.len() ==> !is_space(s[p])
}

/// `key_end` finds the value just where the line is laid out so.
pub proof fn lemma_key_end(s: Seq<char>, key: Seq<char>)
    requires
        key.len() > 0,
        !is_space(key[0]),
    ensures
        key_end(s, key) matches Some(p) ==> exists|a: int, b: int| key_layout(s, key, a, b, p),
        forall|a: int, b: int, p: int| #[trigger]
            key_layout(s, key, a, b, p) ==> key_end(s, key) == Some(p),
{
    let a0 = run_len(s, CharClass::Space) as int;
    lemma_run_len(s, CharClass::Space);
    if let Some(p) = key_end(s, key) {
        let b0 = a0 + key.len() + run_len(s.skip(a0 + key.len()), CharClass::Space);
        lemma_run_len(s.skip(a0 + key.len()), CharClass::Space);
        lemma_run_len(s.skip(b0 + 1), CharClass::Space);
        assert forall|i: int| 0 <= i < key.len() implies #[trigger] s[a0 + i] == key[i] by {
            assert(s.skip(a0).take(key.len() as int)[i] == s[a0 + i]);
        }
        assert forall|i: int| a0 + key.len() <= i < b0 implies is_space(#[trigger] s[i]) by {
            assert(s[i] == s.skip(a0 + key.len())[i - a0 - key.len()]);
        }
        assert forall|i: int| b0 < i < p implies is_space(#[trigger] s[i]) by {
            assert(s[i] == s.skip(b0 + 1)[i - b0 - 1]);
        }
        if p < s.len() {
            assert(s[p] == s.skip(b0 + 1)[p - b0 - 1]);
        }
        assert(key_layout(s, key, a0, b0, p));
    }
    assert forall|a: int, b: int, p: int| #[trigger] key_layout(s, key, a, b, p) implies key_end(
        s,
        key,
    ) == Some(p) by {
        assert(s[a + 0] == key[0]);
        lemma_run_len_is(s, CharClass::Space, a);
        assert(s.skip(a).take(key.len() as int) =~= key) by {
            assert forall|i: int| 0 <= i < key.len() implies s.skip(a).take(key.len() as int)[i]
                == key[i] by {
                assert(s[a + i] == key[i]);
            }
        }
        let x = s.skip(a + key.len());
        assert forall|i: int| 0 <= i < b - a - key.len() implies is_space(#[trigger] x[i]) by {
            assert(x[i] == s[a + key.len() + i]);
        }
        assert(x[b - a - key.len()] == s[b]);
        lemma_run_len_is(x, CharClass::Space, b - a - key.len());
        let y = s.skip(b + 1);
        assert forall|i: int| 0 <= i < p - b - 1 implies is_space(#[trigger] y[i]) by {
            assert(y[i] == s[b + 1 + i]);
        }
        if p < s.len() {
            assert(y[p - b - 1] == s[p]);
        }
        lemma_run_len_is(y, CharClass::Space, p - b - 1);
    }
}

/// Up to the value that `key_end` finds, a line holds no `ht`.
pub proof fn lemma_key_region(s: Seq<char>, key: Seq<char>, p: int)
    requires
        is_key(key),
        key_end(s, key) == Some(p),
    ensures
        0 < p <= s.len(),
        no_ht(s, p),
        p < s.len() ==> !is_space(s[p]),
{
    lemma_key_chars(key);
    lemma_key_end(s, key);
    let (a, b) = choose|a: int, b: int| key_layout(s, key, a, b, p);
    assert forall|j: int| 0 <= j < p && j + 1 < s.len() implies !(#[trigger] s[j] == 'h' && s[j
        + 1] == 't') by {
        if s[j] == 'h' {
            if j < a {
                assert(is_space(s[j]));
            } else if j < a + key.len() {
                assert(s[a + (j - a)] == key[j - a]);
                assert(s[a + (j - a + 1)] == key[j - a + 1]);
            } else if j < b {
                assert(is_space(s[j]));
            } else if j > b {
                assert(is_space(s[j]));
            }
        }
    }
}

/// `key_end` reads a line no further than the first character of the value: a line
/// that agrees with `s` up to there has its value at the same place.
pub proof fn lemma_key_end_frame(s: Seq<char>, t: Seq<char>, key: Seq<char>, p: int)
    requires
        is_key(key),
        key_end(s, key) == Some(p),
        p <= t.len(),
        t.take(p) == s.take(p),
        p < t.len() ==> !is_space(t[p]),
    ensures
        key_end(t, key) == Some(p),
{
    lemma_key_chars(key);
    lemma_key_end(s, key);
    lemma_key_end(t, key);
    let (a, b) = choose|a: int, b: int| key_layout(s, key, a, b, p);
    assert forall|i: int| 0 <= i < p implies t[i] == s[i] by {
        assert(t.take(p)[i] == t[i]);
        assert(s.take(p)[i] == s[i]);
    }
    assert forall|i: int| 0 <= i < key.len() implies #[trigger] t[a + i] == key[i] by {
        assert(s[a + i] == key[i]);
    }
    assert(key_layout(t, key, a, b, p));
}

/// A line assigns to one key at most.
pub proof fn lemma_keys_exclusive(s: Seq<char>, i: int, j: int)
    requires
        0 <= i < 4,
        0 <= j < 4,
        key_end(s, port_keys()[i]) is Some,
        key_end(s, port_keys()[j]) is Some,
    ensures
        i == j,
{
    lemma_keys();
    let a = run_len(s, CharClass::Space) as int;
    let ki = port_keys()[i];
    let kj = port_keys()[j];
    assert(s.skip(a).take(ki.len() as int)[0] == ki[0]);
    assert(s.skip(a).take(ki.len() as int)[1] == ki[1]);
    assert(s.skip(a).take(ki.len() as int)[2] == ki[2]);
    assert(s.skip(a).take(kj.len() as int)[0] == kj[0]);
    assert(s.skip(a).take(kj.len() as int)[1] == kj[1]);
    assert(s.skip(a).take(kj.len() as int)[2] == kj[2]);
}

/// What `any_key_end` finds over the port keys is what `key_end` finds for one of them.
pub proof fn lemma_any_key_end(s: Seq<char>)
    ensures
        any_key_end(s, port_keys(), 0) matches Some(p) ==> exists|k: int|
            0 <= k < 4 && key_end(s, #[trigger] port_keys()[k]) == Some(p),
        forall|k: int|
            0 <= k < 4 && key_end(s, #[trigger] port_keys()[k]) is Some ==> any_key_end(
                s,
                port_keys(),
                0,
            ) == key_end(s, port_keys()[k]),
{
    reveal_with_fuel(any_key_end, 5);
    lemma_keys();
    assert forall|k: int|
        0 <= k < 4 && key_end(s, #[trigger] port_keys()[k]) is Some implies any_key_end(
        s,
        port_keys(),
        0,
    ) == key_end(s, port_keys()[k]) by {
        if key_end(s, port_keys()[0]) is Some {
            lemma_keys_exclusive(s, 0, k);
        } else if key_end(s, port_keys()[1]) is Some {
            lemma_keys_exclusive(s, 1, k);
        } else if key_end(s, port_keys()[2]) is Some {
            lemma_keys_exclusive(s, 2, k);
        }
    }
}

/// Whether the `"` at index `q` can close a quoted value: the line can end behind it.
pub open spec fn closes_at(x: Seq<char>, q: int) -> bool {
    0 <= q < x.len() && x[q] == '"' && is_tail(x.skip(q + 1))
}

/// What `last_close` finds: the last index between `p` and `n` at which a quoted value
/// can close.
pub proof fn lemma_last_close(s: Seq<char>, p: int, n: int)
    requires
        0 <= p,
        n <= s.len(),
    ensures
        match last_close(s, p, n) {
            Some(q) => p < q < n && closes_at(s, q) && forall|q2: int|
                q < q2 < n ==> !closes_at(s, q2),
            None => forall|q2: int| p < q2 < n ==> !closes_at(s, q2),
        },
    decreases n - p,
{
    if n > p + 1 {
        if !(s[n - 1] == '"' && is_tail(s.skip(n))) {
            lemma_last_close(s, p, n - 1);
        }
    }
}

/// Whether `s` holds no line feed.
pub open spec fn is_inline(s: Seq<char>) -> bool {
    forall|i: int| 0 <= i < s.len() ==> #[trigger] s[i] != '\n'
}

/// Whether every line holds no line feed.
pub open spec fn all_inline(lines: Seq<Seq<char>>) -> bool {
    forall|i: int| 0 <= i < lines.len() ==> is_inline(#[trigger] lines[i])
}

/// A text has at least one line, and no line of it holds a line feed.
pub proof fn lemma_split_lines(text: Seq<char>)
    ensures
        split_lines(text).len() >= 1,
        all_inline(split_lines(text)),
    decreases text.len(),
{
    let n = run_len(text, CharClass::Inline) as int;
    lemma_run_len(text, CharClass::Inline);
    if n < text.len() {
        let rest = split_lines(text.skip(n + 1));
        lemma_split_lines(text.skip(n + 1));
        let first = text.take(n);
        assert(is_inline(first)) by {
            assert forall|i: int| 0 <= i < first.len() implies #[trigger] first[i] != '\n' by {
                assert(first[i] == text[i]);
            }
        }
        assert forall|i: int| 0 <= i < split_lines(text).len() implies is_inline(
            #[trigger] split_lines(text)[i],
        ) by {
            if i > 0 {
                assert(split_lines(text)[i] == rest[i - 1]);
            }
        }
    } else {
        assert(is_inline(text)) by {
            assert forall|i: int| 0 <= i < text.len() implies #[trigger] text[i] != '\n' by {}
        }
    }
}

/// Joining lines puts the first line, a line feed and the other lines joined.
pub proof fn lemma_join_front(lines: Seq<Seq<char>>)
    requires
        lines.len() >= 2,
    ensures
        join_lines(lines) == lines[0] + seq!['\n'] + join_lines(lines.skip(1)),
    decreases lines.len(),
{
    let init = lines.drop_last();
    if lines.len() == 2 {
        assert(join_lines(init) == lines[0]);
        assert(lines.skip(1).len() == 1);
        assert(join_lines(lines.skip(1)) == lines[1]);
    } else {
        lemma_join_front(init);
        assert(init.skip(1) =~= lines.skip(1).drop_last());
        assert(lines.skip(1).last() == lines.last());
        assert(join_lines(lines) =~= lines[0] + seq!['\n'] + join_lines(lines.skip(1)));
    }
}

/// Lines that hold no line feed are the lines of what joining them gives.
pub proof fn lemma_split_join(lines: Seq<Seq<char>>)
    requires
        lines.len() >= 1,
        all_inline(lines),
    ensures
        split_lines(join_lines(lines)) == lines,
    decreases lines.len(),
{
    let first = lines[0];
    assert(is_inline(first));
    if lines.len() == 1 {
        lemma_run_len_is(first, CharClass::Inline, first.len() as int);
        assert(split_lines(first) =~= lines);
    } else {
        lemma_join_front(lines);
        let rest = lines.skip(1);
        let joined = join_lines(lines);
        let n = first.len() as int;
        assert forall|i: int| 0 <= i < n implies #[trigger] joined[i] != '\n' by {
            assert(joined[i] == first[i]);
        }
        assert(joined[n] == '\n');
        lemma_run_len_is(joined, CharClass::Inline, n);
        assert(joined.take(n) =~= first);
        assert(joined.skip(n + 1) =~= join_lines(rest));
        assert(all_inline(rest)) by {
            assert forall|i: int| 0 <= i < rest.len() implies is_inline(#[trigger] rest[i]) by {
                assert(rest[i] == lines[i + 1]);
            }
        }
        lemma_split_join(rest);
        assert(split_lines(joined) =~= lines);
    }
}

/// A line feed at the end of a text adds an empty line to its lines.
pub proof fn lemma_split_feed(text: Seq<char>)
    ensures
        split_lines(text.push('\n')) == split_lines(text).push(Seq::<char>::empty()),
    decreases text.len(),
{
    let more = text.push('\n');
    let n = run_len(text, CharClass::Inline) as int;
    lemma_run_len(text, CharClass::Inline);
    assert forall|i: int| 0 <= i < n implies in_class(CharClass::Inline, #[trigger] more[i]) by {
        assert(more[i] == text[i]);
    }
    if n < text.len() {
        assert(more[n] == text[n]);
    }
    lemma_run_len_is(more, CharClass::Inline, n);
    assert(more.take(n) =~= text.take(n));
    if n < text.len() {
        lemma_split_feed(text.skip(n + 1));
        assert(more.skip(n + 1) =~= text.skip(n + 1).push('\n'));
        assert(split_lines(more) =~= split_lines(text).push(Seq::<char>::empty()));
    } else {
        assert(text.take(n) == text);
        assert(more.skip(n + 1) =~= Seq::<char>::empty());
        assert(split_lines(Seq::<char>::empty()) =~= seq![Seq::<char>::empty()]);
        assert(split_lines(more) =~= split_lines(text).push(Seq::<char>::empty()));
    }
}

/// The lines of a text without the line feeds at its end are the first lines of the
/// text.
pub proof fn lemma_split_stripped(text: Seq<char>)
    ensures
        split_lines(strip_end(text, CharClass::Feed)).len() <= split_lines(text).len(),
        forall|i: int|
            0 <= i < split_lines(strip_end(text, CharClass::Feed)).len() ==> #[trigger] split_lines(
                strip_end(text, CharClass::Feed),
            )[i] == split_lines(text)[i],
        forall|i: int|
            split_lines(strip_end(text, CharClass::Feed)).len() <= i < split_lines(text).len()
                ==> (#[trigger] split_lines(text)[i]).len() == 0,
    decreases text.len(),
{
    if text.len() > 0 && text.last() == '\n' {
        let init = text.drop_last();
        lemma_split_stripped(init);
        lemma_split_feed(init);
        assert(init.push('\n') =~= text);
        assert forall|i: int|
            split_lines(strip_end(text, CharClass::Feed)).len() <= i < split_lines(
                text,
            ).len() implies (#[trigger] split_lines(text)[i]).len() == 0 by {
            if i < split_lines(init).len() {
                assert(split_lines(text)[i] == split_lines(init)[i]);
            }
        }
    }
}

/// A line assigns the identifier or a port, never both.
pub proof fn lemma_identifier_or_port(s: Seq<char>)
    requires
        key_end(s, identifier_key()) is Some,
    ensures
        any_key_end(s, port_keys(), 0) is None,
{
    lemma_keys();
    lemma_any_key_end(s);
    if any_key_end(s, port_keys(), 0) is Some {
        let p = any_key_end(s, port_keys(), 0)->0;
        let k = choose|k: int| 0 <= k < 4 && key_end(s, #[trigger] port_keys()[k]) == Some(p);
        let a = run_len(s, CharClass::Space) as int;
        let key = port_keys()[k];
        let id = identifier_key();
        assert(s.skip(a).take(key.len() as int)[1] == key[1]);
        assert(s.skip(a).take(id.len() as int)[1] == id[1]);
    }
}

} // verus!
