//! Rewrites a service configuration so that several worktrees can run side by side: the
//! project identifier gets a suffix, and every declared port and every loopback URL is
//! moved by the worktree's port offset.
//!
//! The configuration is read line by line. A line is an identifier assignment, a port
//! assignment, or anything else; only the first of these that fits is applied to it.

use vstd::prelude::*;
use vstd::utf8::encode_utf8;
use crate::text::{
    all_digits, chars_of, decimal, decimal_value, ends_with, has_at, lemma_run_len,
    lemma_strip_end, lowercase, lowercased, parse_decimal, push_range, render_decimal,
    render_signed, run_len, same_chars, signed_decimal, skip_class, starts_with, string_of,
    strip, strip_end, trim, CharClass,
};
use crate::worktree::{is_normal, normalize, normalize_name};

verus! {

/// Why a configuration could not be patched.
#[derive(Clone, Copy, Debug, PartialEq, Eq, Structural)]
pub enum PatchError {
    /// A declared port would leave the range 1 to 65535. `declared` is the port as
    /// declared, `attempted` what the offset would have made of it.
    PortOutOfRange { declared: i64, attempted: i64 },
}

/// The largest port number.
pub const MAX_PORT: i64 = 65535;

/// The largest declared number that is still read as a port.
pub const MAX_DECLARED: i64 = 0x7fff_ffff;

/// The largest number that an offset can still bring down to a port number.
pub const MAX_MOVABLE: u64 = 0x8000_ffff;

/// The key of the identifier assignment.
pub open spec fn identifier_key() -> Seq<char> {
    "project_id"@
}

/// The keys of the port assignments, in the order in which they are tried.
pub open spec fn port_keys() -> Seq<Seq<char>> {
    seq!["port"@, "shadow_port"@, "smtp_port"@, "pop3_port"@]
}

/// The beginnings of a loopback URL, up to and including the colon before the port.
pub open spec fn url_heads() -> Seq<Seq<char>> {
    seq!["http://127.0.0.1:"@, "http://localhost:"@, "https://127.0.0.1:"@, "https://localhost:"@]
}

/// Whether `s` can end a line behind an assigned value: white space, then nothing more
/// or a comment that starts with `#`.
pub open spec fn is_tail(s: Seq<char>) -> bool {
    let j = run_len(s, CharClass::Space) as int;
    j == s.len() || s[j] == '#'
}

/// Where the value of an assignment to `key` begins: behind optional white space, the
/// key, optional white space, `=` and optional white space. `None` when `s` does not
/// begin like that.
pub open spec fn key_end(s: Seq<char>, key: Seq<char>) -> Option<int> {
    let a = run_len(s, CharClass::Space) as int;
    if starts_with(s.skip(a), key) {
        let b = a + key.len() + run_len(s.skip(a + key.len()), CharClass::Space);
        if b < s.len() && s[b] == '=' {
            Some(b + 1 + run_len(s.skip(b + 1), CharClass::Space))
        } else {
            None
        }
    } else {
        None
    }
}

/// `key_end` for the first of `keys[from..]` that fits.
pub open spec fn any_key_end(s: Seq<char>, keys: Seq<Seq<char>>, from: int) -> Option<int>
    decreases keys.len() - from,
{
    if from < 0 || from >= keys.len() {
        None
    } else if key_end(s, keys[from]) is Some {
        key_end(s, keys[from])
    } else {
        any_key_end(s, keys, from + 1)
    }
}

/// The index of the last `"` among `s[p + 1..n]` behind which the line can end.
pub open spec fn last_close(s: Seq<char>, p: int, n: int) -> Option<int>
    decreases n - p,
{
    if n <= p + 1 || n > s.len() {
        None
    } else if s[n - 1] == '"' && is_tail(s.skip(n)) {
        Some(n - 1)
    } else {
        last_close(s, p, n - 1)
    }
}

/// The two quotes of an identifier assignment: `s` assigns a quoted value to the
/// identifier key, and the value is the longest that leaves a proper line end behind its
/// closing quote.
pub open spec fn identifier_parts(s: Seq<char>) -> Option<(int, int)> {
    match key_end(s, identifier_key()) {
        Some(p) => if p < s.len() && s[p] == '"' {
            match last_close(s, p, s.len() as int) {
                Some(q) => Some((p, q)),
                None => None,
            }
        } else {
            None
        },
        None => None,
    }
}

/// The value with `-suffix` behind it, unless the suffix is empty or the value ends so
/// already.
pub open spec fn with_suffix(base: Seq<char>, suffix: Seq<char>) -> Seq<char> {
    if suffix.len() > 0 && !ends_with(base, seq!['-'] + suffix) {
        base + seq!['-'] + suffix
    } else {
        base
    }
}

/// The identifier line `s`, quoted between `p` and `q`, with the suffix applied to its value.
pub open spec fn patch_identifier(s: Seq<char>, p: int, q: int, suffix: Seq<char>) -> Seq<char> {
    s.take(p + 1) + with_suffix(s.subrange(p + 1, q), suffix) + s.skip(q)
}

/// The digits of a port assignment, as the indices where they begin and end: `s` assigns
/// a run of digits to one of the port keys and ends properly behind it.
pub open spec fn port_parts(s: Seq<char>) -> Option<(int, int)> {
    match any_key_end(s, port_keys(), 0) {
        Some(p) => {
            let d = run_len(s.skip(p), CharClass::Digit);
            if 0 <= p <= s.len() && d > 0 && is_tail(s.skip(p + d)) {
                Some((p, p + d))
            } else {
                None
            }
        },
        None => None,
    }
}

/// The port that a run of digits declares. A number that does not fit in 31 bits is no
/// port and counts as 0, which stands for "none".
pub open spec fn declared_port(digits: Seq<char>) -> int {
    if decimal_value(digits) <= MAX_DECLARED {
        decimal_value(digits) as int
    } else {
        0
    }
}

/// Whether `n` is a port number.
pub open spec fn in_port_range(n: int) -> bool {
    1 <= n <= MAX_PORT
}

/// The port line `s`, whose digits stand between `p` and `e`, moved by `offset`. A line
/// that declares no port stays as it is; a port that would leave the range is an error.
pub open spec fn patch_port(s: Seq<char>, p: int, e: int, offset: int) -> Result<
    Seq<char>,
    PatchError,
> {
    let n = declared_port(s.subrange(p, e));
    if n == 0 {
        Ok(s)
    } else if !in_port_range(n + offset) {
        Err(PatchError::PortOutOfRange { declared: n as i64, attempted: (n + offset) as i64 })
    } else if offset == 0 {
        Ok(s)
    } else {
        Ok(s.take(p) + decimal((n + offset) as nat) + s.skip(e))
    }
}

/// The length of the loopback URL head that `s` begins with, or 0.
pub open spec fn url_head_len(s: Seq<char>, from: int) -> nat
    decreases url_heads().len() - from,
{
    if from < 0 || from >= url_heads().len() {
        0
    } else if starts_with(s, url_heads()[from]) {
        url_heads()[from].len()
    } else {
        url_head_len(s, from + 1)
    }
}

/// The loopback URL with a port that `s` begins with, as the length of its head and the
/// number of its port's digits. The port is the whole run of digits behind the colon.
pub open spec fn url_at(s: Seq<char>) -> Option<(int, int)> {
    let h = url_head_len(s, 0) as int;
    let d = run_len(s.skip(h), CharClass::Digit) as int;
    if 0 < h && 0 < d && h + d <= s.len() {
        Some((h, d))
    } else {
        None
    }
}

/// The digits of a URL's port moved by `offset`, or the digits unchanged where the
/// result would be no port number.
pub open spec fn shifted_port(digits: Seq<char>, offset: int) -> Seq<char> {
    if in_port_range(decimal_value(digits) + offset) {
        decimal((decimal_value(digits) + offset) as nat)
    } else {
        digits
    }
}

/// `s` with the port of every loopback URL moved by `offset`. URLs are found from left
/// to right and do not overlap.
pub open spec fn shift_urls(s: Seq<char>, offset: int) -> Seq<char>
    decreases s.len(),
{
    if s.len() == 0 {
        s
    } else {
        match url_at(s) {
            Some((h, d)) => s.take(h) + shifted_port(s.subrange(h, h + d), offset) + shift_urls(
                s.skip(h + d),
                offset,
            ),
            None => seq![s[0]] + shift_urls(s.skip(1), offset),
        }
    }
}

/// What patching makes of one line: the identifier rule if the line assigns the
/// identifier, else the port rule if it assigns a port, else the URL rule.
pub open spec fn patch_line_spec(s: Seq<char>, suffix: Seq<char>, offset: int) -> Result<
    Seq<char>,
    PatchError,
> {
    match identifier_parts(s) {
        Some((p, q)) => Ok(patch_identifier(s, p, q, suffix)),
        None => match port_parts(s) {
            Some((p, e)) => patch_port(s, p, e, offset),
            None => Ok(shift_urls(s, offset)),
        },
    }
}

/// The view of a line result.
pub open spec fn line_view(r: Result<Vec<char>, PatchError>) -> Result<Seq<char>, PatchError> {
    match r {
        Ok(l) => Ok(l@),
        Err(e) => Err(e),
    }
}

/// Tests `is_tail` on what stands in `v` from index `from` on.
fn tail_ok(v: &Vec<char>, from: usize) -> (r: bool)
    requires
        from <= v.len(),
    ensures
        r == is_tail(v@.skip(from as int)),
{
    let j = skip_class(v, from, CharClass::Space);
    assert(j < v.len() ==> v@.skip(from as int)[j - from] == v@[j as int]);
    j == v.len() || v[j] == '#'
}

/// Computes `key_end`.
fn find_key_end(v: &Vec<char>, key: &Vec<char>) -> (r: Option<usize>)
    ensures
        match r {
            Some(p) => key_end(v@, key@) == Some(p as int) && p <= v.len(),
            None => key_end(v@, key@) is None,
        },
{
    assert(v@.skip(0) == v@);
    let a = skip_class(v, 0, CharClass::Space);
    if !has_at(v, a, key) {
        return None;
    }
    let b = skip_class(v, a + key.len(), CharClass::Space);
    if b < v.len() && v[b] == '=' {
        Some(skip_class(v, b + 1, CharClass::Space))
    } else {
        None
    }
}

/// Computes `any_key_end` over the port keys.
fn find_port_key_end(v: &Vec<char>) -> (r: Option<usize>)
    ensures
        match r {
            Some(p) => any_key_end(v@, port_keys(), 0) == Some(p as int) && p <= v.len(),
            None => any_key_end(v@, port_keys(), 0) is None,
        },
{
    reveal_with_fuel(any_key_end, 5);
    let k0 = chars_of("port");
    let r0 = find_key_end(v, &k0);
    if r0.is_some() {
        return r0;
    }
    let k1 = chars_of("shadow_port");
    let r1 = find_key_end(v, &k1);
    if r1.is_some() {
        return r1;
    }
    let k2 = chars_of("smtp_port");
    let r2 = find_key_end(v, &k2);
    if r2.is_some() {
        return r2;
    }
    let k3 = chars_of("pop3_port");
    find_key_end(v, &k3)
}

/// Computes `last_close` over the whole line behind `p`.
fn find_last_close(v: &Vec<char>, p: usize) -> (r: Option<usize>)
    requires
        p < v.len(),
    ensures
        match r {
            Some(q) => last_close(v@, p as int, v.len() as int) == Some(q as int) && p < q < v.len(),
            None => last_close(v@, p as int, v.len() as int) is None,
        },
{
    let mut n: usize = v.len();
    while n > p + 1
        invariant
            p < n <= v.len(),
            last_close(v@, p as int, v.len() as int) == last_close(v@, p as int, n as int),
        decreases n,
    {
        if v[n - 1] == '"' && tail_ok(v, n) {
            return Some(n - 1);
        }
        n -= 1;
    }
    None
}

/// Computes `patch_identifier`.
fn rewrite_identifier(v: &Vec<char>, p: usize, q: usize, suffix: &Vec<char>) -> (out: Vec<char>)
    requires
        p < q < v.len(),
    ensures
        out@ == patch_identifier(v@, p as int, q as int, suffix@),
{
    let ghost base = v@.subrange(p + 1, q as int);
    let mut out: Vec<char> = Vec::new();
    push_range(&mut out, v, 0, q);
    assert(out@ =~= v@.take(p + 1) + base);
    let mut dashed: Vec<char> = Vec::new();
    dashed.push('-');
    push_range(&mut dashed, suffix, 0, suffix.len());
    assert(dashed@ =~= seq!['-'] + suffix@);
    let already = dashed.len() <= q - (p + 1) && has_at(v, q - dashed.len(), &dashed);
    proof {
        if dashed.len() <= q - (p + 1) {
            assert(base.skip(base.len() - dashed@.len()) =~= v@.skip(q - dashed@.len()).take(
                dashed@.len() as int,
            ));
        }
        assert(already == ends_with(base, dashed@));
    }
    if suffix.len() > 0 && !already {
        push_range(&mut out, &dashed, 0, dashed.len());
        assert(dashed@.subrange(0, dashed@.len() as int) == dashed@);
    }
    push_range(&mut out, v, q, v.len());
    assert(v@.subrange(q as int, v.len() as int) == v@.skip(q as int));
    assert(out@ =~= patch_identifier(v@, p as int, q as int, suffix@));
    out
}

/// Computes `patch_port`.
fn rewrite_port(v: &Vec<char>, p: usize, e: usize, offset: i32) -> (r: Result<Vec<char>, PatchError>)
    requires
        p < e <= v.len(),
        all_digits(v@.subrange(p as int, e as int)),
    ensures
        line_view(r) == patch_port(v@, p as int, e as int, offset as int),
{
    let n: i64 = match parse_decimal(v, p, e, MAX_DECLARED as u64) {
        Some(n) => n as i64,
        None => 0,
    };
    if n == 0 {
        return Ok(v.clone());
    }
    let n2: i64 = n + offset as i64;
    if n2 < 1 || n2 > MAX_PORT {
        return Err(PatchError::PortOutOfRange { declared: n, attempted: n2 });
    }
    if offset == 0 {
        return Ok(v.clone());
    }
    let mut out: Vec<char> = Vec::new();
    push_range(&mut out, v, 0, p);
    let digits = render_decimal(n2 as u64);
    push_range(&mut out, &digits, 0, digits.len());
    push_range(&mut out, v, e, v.len());
    assert(digits@.subrange(0, digits@.len() as int) == digits@);
    assert(v@.subrange(0, p as int) == v@.take(p as int));
    assert(v@.subrange(e as int, v.len() as int) == v@.skip(e as int));
    Ok(out)
}

/// Computes `url_head_len` over all heads.
fn head_len_at(v: &Vec<char>, at: usize, heads: &Vec<Vec<char>>) -> (h: usize)
    requires
        at <= v.len(),
        heads.len() == 4,
        forall|k: int| 0 <= k < 4 ==> (#[trigger] heads[k])@ == url_heads()[k],
    ensures
        h == url_head_len(v@.skip(at as int), 0),
        at + h <= v.len(),
{
    reveal_with_fuel(url_head_len, 5);
    let mut k: usize = 0;
    while k < 4
        invariant
            at <= v.len(),
            k <= 4,
            heads.len() == 4,
            forall|k: int| 0 <= k < 4 ==> (#[trigger] heads[k])@ == url_heads()[k],
            url_head_len(v@.skip(at as int), 0) == url_head_len(v@.skip(at as int), k as int),
        decreases 4 - k,
    {
        if has_at(v, at, &heads[k]) {
            return heads[k].len();
        }
        k += 1;
    }
    0
}

/// The four URL heads as character vectors.
fn url_head_chars() -> (heads: Vec<Vec<char>>)
    ensures
        heads.len() == 4,
        forall|k: int| 0 <= k < 4 ==> (#[trigger] heads[k])@ == url_heads()[k],
{
    let mut heads: Vec<Vec<char>> = Vec::new();
    heads.push(chars_of("http://127.0.0.1:"));
    heads.push(chars_of("http://localhost:"));
    heads.push(chars_of("https://127.0.0.1:"));
    heads.push(chars_of("https://localhost:"));
    heads
}

/// Computes `shift_urls`.
fn rewrite_urls(v: &Vec<char>, offset: i32) -> (out: Vec<char>)
    ensures
        out@ == shift_urls(v@, offset as int),
{
    let heads = url_head_chars();
    let mut out: Vec<char> = Vec::new();
    let mut i: usize = 0;
    assert(v@.skip(0) == v@);
    while i < v.len()
        invariant
            i <= v.len(),
            heads.len() == 4,
            forall|k: int| 0 <= k < 4 ==> (#[trigger] heads[k])@ == url_heads()[k],
            out@ + shift_urls(v@.skip(i as int), offset as int) == shift_urls(v@, offset as int),
        decreases v.len() - i,
    {
        let ghost rest = v@.skip(i as int);
        let h = head_len_at(v, i, &heads);
        let e = skip_class(v, i + h, CharClass::Digit);
        assert(rest.skip(h as int) =~= v@.skip(i + h));
        if h > 0 && e > i + h {
            let ghost digits = rest.subrange(h as int, e - i);
            proof {
                lemma_run_len(v@.skip(i + h), CharClass::Digit);
                assert(digits =~= v@.subrange(i + h, e as int));
                assert forall|k: int| 0 <= k < digits.len() implies crate::text::is_digit(
                    #[trigger] digits[k],
                ) by {
                    assert(digits[k] == v@.skip(i + h)[k]);
                }
                assert(url_at(rest) == Some((h as int, e - i - h)));
                assert(rest.take(h as int) =~= v@.subrange(i as int, i + h));
                assert(rest.skip(e - i) =~= v@.skip(e as int));
            }
            push_range(&mut out, v, i, i + h);
            let moved: Option<i64> = match parse_decimal(v, i + h, e, MAX_MOVABLE) {
                Some(n) => {
                    let m: i64 = n as i64 + offset as i64;
                    if 1 <= m && m <= MAX_PORT {
                        Some(m)
                    } else {
                        None
                    }
                },
                None => None,
            };
            match moved {
                Some(m) => {
                    let d = render_decimal(m as u64);
                    push_range(&mut out, &d, 0, d.len());
                    assert(d@.subrange(0, d@.len() as int) == d@);
                },
                None => {
                    push_range(&mut out, v, i + h, e);
                },
            }
            assert(out@ + shift_urls(v@.skip(e as int), offset as int) =~= shift_urls(
                v@,
                offset as int,
            ));
            i = e;
        } else {
            assert(url_at(rest) is None);
            assert(rest.skip(1) =~= v@.skip(i + 1));
            out.push(v[i]);
            assert(out@ + shift_urls(v@.skip(i + 1), offset as int) =~= shift_urls(
                v@,
                offset as int,
            ));
            i += 1;
        }
    }
    assert(v@.skip(v.len() as int).len() == 0);
    assert(out@ =~= shift_urls(v@, offset as int));
    out
}

/// Patches one line, given as characters.
pub fn patch_line_chars(v: &Vec<char>, suffix: &Vec<char>, offset: i32) -> (r: Result<
    Vec<char>,
    PatchError,
>)
    ensures
        line_view(r) == patch_line_spec(v@, suffix@, offset as int),
{
    let key = chars_of("project_id");
    match find_key_end(v, &key) {
        Some(p) => {
            if p < v.len() && v[p] == '"' {
                match find_last_close(v, p) {
                    Some(q) => {
                        return Ok(rewrite_identifier(v, p, q, suffix));
                    },
                    None => {},
                }
            }
        },
        None => {},
    }
    assert(identifier_parts(v@) is None);
    match find_port_key_end(v) {
        Some(p) => {
            let e = skip_class(v, p, CharClass::Digit);
            if e > p && tail_ok(v, e) {
                proof {
                    lemma_run_len(v@.skip(p as int), CharClass::Digit);
                    assert forall|k: int| 0 <= k < e - p implies crate::text::is_digit(
                        #[trigger] v@.subrange(p as int, e as int)[k],
                    ) by {
                        assert(v@.subrange(p as int, e as int)[k] == v@.skip(p as int)[k]);
                    }
                }
                return rewrite_port(v, p, e, offset);
            }
        },
        None => {},
    }
    assert(port_parts(v@) is None);
    Ok(rewrite_urls(v, offset))
}

/// The lines of a text: what stands between its line feeds. A text without a line feed
/// is one line, and a text that ends in a line feed has an empty last line.
pub open spec fn split_lines(s: Seq<char>) -> Seq<Seq<char>>
    decreases s.len(),
{
    let n = run_len(s, CharClass::Inline) as int;
    if n < s.len() {
        seq![s.take(n)] + split_lines(s.skip(n + 1))
    } else {
        seq![s]
    }
}

/// The lines with a line feed between each two of them.
pub open spec fn join_lines(lines: Seq<Seq<char>>) -> Seq<char>
    decreases lines.len(),
{
    if lines.len() == 0 {
        Seq::empty()
    } else if lines.len() == 1 {
        lines[0]
    } else {
        join_lines(lines.drop_last()) + seq!['\n'] + lines.last()
    }
}

/// Every line patched, or the error of the first line that cannot be.
pub open spec fn patch_lines(lines: Seq<Seq<char>>, suffix: Seq<char>, offset: int) -> Result<
    Seq<Seq<char>>,
    PatchError,
>
    decreases lines.len(),
{
    if lines.len() == 0 {
        Ok(Seq::empty())
    } else {
        match patch_lines(lines.drop_last(), suffix, offset) {
            Err(e) => Err(e),
            Ok(done) => match patch_line_spec(lines.last(), suffix, offset) {
                Err(e) => Err(e),
                Ok(l) => Ok(done.push(l)),
            },
        }
    }
}

/// The text with one line feed at its end in place of however many it ends in.
pub open spec fn with_final_newline(s: Seq<char>) -> Seq<char> {
    strip_end(s, CharClass::Feed).push('\n')
}

/// Whether `s` ends in one line feed and no more.
pub open spec fn ends_in_one_feed(s: Seq<char>) -> bool {
    s.len() > 0 && s.last() == '\n' && (s.len() >= 2 ==> s[s.len() - 2] != '\n')
}

/// A text that was given its final line feed ends in one line feed and no more.
pub proof fn lemma_final_newline(s: Seq<char>)
    ensures
        ends_in_one_feed(with_final_newline(s)),
{
    lemma_strip_end(s, CharClass::Feed);
}

/// What patching makes of a whole text: an error if a line cannot be patched, `None` if
/// no line changes, else the patched lines joined again, ending in exactly one line
/// feed.
pub open spec fn patch_text(text: Seq<char>, suffix: Seq<char>, offset: int) -> Result<
    Option<Seq<char>>,
    PatchError,
> {
    let lines = split_lines(text);
    match patch_lines(lines, suffix, offset) {
        Err(e) => Err(e),
        Ok(out) => if out == lines {
            Ok(None)
        } else {
            Ok(Some(with_final_newline(join_lines(out))))
        },
    }
}

/// The view of a text result.
pub open spec fn text_view(r: Result<Option<Vec<char>>, PatchError>) -> Result<
    Option<Seq<char>>,
    PatchError,
> {
    match r {
        Ok(Some(t)) => Ok(Some(t@)),
        Ok(None) => Ok(None),
        Err(e) => Err(e),
    }
}

/// An error among the first lines is the error of the whole.
pub proof fn lemma_patch_lines_error(
    a: Seq<Seq<char>>,
    b: Seq<Seq<char>>,
    suffix: Seq<char>,
    offset: int,
)
    requires
        patch_lines(a, suffix, offset) is Err,
    ensures
        patch_lines(a + b, suffix, offset) == patch_lines(a, suffix, offset),
    decreases b.len(),
{
    if b.len() == 0 {
        assert(a + b == a);
    } else {
        lemma_patch_lines_error(a, b.drop_last(), suffix, offset);
        assert((a + b).drop_last() == a + b.drop_last());
    }
}

/// Patching keeps the number of lines and patches each line by itself.
pub proof fn lemma_patch_lines_each(lines: Seq<Seq<char>>, suffix: Seq<char>, offset: int)
    requires
        patch_lines(lines, suffix, offset) is Ok,
    ensures
        patch_lines(lines, suffix, offset)->Ok_0.len() == lines.len(),
        forall|i: int|
            0 <= i < lines.len() ==> patch_line_spec(#[trigger] lines[i], suffix, offset) == Ok::<
                Seq<char>,
                PatchError,
            >(patch_lines(lines, suffix, offset)->Ok_0[i]),
    decreases lines.len(),
{
    if lines.len() > 0 {
        lemma_patch_lines_each(lines.drop_last(), suffix, offset);
        let done = patch_lines(lines.drop_last(), suffix, offset)->Ok_0;
        let out = patch_lines(lines, suffix, offset)->Ok_0;
        assert forall|i: int| 0 <= i < lines.len() implies patch_line_spec(
            #[trigger] lines[i],
            suffix,
            offset,
        ) == Ok::<Seq<char>, PatchError>(out[i]) by {
            if i < lines.len() - 1 {
                assert(lines[i] == lines.drop_last()[i]);
                assert(out[i] == done[i]);
            }
        }
    }
}

/// Patches a text, given as characters.
pub fn patch_text_chars(v: &Vec<char>, suffix: &Vec<char>, offset: i32) -> (r: Result<
    Option<Vec<char>>,
    PatchError,
>)
    ensures
        text_view(r) == patch_text(v@, suffix@, offset as int),
        r matches Ok(Some(t)) ==> ends_in_one_feed(t@),
{
    let mut buf: Vec<char> = Vec::new();
    let mut changed = false;
    let mut first = true;
    let mut finished = false;
    let mut i: usize = 0;
    let ghost mut done: Seq<Seq<char>> = Seq::empty();
    let ghost mut outl: Seq<Seq<char>> = Seq::empty();
    assert(v@.skip(0) == v@);
    assert(done + split_lines(v@) == split_lines(v@));
    while !finished
        invariant
            i <= v.len(),
            finished ==> done == split_lines(v@),
            !finished ==> done + split_lines(v@.skip(i as int)) == split_lines(v@),
            patch_lines(done, suffix@, offset as int) == Ok::<Seq<Seq<char>>, PatchError>(outl),
            done.len() == outl.len(),
            first == (done.len() == 0),
            buf@ == join_lines(outl),
            changed == (outl != done),
        decreases v.len() - i + (if finished { 0int } else { 1int }),
    {
        let ghost rest = v@.skip(i as int);
        let j = skip_class(v, i, CharClass::Inline);
        let mut line: Vec<char> = Vec::new();
        push_range(&mut line, v, i, j);
        assert(line@ =~= rest.take(j - i));
        let ghost tail_lines = if j < v.len() {
            split_lines(rest.skip(j - i + 1))
        } else {
            Seq::<Seq<char>>::empty()
        };
        proof {
            if j == v.len() {
                assert(rest.take(j - i) == rest);
            }
            assert(split_lines(rest) == seq![line@] + tail_lines);
            assert(done + split_lines(rest) =~= done.push(line@) + tail_lines);
            assert(done.push(line@).drop_last() == done);
        }
        match patch_line_chars(&line, suffix, offset) {
            Err(e) => {
                proof {
                    lemma_patch_lines_error(done.push(line@), tail_lines, suffix@, offset as int);
                }
                return Err(e);
            },
            Ok(new_line) => {
                if !same_chars(&new_line, &line) {
                    changed = true;
                }
                if !first {
                    buf.push('\n');
                }
                push_range(&mut buf, &new_line, 0, new_line.len());
                proof {
                    assert(new_line@.subrange(0, new_line@.len() as int) == new_line@);
                    assert(outl.push(new_line@).drop_last() == outl);
                    assert(buf@ =~= join_lines(outl.push(new_line@)));
                    if outl.push(new_line@) == done.push(line@) {
                        assert(outl.push(new_line@).last() == done.push(line@).last());
                    }
                    done = done.push(line@);
                    outl = outl.push(new_line@);
                }
                first = false;
            },
        }
        if j == v.len() {
            finished = true;
            assert(tail_lines.len() == 0);
            assert(done + tail_lines == done);
        } else {
            assert(rest.skip(j - i + 1) =~= v@.skip(j + 1));
            i = j + 1;
        }
    }
    if !changed {
        return Ok(None);
    }
    let ghost joined = buf@;
    while buf.len() > 0 && buf[buf.len() - 1] == '\n'
        invariant
            strip_end(buf@, CharClass::Feed) == strip_end(joined, CharClass::Feed),
        decreases buf.len(),
    {
        buf.pop();
    }
    buf.push('\n');
    proof {
        lemma_final_newline(joined);
    }
    Ok(Some(buf))
}

/// The number of bytes of a worktree name that go into the identifier suffix.
pub const SUFFIX_CAP: usize = 24;

/// The suffix that a worktree name gives: the name with white space cut off both ends,
/// lowercased, and normalised over the first bytes of its UTF-8 form.
pub open spec fn suffix_spec(name: Seq<char>) -> Seq<char> {
    normalize(encode_utf8(lowercased(strip(name, CharClass::Space))), SUFFIX_CAP as nat)
}

/// The identifier suffix for a worktree name.
pub fn sanitize_suffix(s: &str) -> (r: String)
    ensures
        r@ == suffix_spec(s@),
        is_normal(r@),
        r@.len() <= SUFFIX_CAP,
{
    let lowered = lowercase(trim(s).as_str());
    normalize_name(lowered.as_str(), SUFFIX_CAP)
}

/// The view of a patch result.
pub open spec fn config_view(r: Result<Option<String>, PatchError>) -> Result<
    Option<Seq<char>>,
    PatchError,
> {
    match r {
        Ok(Some(t)) => Ok(Some(t@)),
        Ok(None) => Ok(None),
        Err(e) => Err(e),
    }
}

/// Patches one line with a suffix that is normalised already. The result is the line as
/// it should stand, which is the line itself where nothing applies.
pub fn patch_line(line: &str, suffix: &str, offset: i32) -> (r: Result<String, PatchError>)
    ensures
        match r {
            Ok(l) => patch_line_spec(line@, suffix@, offset as int) == Ok::<Seq<char>, PatchError>(
                l@,
            ),
            Err(e) => patch_line_spec(line@, suffix@, offset as int) == Err::<
                Seq<char>,
                PatchError,
            >(e),
        },
{
    let v = chars_of(line);
    let sfx = chars_of(suffix);
    match patch_line_chars(&v, &sfx, offset) {
        Ok(l) => Ok(string_of(&l)),
        Err(e) => Err(e),
    }
}

/// Patches a configuration with a suffix that is normalised already. `Ok(None)` says
/// that the text needs no change, `Ok(Some(t))` that `t` is to replace it.
pub fn patch_with_suffix(text: &str, suffix: &str, offset: i32) -> (r: Result<
    Option<String>,
    PatchError,
>)
    ensures
        config_view(r) == patch_text(text@, suffix@, offset as int),
        r matches Ok(Some(t)) ==> ends_in_one_feed(t@),
{
    let v = chars_of(text);
    let sfx = chars_of(suffix);
    match patch_text_chars(&v, &sfx, offset) {
        Ok(Some(t)) => Ok(Some(string_of(&t))),
        Ok(None) => Ok(None),
        Err(e) => Err(e),
    }
}

/// Patches the text of a worktree's configuration: the identifier gets the suffix that
/// the worktree's name gives, declared ports and loopback URLs move by `offset`.
/// `Ok(None)` says that the text needs no change, `Ok(Some(t))` that `t` is to replace
/// it; on an error nothing is to be written.
pub fn patch_config(text: &str, worktree_name: &str, offset: i32) -> (r: Result<
    Option<String>,
    PatchError,
>)
    ensures
        config_view(r) == patch_text(text@, suffix_spec(worktree_name@), offset as int),
        r matches Ok(Some(t)) ==> ends_in_one_feed(t@),
{
    let suffix = sanitize_suffix(worktree_name);
    patch_with_suffix(text, suffix.as_str(), offset)
}

impl PatchError {
    /// The message of the error, as a sequence of characters.
    pub open spec fn message_spec(self) -> Seq<char> {
        match self {
            PatchError::PortOutOfRange { declared, attempted } => {
                "port out of range after offset: "@ + signed_decimal(declared as int) + " -> "@
                    + signed_decimal(attempted as int)
            },
        }
    }

    /// The message of the error: the port as declared and what it would have become.
    pub fn message(&self) -> (r: String)
        ensures
            r@ == self.message_spec(),
    {
        match self {
            PatchError::PortOutOfRange { declared, attempted } => {
                let mut v = chars_of("port out of range after offset: ");
                let a = render_signed(*declared);
                push_range(&mut v, &a, 0, a.len());
                let arrow = chars_of(" -> ");
                push_range(&mut v, &arrow, 0, arrow.len());
                let b = render_signed(*attempted);
                push_range(&mut v, &b, 0, b.len());
                proof {
                    assert(a@.subrange(0, a@.len() as int) == a@);
                    assert(b@.subrange(0, b@.len() as int) == b@);
                    assert(arrow@.subrange(0, arrow@.len() as int) == arrow@);
                }
                string_of(&v)
            },
        }
    }
}

} // verus!
