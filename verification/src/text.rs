//! Characters, decimal numbers and conversions between strings and character vectors.

use vstd::prelude::*;

verus! {

/// Whether `c` is white space: a character with the Unicode property `White_Space`.
pub open spec fn is_space(c: char) -> bool {
    let u = c as u32;
    ||| 0x09 <= u <= 0x0d
    ||| u == 0x20
    ||| u == 0x85
    ||| u == 0xa0
    ||| u == 0x1680
    ||| 0x2000 <= u <= 0x200a
    ||| u == 0x2028
    ||| u == 0x2029
    ||| u == 0x202f
    ||| u == 0x205f
    ||| u == 0x3000
}

/// Whether `c` is one of the ten ASCII digits.
pub open spec fn is_digit(c: char) -> bool {
    0x30 <= c as u32 <= 0x39
}

/// The classes of characters that runs are made of.
#[derive(Clone, Copy, Debug)]
pub enum CharClass {
    /// White space.
    Space,
    /// The ten digits.
    Digit,
    /// The hyphen.
    Dash,
    /// Every character but the line feed.
    Inline,
    /// The line feed.
    Feed,
}

/// Whether `c` belongs to `class`.
pub open spec fn in_class(class: CharClass, c: char) -> bool {
    match class {
        CharClass::Space => is_space(c),
        CharClass::Digit => is_digit(c),
        CharClass::Dash => c == '-',
        CharClass::Inline => c != '\n',
        CharClass::Feed => c == '\n',
    }
}

/// How many characters at the start of `s` belong to `class`.
pub open spec fn run_len(s: Seq<char>, class: CharClass) -> nat
    decreases s.len(),
{
    if s.len() > 0 && in_class(class, s[0]) {
        1 + run_len(s.skip(1), class)
    } else {
        0
    }
}

/// `s` without the characters of `class` at its end.
pub open spec fn strip_end(s: Seq<char>, class: CharClass) -> Seq<char>
    decreases s.len(),
{
    if s.len() > 0 && in_class(class, s.last()) {
        strip_end(s.drop_last(), class)
    } else {
        s
    }
}

/// `s` without the characters of `class` at its start and at its end.
pub open spec fn strip(s: Seq<char>, class: CharClass) -> Seq<char> {
    strip_end(s.skip(run_len(s, class) as int), class)
}

/// Whether `s` begins with `lit`.
pub open spec fn starts_with(s: Seq<char>, lit: Seq<char>) -> bool {
    lit.len() <= s.len() && s.take(lit.len() as int) == lit
}

/// Whether `s` ends with `lit`.
pub open spec fn ends_with(s: Seq<char>, lit: Seq<char>) -> bool {
    lit.len() <= s.len() && s.skip(s.len() - lit.len()) == lit
}

/// The number that the digit `c` stands for.
pub open spec fn digit_of(c: char) -> nat {
    (c as u32 - 0x30) as nat
}

/// The digit that stands for `d`, for `d` below ten.
pub open spec fn digit_char(d: nat) -> char {
    (d + 0x30) as u8 as char
}

/// The number that a run of digits denotes in base ten; leading zeros count for nothing
/// and the empty run denotes 0.
pub open spec fn decimal_value(s: Seq<char>) -> nat
    decreases s.len(),
{
    if s.len() == 0 {
        0
    } else {
        decimal_value(s.drop_last()) * 10 + digit_of(s.last())
    }
}

/// The digits of `n` in base ten, without leading zeros.
pub open spec fn decimal(n: nat) -> Seq<char>
    decreases n,
{
    if n < 10 {
        seq![digit_char(n)]
    } else {
        decimal(n / 10).push(digit_char(n % 10))
    }
}

/// `n` in base ten, with a minus sign in front if it is negative.
pub open spec fn signed_decimal(n: int) -> Seq<char> {
    if n < 0 {
        seq!['-'] + decimal((-n) as nat)
    } else {
        decimal(n as nat)
    }
}

/// Whether every character of `s` is a digit.
pub open spec fn all_digits(s: Seq<char>) -> bool {
    forall|i: int| 0 <= i < s.len() ==> is_digit(#[trigger] s[i])
}

/// `decimal(n)` is a non-empty run of digits that denotes `n`.
pub proof fn lemma_decimal(n: nat)
    ensures
        decimal(n).len() >= 1,
        all_digits(decimal(n)),
        decimal_value(decimal(n)) == n,
    decreases n,
{
    if n < 10 {
        assert(decimal(n).drop_last().len() == 0);
        assert(decimal_value(decimal(n).drop_last()) == 0);
        assert(decimal(n).last() == digit_char(n));
    } else {
        lemma_decimal(n / 10);
        let d = decimal(n / 10);
        assert(decimal(n).drop_last() == d);
        assert(decimal(n).last() == digit_char(n % 10));
        assert forall|i: int| 0 <= i < decimal(n).len() implies is_digit(
            #[trigger] decimal(n)[i],
        ) by {
            if i < d.len() {
                assert(decimal(n)[i] == d[i]);
            }
        }
    }
}

/// A run of digits denotes at least what any of its prefixes denotes.
pub proof fn lemma_decimal_value_prefix(s: Seq<char>, k: int)
    requires
        0 <= k <= s.len(),
    ensures
        decimal_value(s.take(k)) <= decimal_value(s),
    decreases s.len() - k,
{
    if k == s.len() {
        assert(s.take(k) == s);
    } else {
        lemma_decimal_value_prefix(s.drop_last(), k);
        assert(s.drop_last().take(k) == s.take(k));
    }
}

/// A run is no longer than the string, is made of characters of the class, and stops
/// before a character that is not of the class.
pub proof fn lemma_run_len(s: Seq<char>, class: CharClass)
    ensures
        run_len(s, class) <= s.len(),
        forall|i: int| 0 <= i < run_len(s, class) ==> in_class(class, #[trigger] s[i]),
        run_len(s, class) < s.len() ==> !in_class(class, s[run_len(s, class) as int]),
    decreases s.len(),
{
    if s.len() > 0 && in_class(class, s[0]) {
        lemma_run_len(s.skip(1), class);
        let r = run_len(s.skip(1), class);
        assert forall|i: int| 0 <= i < run_len(s, class) implies in_class(class, #[trigger] s[i]) by {
            if i > 0 {
                assert(s[i] == s.skip(1)[i - 1]);
            }
        }
        if run_len(s, class) < s.len() {
            assert(s[run_len(s, class) as int] == s.skip(1)[r as int]);
        }
    }
}

/// A run is fixed by the characters that make it up and the one that stops it: if the
/// first `k` characters of `s` belong to the class and no further one does, the run has
/// length `k`.
pub proof fn lemma_run_len_is(s: Seq<char>, class: CharClass, k: int)
    requires
        0 <= k <= s.len(),
        forall|i: int| 0 <= i < k ==> in_class(class, #[trigger] s[i]),
        k < s.len() ==> !in_class(class, s[k]),
    ensures
        run_len(s, class) == k,
    decreases k,
{
    if k > 0 {
        let t = s.skip(1);
        assert forall|i: int| 0 <= i < k - 1 implies in_class(class, #[trigger] t[i]) by {
            assert(t[i] == s[i + 1]);
        }
        lemma_run_len_is(t, class, k - 1);
    }
}

/// Stripping the end leaves a beginning of the string that does not end in the class.
pub proof fn lemma_strip_end(s: Seq<char>, class: CharClass)
    ensures
        strip_end(s, class).len() <= s.len(),
        strip_end(s, class) == s.take(strip_end(s, class).len() as int),
        strip_end(s, class).len() > 0 ==> !in_class(class, strip_end(s, class).last()),
    decreases s.len(),
{
    if s.len() > 0 && in_class(class, s.last()) {
        lemma_strip_end(s.drop_last(), class);
        let e = strip_end(s, class).len() as int;
        assert(s.drop_last().take(e) =~= s.take(e));
    } else {
        assert(s.take(s.len() as int) == s);
    }
}

/// Stripping leaves a part of the string that neither begins nor ends in the class.
pub proof fn lemma_strip(s: Seq<char>, class: CharClass)
    ensures
        ({
            let a = run_len(s, class) as int;
            let r = strip(s, class);
            &&& a + r.len() <= s.len()
            &&& r == s.subrange(a, a + r.len())
            &&& r.len() > 0 ==> !in_class(class, r[0]) && !in_class(class, r.last())
        }),
{
    let a = run_len(s, class) as int;
    lemma_run_len(s, class);
    let y = s.skip(a);
    lemma_strip_end(y, class);
    let r = strip(s, class);
    assert(y.take(r.len() as int) =~= s.subrange(a, a + r.len()));
    if r.len() > 0 {
        assert(r[0] == s[a]);
    }
}

/// Tests `is_space`.
pub fn char_is_space(c: char) -> (r: bool)
    ensures
        r == is_space(c),
{
    let u: u32 = c as u32;
    (0x09 <= u && u <= 0x0d) || u == 0x20 || u == 0x85 || u == 0xa0 || u == 0x1680 || (0x2000 <= u
        && u <= 0x200a) || u == 0x2028 || u == 0x2029 || u == 0x202f || u == 0x205f || u == 0x3000
}

/// Tests `is_digit`.
pub fn char_is_digit(c: char) -> (r: bool)
    ensures
        r == is_digit(c),
{
    let u: u32 = c as u32;
    0x30 <= u && u <= 0x39
}

/// Tests `in_class`.
pub fn char_in_class(class: CharClass, c: char) -> (r: bool)
    ensures
        r == in_class(class, c),
{
    match class {
        CharClass::Space => char_is_space(c),
        CharClass::Digit => char_is_digit(c),
        CharClass::Dash => c == '-',
        CharClass::Inline => c != '\n',
        CharClass::Feed => c == '\n',
    }
}

/// The index behind the run of `class` that starts at `from`.
pub fn skip_class(v: &Vec<char>, from: usize, class: CharClass) -> (to: usize)
    requires
        from <= v.len(),
    ensures
        from <= to <= v.len(),
        to == from + run_len(v@.skip(from as int), class),
{
    let mut j: usize = from;
    while j < v.len() && char_in_class(class, v[j])
        invariant
            from <= j <= v.len(),
            run_len(v@.skip(from as int), class) == (j - from) + run_len(v@.skip(j as int), class),
        decreases v.len() - j,
    {
        assert(v@.skip(j as int).skip(1) =~= v@.skip(j + 1));
        assert(v@.skip(j as int)[0] == v@[j as int]);
        j += 1;
    }
    assert(j < v.len() ==> v@.skip(j as int)[0] == v@[j as int]);
    j
}

/// Whether `lit` stands in `v` at index `at`.
pub fn has_at(v: &Vec<char>, at: usize, lit: &Vec<char>) -> (r: bool)
    requires
        at <= v.len(),
    ensures
        r == starts_with(v@.skip(at as int), lit@),
{
    if lit.len() > v.len() - at {
        return false;
    }
    let mut k: usize = 0;
    while k < lit.len()
        invariant
            at <= v.len(),
            lit.len() <= v.len() - at,
            k <= lit.len(),
            v@.skip(at as int).take(k as int) == lit@.take(k as int),
        decreases lit.len() - k,
    {
        if v[at + k] != lit[k] {
            assert(v@.skip(at as int).take(lit.len() as int)[k as int] != lit@[k as int]);
            return false;
        }
        assert(v@.skip(at as int).take(k + 1) =~= v@.skip(at as int).take(k as int).push(
            v@[at + k],
        ));
        assert(lit@.take(k + 1) =~= lit@.take(k as int).push(lit@[k as int]));
        k += 1;
    }
    assert(lit@.take(lit.len() as int) == lit@);
    true
}

/// Whether two vectors hold the same characters.
pub fn same_chars(a: &Vec<char>, b: &Vec<char>) -> (r: bool)
    ensures
        r == (a@ == b@),
{
    if a.len() != b.len() {
        return false;
    }
    let mut k: usize = 0;
    while k < a.len()
        invariant
            a.len() == b.len(),
            k <= a.len(),
            a@.take(k as int) == b@.take(k as int),
        decreases a.len() - k,
    {
        if a[k] != b[k] {
            return false;
        }
        assert(a@.take(k + 1) =~= a@.take(k as int).push(a@[k as int]));
        assert(b@.take(k + 1) =~= b@.take(k as int).push(b@[k as int]));
        k += 1;
    }
    assert(a@.take(a.len() as int) == a@);
    assert(b@.take(b.len() as int) == b@);
    true
}

/// Appends the characters of `src` from index `from` up to `to` to `dst`.
pub fn push_range(dst: &mut Vec<char>, src: &Vec<char>, from: usize, to: usize)
    requires
        from <= to <= src.len(),
    ensures
        final(dst)@ == old(dst)@ + src@.subrange(from as int, to as int),
{
    let mut k: usize = from;
    while k < to
        invariant
            from <= k <= to <= src.len(),
            dst@ == old(dst)@ + src@.subrange(from as int, k as int),
        decreases to - k,
    {
        dst.push(src[k]);
        assert(src@.subrange(from as int, k + 1) =~= src@.subrange(from as int, k as int).push(
            src@[k as int],
        ));
        k += 1;
    }
}

/// Reads the digits of `v` from index `from` up to `to` as a number in base ten. The
/// result is `None` when the number is above `cap`.
pub fn parse_decimal(v: &Vec<char>, from: usize, to: usize, cap: u64) -> (r: Option<u64>)
    requires
        from <= to <= v.len(),
        all_digits(v@.subrange(from as int, to as int)),
        cap <= 0xffff_ffff_ffff,
    ensures
        r == if decimal_value(v@.subrange(from as int, to as int)) <= cap {
            Some(decimal_value(v@.subrange(from as int, to as int)) as u64)
        } else {
            None
        },
{
    let ghost digits = v@.subrange(from as int, to as int);
    let mut acc: u64 = 0;
    let mut k: usize = from;
    while k < to
        invariant
            from <= k <= to <= v.len(),
            digits == v@.subrange(from as int, to as int),
            all_digits(digits),
            cap <= 0xffff_ffff_ffff,
            acc == decimal_value(digits.take(k - from)),
            acc <= cap,
        decreases to - k,
    {
        let c = v[k];
        assert(digits[k - from] == c);
        let d: u64 = (c as u32 - 0x30) as u64;
        proof {
            let next = digits.take(k - from + 1);
            assert(next.drop_last() =~= digits.take(k - from));
            assert(next.last() == c);
        }
        acc = acc * 10 + d;
        if acc > cap {
            proof {
                lemma_decimal_value_prefix(digits, k - from + 1);
            }
            return None;
        }
        k += 1;
    }
    assert(digits.take(to - from) == digits);
    Some(acc)
}

/// Writes `n` in base ten.
pub fn render_decimal(n: u64) -> (v: Vec<char>)
    ensures
        v@ == decimal(n as nat),
    decreases n,
{
    if n < 10 {
        let d: u8 = n as u8;
        let mut v: Vec<char> = Vec::new();
        v.push((d + 0x30) as char);
        assert(v@ =~= seq![digit_char(n as nat)]);
        v
    } else {
        let mut v = render_decimal(n / 10);
        let d: u8 = (n % 10) as u8;
        v.push((d + 0x30) as char);
        v
    }
}

/// Writes `n` in base ten, with its sign.
pub fn render_signed(n: i64) -> (v: Vec<char>)
    ensures
        v@ == signed_decimal(n as int),
{
    if n < 0 {
        let m: u64 = (-(n + 1)) as u64 + 1;
        let mut v: Vec<char> = Vec::new();
        v.push('-');
        let d = render_decimal(m);
        push_range(&mut v, &d, 0, d.len());
        assert(d@.subrange(0, d@.len() as int) == d@);
        assert(v@ =~= seq!['-'] + d@);
        v
    } else {
        render_decimal(n as u64)
    }
}

/// The view of an optional string.
pub open spec fn text_of(r: Option<String>) -> Option<Seq<char>> {
    match r {
        Some(s) => Some(s@),
        None => None,
    }
}

/// The views of the strings of a sequence.
pub open spec fn texts(v: Seq<String>) -> Seq<Seq<char>> {
    v.map_values(|s: String| s@)
}

/// The lowercase form of a string, as `str::to_lowercase` of the standard library gives
/// it: the lowercase of the Unicode character database, in which one character may
/// become several and a capital sigma depends on its place in the word.
pub uninterp spec fn lowercased(s: Seq<char>) -> Seq<char>;

/// Lowercases a string with `str::to_lowercase` of the standard library. The result
/// depends on the characters alone; the contract gives it a name and says no more of it.
#[verifier::external_body]
pub(crate) fn lowercase(s: &str) -> (r: String)
    ensures
        r@ == lowercased(s@),
{
    s.to_lowercase()
}

/// Appends one character to a string: `String::push` of the standard library, which adds
/// the character at the end and leaves what was there untouched.
#[verifier::external_body]
pub(crate) fn push_char(s: &mut String, c: char)
    ensures
        final(s)@ == old(s)@.push(c),
{
    s.push(c)
}

/// The characters of a string, in order.
pub fn chars_of(s: &str) -> (v: Vec<char>)
    ensures
        v@ == s@,
{
    broadcast use vstd::string::group_string_axioms;

    let mut v: Vec<char> = Vec::new();
    let it = s.chars();
    for c in iter: it
        invariant
            iter.seq() == s@,
            v@ == s@.take(iter.index()),
    {
        v.push(c);
    }
    assert(s@.take(s@.len() as int) == s@);
    v
}

/// The string made of the given characters.
pub fn string_of(v: &Vec<char>) -> (s: String)
    ensures
        s@ == v@,
{
    let mut s = String::new();
    let mut i: usize = 0;
    while i < v.len()
        invariant
            i <= v.len(),
            s@ == v@.take(i as int),
        decreases v.len() - i,
    {
        push_char(&mut s, v[i]);
        assert(v@.take(i + 1) =~= v@.take(i as int).push(v@[i as int]));
        i += 1;
    }
    assert(v@.take(v.len() as int) == v@);
    s
}

/// Computes `strip` of the characters of `v` from index `from` up to `to`.
pub fn strip_range(v: &Vec<char>, from: usize, to: usize, class: CharClass) -> (r: Vec<char>)
    requires
        from <= to <= v.len(),
    ensures
        r@ == strip(v@.subrange(from as int, to as int), class),
{
    let mut part: Vec<char> = Vec::new();
    push_range(&mut part, v, from, to);
    assert(part@.skip(0) == part@);
    let a = skip_class(&part, 0, class);
    let mut e: usize = part.len();
    while e > a && char_in_class(class, part[e - 1])
        invariant
            a <= e <= part.len(),
            strip(part@, class) == strip_end(part@.subrange(a as int, e as int), class),
        decreases e,
    {
        assert(part@.subrange(a as int, e as int).drop_last() =~= part@.subrange(a as int, e - 1));
        e -= 1;
    }
    let mut r: Vec<char> = Vec::new();
    push_range(&mut r, &part, a, e);
    r
}

/// The characters of a string without the white space at both ends.
pub fn trim_chars(s: &str) -> (r: Vec<char>)
    ensures
        r@ == strip(s@, CharClass::Space),
{
    let v = chars_of(s);
    assert(v@.subrange(0, v@.len() as int) == v@);
    strip_range(&v, 0, v.len(), CharClass::Space)
}

/// A string without the white space at both ends.
pub fn trim(s: &str) -> (r: String)
    ensures
        r@ == strip(s@, CharClass::Space),
{
    string_of(&trim_chars(s))
}

} // verus!
