//! Characters, strings and decimal numbers: the plain text operations that
//! the naming rules are built from.

use vstd::prelude::*;

verus! {

// ---------------------------------------------------------------------------
// Character classes
// ---------------------------------------------------------------------------

pub open spec fn is_ascii_upper(c: char) -> bool {
    'A' <= c && c <= 'Z'
}

pub open spec fn is_ascii_lower(c: char) -> bool {
    'a' <= c && c <= 'z'
}

pub open spec fn is_ascii_digit(c: char) -> bool {
    '0' <= c && c <= '9'
}

pub open spec fn is_ascii_letter(c: char) -> bool {
    is_ascii_upper(c) || is_ascii_lower(c)
}

pub open spec fn is_ascii_char(c: char) -> bool {
    '\0' <= c && c <= '\u{7f}'
}

/// The Unicode `White_Space` property.
pub open spec fn is_white_space(c: char) -> bool {
    let u = c as u32;
    ||| 0x09 <= u <= 0x0d
    ||| u == 0x20
    ||| u == 0x85
    ||| u == 0xa0
    ||| u == 0x1680
    ||| 0x2000 <= u <= 0x200a
    ||| u == 0x2028
    ||| u == 0x2029
    ||| u == 0x202f
    ||| u == 0x205f
    ||| u == 0x3000
}

/// What `char::is_alphanumeric` answers for a character outside ASCII (the
/// Unicode `Alphabetic` or `Numeric` property).
pub uninterp spec fn unicode_alphanumeric(c: char) -> bool;

/// What `char::to_uppercase` yields for a character outside ASCII, collected
/// into a string.
pub uninterp spec fn unicode_uppercase(c: char) -> Seq<char>;

/// `char::is_alphanumeric`: on ASCII, the letters and the digits.
pub open spec fn is_alphanumeric(c: char) -> bool {
    if is_ascii_char(c) {
        is_ascii_letter(c) || is_ascii_digit(c)
    } else {
        unicode_alphanumeric(c)
    }
}

/// `char::to_uppercase`: on ASCII, `a`..`z` become `A`..`Z` and every other
/// character stays as it is.
pub open spec fn uppercase_of(c: char) -> Seq<char> {
    if is_ascii_char(c) {
        seq![ascii_upper(c)]
    } else {
        unicode_uppercase(c)
    }
}

/// The ASCII upper-case letter for an ASCII lower-case one, else the
/// character itself.
pub open spec fn ascii_upper(c: char) -> char {
    if is_ascii_lower(c) {
        ((c as u32) - 32) as char
    } else {
        c
    }
}

/// Whether `c` is white space (what `char::is_whitespace` answers).
pub fn char_is_whitespace(c: char) -> (b: bool)
    ensures
        b == is_white_space(c),
{
    let u = c as u32;
    (0x09 <= u && u <= 0x0d) || u == 0x20 || u == 0x85 || u == 0xa0 || u == 0x1680
        || (0x2000 <= u && u <= 0x200a) || u == 0x2028 || u == 0x2029 || u == 0x202f
        || u == 0x205f || u == 0x3000
}

/// `char::is_alphanumeric`: stated exactly on ASCII (the letters and the
/// digits); outside ASCII named by `unicode_alphanumeric`.
#[verifier::external_body]
pub(crate) fn char_is_alphanumeric(c: char) -> (b: bool)
    ensures
        b == is_alphanumeric(c),
        !is_ascii_char(c) ==> b == unicode_alphanumeric(c),
{
    c.is_alphanumeric()
}

/// `char::to_uppercase`, collected into a `String`: stated exactly on ASCII
/// (`a`..`z` to `A`..`Z`, all else unchanged); outside ASCII named by
/// `unicode_uppercase`.
#[verifier::external_body]
pub(crate) fn char_to_uppercase(c: char) -> (s: String)
    ensures
        s@ == uppercase_of(c),
        !is_ascii_char(c) ==> s@ == unicode_uppercase(c),
{
    c.to_uppercase().collect::<String>()
}

/// `String::push`: appends one character.
#[verifier::external_body]
pub(crate) fn push_char(s: &mut String, c: char)
    ensures
        final(s)@ == old(s)@.push(c),
{
    s.push(c);
}

// ---------------------------------------------------------------------------
// Strings as character sequences
// ---------------------------------------------------------------------------

/// The characters of a string, in order.
pub fn chars_of(s: &str) -> (v: Vec<char>)
    ensures
        v@ == s@,
{
    let mut v: Vec<char> = Vec::new();
    for c in it: s.chars()
        invariant
            it.seq() == s@,
            v@ == s@.take(it.index() as int),
    {
        v.push(c);
    }
    v
}

/// Appends the characters `v[lo..hi]` to `s`.
pub fn push_chars(s: &mut String, v: &Vec<char>, lo: usize, hi: usize)
    requires
        lo <= hi <= v.len(),
    ensures
        final(s)@ == old(s)@ + v@.subrange(lo as int, hi as int),
{
    let mut i = lo;
    while i < hi
        invariant
            lo <= i <= hi <= v.len(),
            s@ == old(s)@ + v@.subrange(lo as int, i as int),
        decreases hi - i,
    {
        push_char(s, v[i]);
        assert(v@.subrange(lo as int, i + 1) == v@.subrange(lo as int, i as int).push(v@[i as int]));
        i += 1;
    }
}

/// The string made of the characters `v[lo..hi]`.
pub fn string_of(v: &Vec<char>, lo: usize, hi: usize) -> (s: String)
    requires
        lo <= hi <= v.len(),
    ensures
        s@ == v@.subrange(lo as int, hi as int),
{
    let mut s = String::new();
    push_chars(&mut s, v, lo, hi);
    s
}

// ---------------------------------------------------------------------------
// Trimming
// ---------------------------------------------------------------------------

/// The two kinds of character that the naming rules trim from text.
#[derive(Clone, Copy, PartialEq, Eq, Structural)]
pub enum Trim {
    /// Unicode white space (`str::trim`).
    WhiteSpace,
    /// Everything that is not alphanumeric (`trim_matches(|c| !c.is_alphanumeric())`).
    NonAlphanumeric,
}

pub open spec fn trimmed_away(kind: Trim, c: char) -> bool {
    match kind {
        Trim::WhiteSpace => is_white_space(c),
        Trim::NonAlphanumeric => !is_alphanumeric(c),
    }
}

/// `s` without its leading characters of the given kind.
pub open spec fn strip_front(s: Seq<char>, kind: Trim) -> Seq<char>
    decreases s.len(),
{
    if s.len() > 0 && trimmed_away(kind, s[0]) {
        strip_front(s.drop_first(), kind)
    } else {
        s
    }
}

/// `s` without its trailing characters of the given kind.
pub open spec fn strip_back(s: Seq<char>, kind: Trim) -> Seq<char>
    decreases s.len(),
{
    if s.len() > 0 && trimmed_away(kind, s.last()) {
        strip_back(s.drop_last(), kind)
    } else {
        s
    }
}

/// `s` without its leading and trailing characters of the given kind.
pub open spec fn trim(s: Seq<char>, kind: Trim) -> Seq<char> {
    strip_back(strip_front(s, kind), kind)
}

pub fn is_trimmed_away(kind: Trim, c: char) -> (b: bool)
    ensures
        b == trimmed_away(kind, c),
{
    match kind {
        Trim::WhiteSpace => char_is_whitespace(c),
        Trim::NonAlphanumeric => !char_is_alphanumeric(c),
    }
}

/// The bounds `lo..hi` of the trimmed part of `v`.
pub fn trim_bounds(v: &Vec<char>, kind: Trim) -> (r: (usize, usize))
    ensures
        r.0 <= r.1 <= v.len(),
        v@.subrange(r.0 as int, r.1 as int) == trim(v@, kind),
{
    let mut lo: usize = 0;
    assert(v@.skip(0) == v@);
    while lo < v.len() && is_trimmed_away(kind, v[lo])
        invariant
            lo <= v.len(),
            strip_front(v@, kind) == strip_front(v@.skip(lo as int), kind),
        decreases v.len() - lo,
    {
        assert(v@.skip(lo as int).drop_first() == v@.skip(lo + 1));
        lo += 1;
    }
    assert(v@.skip(lo as int) == v@.subrange(lo as int, v.len() as int));
    assert(strip_front(v@, kind) == v@.subrange(lo as int, v.len() as int));
    let mut hi: usize = v.len();
    while hi > lo && is_trimmed_away(kind, v[hi - 1])
        invariant
            lo <= hi <= v.len(),
            trim(v@, kind) == strip_back(v@.subrange(lo as int, hi as int), kind),
        decreases hi,
    {
        assert(v@.subrange(lo as int, hi as int).drop_last() == v@.subrange(lo as int, hi - 1));
        hi -= 1;
    }
    (lo, hi)
}

/// `s` trimmed of the characters of the given kind at both ends.
pub fn trim_str(s: &str, kind: Trim) -> (t: String)
    ensures
        t@ == trim(s@, kind),
{
    let v = chars_of(s);
    let (lo, hi) = trim_bounds(&v, kind);
    string_of(&v, lo, hi)
}

// ---------------------------------------------------------------------------
// Lines
// ---------------------------------------------------------------------------

/// The number of characters before the first `'\n'` (all of them if there is none).
pub open spec fn line_end(s: Seq<char>) -> nat
    decreases s.len(),
{
    if s.len() == 0 || s[0] == '\n' {
        0
    } else {
        1 + line_end(s.drop_first())
    }
}

/// The first item of `str::lines`: the text before the first line feed,
/// without the carriage return of a `"\r\n"` ending; none for empty text.
pub open spec fn first_line(s: Seq<char>) -> Option<Seq<char>> {
    if s.len() == 0 {
        None
    } else {
        let k = line_end(s);
        let line = s.take(k as int);
        if k < s.len() && line.len() > 0 && line.last() == '\r' {
            Some(line.drop_last())
        } else {
            Some(line)
        }
    }
}

pub proof fn lemma_line_end_bound(s: Seq<char>)
    ensures
        line_end(s) <= s.len(),
        line_end(s) < s.len() ==> s[line_end(s) as int] == '\n',
        forall|i: int| 0 <= i < line_end(s) ==> s[i] != '\n',
    decreases s.len(),
{
    if s.len() > 0 && s[0] != '\n' {
        lemma_line_end_bound(s.drop_first());
        assert forall|i: int| 0 <= i < line_end(s) implies s[i] != '\n' by {
            if i > 0 {
                assert(s[i] == s.drop_first()[i - 1]);
            }
        }
    }
}

/// The first line of `v`, as the bounds `lo..hi` within `v`; none for empty text.
pub fn first_line_bounds(v: &Vec<char>) -> (r: Option<usize>)
    ensures
        match (r, first_line(v@)) {
            (None, None) => true,
            (Some(hi), Some(line)) => hi <= v.len() && line == v@.take(hi as int),
            _ => false,
        },
{
    if v.len() == 0 {
        return None;
    }
    proof {
        lemma_line_end_bound(v@);
    }
    let mut k: usize = 0;
    while k < v.len() && v[k] != '\n'
        invariant
            k <= v.len(),
            k <= line_end(v@),
            line_end(v@) <= v.len(),
            line_end(v@) < v.len() ==> v@[line_end(v@) as int] == '\n',
            forall|i: int| 0 <= i < line_end(v@) ==> v@[i] != '\n',
        decreases v.len() - k,
    {
        k += 1;
    }
    assert(k == line_end(v@));
    if k < v.len() && k > 0 && v[k - 1] == '\r' {
        assert(v@.take(k as int).drop_last() == v@.take(k - 1));
        Some(k - 1)
    } else {
        Some(k)
    }
}

// ---------------------------------------------------------------------------
// Decimal numbers
// ---------------------------------------------------------------------------

pub open spec fn digit_char(d: nat) -> char {
    ((d + 48) as u32) as char
}

/// The decimal digits of `n`, without leading zeros.
pub open spec fn decimal(n: nat) -> Seq<char>
    decreases n,
{
    if n < 10 {
        seq![digit_char(n)]
    } else {
        decimal(n / 10).push(digit_char(n % 10))
    }
}

/// Appends the decimal digits of `n` to `s` (what `format!("{n}")` writes).
pub fn push_decimal(s: &mut String, n: u64)
    ensures
        final(s)@ == old(s)@ + decimal(n as nat),
    decreases n,
{
    if n >= 10 {
        push_decimal(s, n / 10);
    }
    let d: u8 = (n % 10) as u8;
    let c: char = (d + 48) as char;
    assert(c == digit_char((n % 10) as nat));
    push_char(s, c);
    assert(s@ == old(s)@ + decimal(n as nat));
}

} // verus!

verus! {

/// The number of ASCII capital letters in `s`.
pub open spec fn count_upper(s: Seq<char>) -> nat
    decreases s.len(),
{
    if s.len() == 0 {
        0
    } else {
        count_upper(s.drop_last()) + if is_ascii_upper(s.last()) {
            1nat
        } else {
            0nat
        }
    }
}

} // verus!

verus! {

/// `w` stands somewhere in `s` as a contiguous part.
pub open spec fn occurs_in(w: Seq<char>, s: Seq<char>) -> bool {
    exists|i: int| 0 <= i && i + w.len() <= s.len() && #[trigger] s.subrange(i, i + w.len()) == w
}

/// A part of a part of `s` is a part of `s`.
pub proof fn lemma_occurs_in_part(w: Seq<char>, t: Seq<char>, s: Seq<char>, a: int, b: int)
    requires
        0 <= a <= b <= s.len(),
        t == s.subrange(a, b),
        occurs_in(w, t),
    ensures
        occurs_in(w, s),
{
    let i = choose|i: int| 0 <= i && i + w.len() <= t.len() && #[trigger] t.subrange(i, i + w.len()) == w;
    assert(s.subrange(a + i, a + i + w.len()) == w);
}

proof fn lemma_strip_front_range(s: Seq<char>, kind: Trim) -> (a: int)
    ensures
        0 <= a <= s.len(),
        strip_front(s, kind) == s.subrange(a, s.len() as int),
    decreases s.len(),
{
    if s.len() > 0 && trimmed_away(kind, s[0]) {
        let a1 = lemma_strip_front_range(s.drop_first(), kind);
        assert(s.drop_first().subrange(a1, s.len() - 1) == s.subrange(a1 + 1, s.len() as int));
        a1 + 1
    } else {
        assert(s.subrange(0, s.len() as int) == s);
        0
    }
}

proof fn lemma_strip_back_range(s: Seq<char>, kind: Trim) -> (b: int)
    ensures
        0 <= b <= s.len(),
        strip_back(s, kind) == s.subrange(0, b),
    decreases s.len(),
{
    if s.len() > 0 && trimmed_away(kind, s.last()) {
        let b1 = lemma_strip_back_range(s.drop_last(), kind);
        assert(s.drop_last().subrange(0, b1) == s.subrange(0, b1));
        b1
    } else {
        assert(s.subrange(0, s.len() as int) == s);
        s.len() as int
    }
}

/// Trimming keeps a contiguous part of the text.
pub proof fn lemma_trim_is_part(s: Seq<char>, kind: Trim)
    ensures
        occurs_in(trim(s, kind), s),
{
    let a = lemma_strip_front_range(s, kind);
    let f = strip_front(s, kind);
    let b = lemma_strip_back_range(f, kind);
    assert(f.subrange(0, b) == s.subrange(a, a + b));
    assert(s.subrange(a, a + trim(s, kind).len()) == trim(s, kind));
}

/// The first line holds no line feed.
pub proof fn lemma_first_line_has_no_line_feed(s: Seq<char>)
    ensures
        first_line(s) matches Some(line) ==> forall|k: int| 0 <= k < line.len() ==> line[k] != '\n',
{
    lemma_line_end_bound(s);
    if let Some(line) = first_line(s) {
        assert forall|k: int| 0 <= k < line.len() implies line[k] != '\n' by {
            assert(line[k] == s[k]);
        }
    }
}

} // verus!
