//! Character-level helpers shared by the document and search logic:
//! the Unicode character classes that std decides, turning strings into
//! character vectors and back, and decimal rendering of counts.

use vstd::prelude::*;

verus! {

/// `c` is an ASCII character.
pub open spec fn is_ascii_char(c: char) -> bool {
    (c as u32) < 128
}

/// `c` with an ASCII capital letter mapped to its small letter, as
/// `char::to_ascii_lowercase` does.
pub open spec fn ascii_lower(c: char) -> char {
    if 'A' <= c <= 'Z' {
        ((c as u32) + 32) as char
    } else {
        c
    }
}

/// `c` is an ASCII letter or digit, as `char::is_ascii_alphanumeric` says.
pub open spec fn ascii_alnum(c: char) -> bool {
    ('A' <= c <= 'Z') || ('a' <= c <= 'z') || ('0' <= c <= '9')
}

/// The first character that `char::to_lowercase` yields for a non-ASCII
/// `c`, if any (the whole lowercase mapping is given by the Unicode
/// tables).
pub uninterp spec fn lowercase_first(c: char) -> Option<char>;

/// The first character that `char::to_lowercase` yields for `c`: for an
/// ASCII character the mapping of `char::to_ascii_lowercase`.
pub open spec fn lowercase_first_char(c: char) -> Option<char> {
    if is_ascii_char(c) {
        Some(ascii_lower(c))
    } else {
        lowercase_first(c)
    }
}

/// `c` as compared when case is ignored: the first character of its
/// lowercase form, or `c` itself should that form be empty.
pub open spec fn fold_char(c: char) -> char {
    match lowercase_first_char(c) {
        Some(l) => l,
        None => c,
    }
}

/// Whether `char::is_alphanumeric` holds of a non-ASCII `c` (the Unicode
/// `Alphabetic` or `Numeric` properties).
pub uninterp spec fn is_alphanumeric_char(c: char) -> bool;

/// Whether `char::is_alphanumeric` holds of `c`: among ASCII characters,
/// exactly the letters and digits.
pub open spec fn alphanumeric(c: char) -> bool {
    if is_ascii_char(c) {
        ascii_alnum(c)
    } else {
        is_alphanumeric_char(c)
    }
}

/// Whether `c` has the Unicode `White_Space` property, as
/// `char::is_whitespace` decides: tab to carriage return, space, next
/// line, no-break space, ogham space mark, the spaces from en quad to hair
/// space, line and paragraph separators, narrow no-break space, medium
/// mathematical space and ideographic space.
pub open spec fn is_whitespace_char(c: char) -> bool {
    let u = c as u32;
    (9 <= u <= 13) || u == 0x20 || u == 0x85 || u == 0xA0 || u == 0x1680 || (0x2000 <= u
        <= 0x200A) || u == 0x2028 || u == 0x2029 || u == 0x202F || u == 0x205F || u == 0x3000
}

/// Calls `char::to_lowercase` and takes the first character it yields.
/// Claimed: for an ASCII character that is the character that
/// `char::to_ascii_lowercase` gives (std documents that ASCII letters map
/// to their small letters and other ASCII characters to themselves); for
/// any other character it is `lowercase_first(c)`, a function of `c` alone.
#[verifier::external_body]
fn lowercase_first_of(c: char) -> (r: Option<char>)
    ensures
        is_ascii_char(c) ==> r == Some(ascii_lower(c)),
        !is_ascii_char(c) ==> r == lowercase_first(c),
{
    c.to_lowercase().next()
}

/// `c` as compared when case is ignored.
pub fn fold_lowercase(c: char) -> (r: char)
    ensures
        r == fold_char(c),
{
    match lowercase_first_of(c) {
        Some(l) => l,
        None => c,
    }
}

/// Calls `char::is_alphanumeric`. Claimed: on an ASCII character it holds
/// exactly of the letters and digits (those with the Unicode `Alphabetic`
/// or `Numeric` property); on any other character the result is
/// `is_alphanumeric_char(c)`, a function of `c` alone.
#[verifier::external_body]
pub(crate) fn is_alphanumeric(c: char) -> (r: bool)
    ensures
        is_ascii_char(c) ==> r == ascii_alnum(c),
        !is_ascii_char(c) ==> r == is_alphanumeric_char(c),
{
    c.is_alphanumeric()
}

/// Whether `c` is whitespace, as `char::is_whitespace` decides.
pub(crate) fn is_whitespace(c: char) -> (r: bool)
    ensures
        r == is_whitespace_char(c),
{
    let u = c as u32;
    (9 <= u && u <= 13) || u == 0x20 || u == 0x85 || u == 0xA0 || u == 0x1680 || (0x2000 <= u && u
        <= 0x200A) || u == 0x2028 || u == 0x2029 || u == 0x202F || u == 0x205F || u == 0x3000
}

/// Calls `String::push`. Claimed: `c` is appended to the characters of `s`.
#[verifier::external_body]
pub(crate) fn push_char(s: &mut String, c: char)
    ensures
        final(s)@ == old(s)@.push(c),
{
    s.push(c);
}

/// The characters of `s`, in order, as a vector.
pub fn chars_of(s: &str) -> (out: Vec<char>)
    ensures
        out@ == s@,
{
    let mut out: Vec<char> = Vec::new();
    for c in it: s.chars()
        invariant
            it.seq() == s@,
            out@ == it.seq().take(it.index() as int),
    {
        out.push(c);
    }
    out
}

/// Appends `cs[from..to]` to `s`.
pub fn push_chars(s: &mut String, cs: &Vec<char>, from: usize, to: usize)
    requires
        from <= to <= cs.len(),
    ensures
        final(s)@ == old(s)@ + cs@.subrange(from as int, to as int),
{
    let mut i = from;
    while i < to
        invariant
            from <= i <= to <= cs.len(),
            s@ == old(s)@ + cs@.subrange(from as int, i as int),
        decreases to - i,
    {
        push_char(s, cs[i]);
        assert(cs@.subrange(from as int, i + 1) == cs@.subrange(from as int, i as int).push(cs@[i as int]));
        i += 1;
    }
}

/// A string holding exactly the characters `cs[from..to]`.
pub fn string_from_chars(cs: &Vec<char>, from: usize, to: usize) -> (s: String)
    requires
        from <= to <= cs.len(),
    ensures
        s@ == cs@.subrange(from as int, to as int),
{
    let mut s = String::new();
    push_chars(&mut s, cs, from, to);
    s
}

/// Appends every character of `t` to `s`.
pub fn push_str_chars(s: &mut String, t: &str)
    ensures
        final(s)@ == old(s)@ + t@,
{
    let cs = chars_of(t);
    push_chars(s, &cs, 0, cs.len());
    assert(cs@.subrange(0, cs@.len() as int) == t@);
}

/// The ASCII digit for `d`, which is below ten.
pub open spec fn digit_char(d: nat) -> char {
    ((48 + d) as u32) as char
}

/// The decimal numeral of `n`, most significant digit first, without
/// leading zeros (`0` is written `0`).
pub open spec fn decimal(n: nat) -> Seq<char>
    decreases n,
{
    if n < 10 {
        seq![digit_char(n)]
    } else {
        decimal(n / 10).push(digit_char(n % 10))
    }
}

/// Appends the decimal numeral of `n` to `s`.
pub fn push_decimal(s: &mut String, n: usize)
    ensures
        final(s)@ == old(s)@ + decimal(n as nat),
    decreases n,
{
    if n >= 10 {
        push_decimal(s, n / 10);
    }
    let d: u8 = (n % 10) as u8;
    let c: char = (48u8 + d) as char;
    assert(c == digit_char((n % 10) as nat));
    push_char(s, c);
}

} // verus!
