//! Character classes and the conversions between `str`, `String`, and
//! character vectors that the text algorithms of this crate run on.
//!
//! ASCII classes and the Unicode `White_Space` and `Cc` sets are small
//! enough to state and compute here. Classes that need the Unicode tables
//! (`Alphabetic`, `Numeric`, case mappings) are taken from `std` and named:
//! the contracts below speak of those names.
use vstd::prelude::*;

verus! {

/// ASCII decimal digit.
pub open spec fn is_ascii_digit(c: char) -> bool {
    '0' <= c <= '9'
}

/// ASCII upper-case letter.
pub open spec fn is_ascii_upper(c: char) -> bool {
    'A' <= c <= 'Z'
}

/// ASCII lower-case letter.
pub open spec fn is_ascii_lower(c: char) -> bool {
    'a' <= c <= 'z'
}

/// ASCII letter.
pub open spec fn is_ascii_alpha(c: char) -> bool {
    is_ascii_upper(c) || is_ascii_lower(c)
}

/// ASCII letter or digit.
pub open spec fn is_ascii_alnum(c: char) -> bool {
    is_ascii_alpha(c) || is_ascii_digit(c)
}

/// ASCII hexadecimal digit.
pub open spec fn is_ascii_hex(c: char) -> bool {
    is_ascii_digit(c) || 'a' <= c <= 'f' || 'A' <= c <= 'F'
}

/// A character below U+0080.
pub open spec fn is_ascii(c: char) -> bool {
    (c as u32) < 0x80
}

/// ASCII lower-casing: `A`-`Z` map to `a`-`z`, everything else is unchanged.
pub open spec fn ascii_lower(c: char) -> char {
    if is_ascii_upper(c) {
        ((c as u32) + 32) as char
    } else {
        c
    }
}

/// ASCII upper-casing: `a`-`z` map to `A`-`Z`, everything else is unchanged.
pub open spec fn ascii_upper(c: char) -> char {
    if is_ascii_lower(c) {
        ((c as u32) - 32) as char
    } else {
        c
    }
}

/// The Unicode `White_Space` property, which `char::is_whitespace` and the
/// `trim` family of `str` follow.
pub open spec fn is_ws(c: char) -> bool {
    ||| '\t' <= c <= '\r'
    ||| c == ' '
    ||| c == '\u{85}'
    ||| c == '\u{A0}'
    ||| c == '\u{1680}'
    ||| '\u{2000}' <= c <= '\u{200A}'
    ||| c == '\u{2028}'
    ||| c == '\u{2029}'
    ||| c == '\u{202F}'
    ||| c == '\u{205F}'
    ||| c == '\u{3000}'
}

/// The Unicode `Cc` (control) category, which `char::is_control` follows.
pub open spec fn is_control(c: char) -> bool {
    c <= '\u{1F}' || ('\u{7F}' <= c <= '\u{9F}')
}

/// `char::is_alphanumeric`: the Unicode `Alphabetic` or `Numeric` property.
pub uninterp spec fn unicode_alphanumeric(c: char) -> bool;

/// `char::is_alphanumeric` as far as it is stated: on ASCII exactly the
/// letters and digits, beyond ASCII the Unicode property, which no
/// whitespace character has.
pub open spec fn alnum(c: char) -> bool {
    if is_ascii(c) {
        is_ascii_alnum(c)
    } else {
        unicode_alphanumeric(c) && !is_ws(c)
    }
}

/// `char::is_uppercase`: the Unicode `Uppercase` property.
pub uninterp spec fn unicode_uppercase(c: char) -> bool;

/// `char::is_lowercase`: the Unicode `Lowercase` property.
pub uninterp spec fn unicode_lowercase(c: char) -> bool;

/// `char::to_lowercase`: the full Unicode lower-case mapping of one char.
pub uninterp spec fn char_to_lower(c: char) -> Seq<char>;

/// `char::to_uppercase`: the full Unicode upper-case mapping of one char.
pub uninterp spec fn char_to_upper(c: char) -> Seq<char>;

/// `str::to_lowercase`: the lower-cased text, context-sensitive final sigma
/// included.
pub uninterp spec fn str_to_lower(s: Seq<char>) -> Seq<char>;

/// `<str as Debug>::fmt`: the quoted, escaped form of a text.
pub uninterp spec fn str_debug(s: Seq<char>) -> Seq<char>;

/// `<char as Debug>::fmt`: the quoted, escaped form of a char.
pub uninterp spec fn char_debug(c: char) -> Seq<char>;

/// Number of UTF-8 bytes that encode `c`.
pub open spec fn utf8_len(c: char) -> nat {
    if (c as u32) < 0x80 {
        1
    } else if (c as u32) < 0x800 {
        2
    } else if (c as u32) < 0x10000 {
        3
    } else {
        4
    }
}

/// Number of UTF-8 bytes that encode `s`.
pub open spec fn byte_len(s: Seq<char>) -> nat
    decreases s.len(),
{
    if s.len() == 0 {
        0
    } else {
        byte_len(s.drop_last()) + utf8_len(s.last())
    }
}

pub fn ascii_digit(c: char) -> (r: bool)
    ensures
        r == is_ascii_digit(c),
{
    '0' <= c && c <= '9'
}

pub fn ascii_alpha(c: char) -> (r: bool)
    ensures
        r == is_ascii_alpha(c),
{
    ('A' <= c && c <= 'Z') || ('a' <= c && c <= 'z')
}

pub fn ascii_alnum(c: char) -> (r: bool)
    ensures
        r == is_ascii_alnum(c),
{
    ascii_alpha(c) || ascii_digit(c)
}

pub fn ascii_hex(c: char) -> (r: bool)
    ensures
        r == is_ascii_hex(c),
{
    ascii_digit(c) || ('a' <= c && c <= 'f') || ('A' <= c && c <= 'F')
}

pub fn to_ascii_lower(c: char) -> (r: char)
    ensures
        r == ascii_lower(c),
{
    if 'A' <= c && c <= 'Z' {
        let b: u8 = c as u8;
        (b + 32) as char
    } else {
        c
    }
}

pub fn to_ascii_upper(c: char) -> (r: char)
    ensures
        r == ascii_upper(c),
{
    if 'a' <= c && c <= 'z' {
        let b: u8 = c as u8;
        (b - 32) as char
    } else {
        c
    }
}

pub fn whitespace(c: char) -> (r: bool)
    ensures
        r == is_ws(c),
{
    ('\t' <= c && c <= '\r') || c == ' ' || c == '\u{85}' || c == '\u{A0}' || c == '\u{1680}'
        || ('\u{2000}' <= c && c <= '\u{200A}') || c == '\u{2028}' || c == '\u{2029}' || c
        == '\u{202F}' || c == '\u{205F}' || c == '\u{3000}'
}

pub fn control(c: char) -> (r: bool)
    ensures
        r == is_control(c),
{
    c <= '\u{1F}' || ('\u{7F}' <= c && c <= '\u{9F}')
}

pub fn char_utf8_len(c: char) -> (r: usize)
    ensures
        r == utf8_len(c),
{
    let n: u32 = c as u32;
    if n < 0x80 {
        1
    } else if n < 0x800 {
        2
    } else if n < 0x10000 {
        3
    } else {
        4
    }
}

/// Calls `char::is_alphanumeric`. Its result is the Unicode `Alphabetic` or
/// `Numeric` property, named [`unicode_alphanumeric`]; on ASCII it is exactly
/// the letters and digits, and no `White_Space` character has it.
#[verifier::external_body]
pub(crate) fn alphanumeric(c: char) -> (r: bool)
    ensures
        r == unicode_alphanumeric(c),
        is_ascii(c) ==> (r == is_ascii_alnum(c)),
        is_ws(c) ==> !r,
{
    c.is_alphanumeric()
}

/// Calls `char::is_uppercase`, the Unicode `Uppercase` property, named
/// [`unicode_uppercase`]; on ASCII it is exactly `A`-`Z`.
#[verifier::external_body]
pub(crate) fn uppercase(c: char) -> (r: bool)
    ensures
        r == unicode_uppercase(c),
        is_ascii(c) ==> (r == is_ascii_upper(c)),
{
    c.is_uppercase()
}

/// Calls `char::is_lowercase`, the Unicode `Lowercase` property, named
/// [`unicode_lowercase`]; on ASCII it is exactly `a`-`z`.
#[verifier::external_body]
pub(crate) fn lowercase(c: char) -> (r: bool)
    ensures
        r == unicode_lowercase(c),
        is_ascii(c) ==> (r == is_ascii_lower(c)),
{
    c.is_lowercase()
}

/// Calls `char::to_lowercase` and collects the mapping, named
/// [`char_to_lower`]; an ASCII char maps to its ASCII lower case alone.
#[verifier::external_body]
pub(crate) fn lower_mapping(c: char) -> (r: Vec<char>)
    ensures
        r@ == char_to_lower(c),
        is_ascii(c) ==> r@ == seq![ascii_lower(c)],
{
    c.to_lowercase().collect()
}

/// Calls `char::to_uppercase` and collects the mapping, named
/// [`char_to_upper`]; an ASCII char maps to its ASCII upper case alone.
#[verifier::external_body]
pub(crate) fn upper_mapping(c: char) -> (r: Vec<char>)
    ensures
        r@ == char_to_upper(c),
        is_ascii(c) ==> r@ == seq![ascii_upper(c)],
{
    c.to_uppercase().collect()
}

/// Calls `str::to_lowercase`, named [`str_to_lower`].
#[verifier::external_body]
pub(crate) fn lowercase_text(s: &str) -> (r: String)
    ensures
        r@ == str_to_lower(s@),
{
    s.to_lowercase()
}

/// Calls `str::len`: the number of UTF-8 bytes of `s`, which a `str` keeps
/// at most `isize::MAX` (no allocation is larger).
#[verifier::external_body]
pub(crate) fn str_byte_len(s: &str) -> (r: usize)
    ensures
        r == byte_len(s@),
        r <= isize::MAX,
{
    s.len()
}

/// Learns that a text's UTF-8 length fits an `isize`, as every `str` does.
pub(crate) fn text_fits(s: &str)
    ensures
        byte_len(s@) <= isize::MAX,
{
    let n = str_byte_len(s);
    assert(n == byte_len(s@));
}

/// Formats `s` with `{:?}` (`<str as Debug>::fmt`): the text in double
/// quotes with quotes, backslashes and unprintable chars escaped; named
/// [`str_debug`].
#[verifier::external_body]
pub(crate) fn debug_str(s: &str) -> (r: String)
    ensures
        r@ == str_debug(s@),
{
    format!("{s:?}")
}

/// Formats `c` with `{:?}` (`<char as Debug>::fmt`): the char in single
/// quotes, escaped like a string; named [`char_debug`].
#[verifier::external_body]
pub(crate) fn debug_char(c: char) -> (r: String)
    ensures
        r@ == char_debug(c),
{
    format!("{c:?}")
}

/// The characters of `s`, in order.
pub fn chars_of(s: &str) -> (v: Vec<char>)
    ensures
        v@ == s@,
{
    let mut v: Vec<char> = Vec::new();
    for c in it: s.chars()
        invariant
            v@ == it.seq().take(it.index() as int),
    {
        v.push(c);
    }
    v
}

/// Collects characters into a `String` (`FromIterator<&char>`).
#[verifier::external_body]
pub(crate) fn string_of(v: &[char]) -> (s: String)
    ensures
        s@ == v@,
{
    v.iter().collect()
}

} // verus!
