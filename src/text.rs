use vstd::prelude::*;

verus! {

/// The class of a character, as the scorer sees it.
#[derive(Clone, Copy, Debug, PartialEq, Eq, Structural)]
pub enum CharClass {
    Lower,
    Upper,
    Digit,
    Symbol,
}

/// What `char::is_lowercase` returns for a character (Unicode `Lowercase`).
pub uninterp spec fn lowercase_of(c: char) -> bool;

/// What `char::is_uppercase` returns for a character (Unicode `Uppercase`).
pub uninterp spec fn uppercase_of(c: char) -> bool;

/// Relies on `char::is_lowercase`: true for characters with the Unicode
/// `Lowercase` property.
#[verifier::external_body]
fn is_lowercase(c: char) -> (r: bool)
    ensures
        r == lowercase_of(c),
{
    c.is_lowercase()
}

/// Relies on `char::is_uppercase`: true for characters with the Unicode
/// `Uppercase` property.
#[verifier::external_body]
fn is_uppercase(c: char) -> (r: bool)
    ensures
        r == uppercase_of(c),
{
    c.is_uppercase()
}

pub open spec fn is_digit_spec(c: char) -> bool {
    '0' <= c && c <= '9'
}

/// The class of `c`: Unicode case first, then ASCII digits, the rest symbols.
pub open spec fn class_of(c: char) -> CharClass {
    if lowercase_of(c) {
        CharClass::Lower
    } else if uppercase_of(c) {
        CharClass::Upper
    } else if is_digit_spec(c) {
        CharClass::Digit
    } else {
        CharClass::Symbol
    }
}

/// The code of `c` after ASCII lower-casing (`'A'..='Z'` map to `'a'..='z'`).
pub open spec fn folded_code(c: char) -> u32 {
    if 'A' <= c && c <= 'Z' {
        (c as u32 + 32) as u32
    } else {
        c as u32
    }
}

/// Two characters match when they are equal up to ASCII case.
pub open spec fn same_folded(a: char, b: char) -> bool {
    folded_code(a) == folded_code(b)
}

pub fn is_ascii_digit(c: char) -> (r: bool)
    ensures
        r == is_digit_spec(c),
{
    '0' <= c && c <= '9'
}

pub fn classify(c: char) -> (r: CharClass)
    ensures
        r == class_of(c),
{
    if is_lowercase(c) {
        CharClass::Lower
    } else if is_uppercase(c) {
        CharClass::Upper
    } else if is_ascii_digit(c) {
        CharClass::Digit
    } else {
        CharClass::Symbol
    }
}

/// Case-insensitive comparison of two characters, ASCII letters only.
pub fn chars_match(a: char, b: char) -> (r: bool)
    ensures
        r == same_folded(a, b),
{
    let ca: u32 = if 'A' <= a && a <= 'Z' { a as u32 + 32 } else { a as u32 };
    let cb: u32 = if 'A' <= b && b <= 'Z' { b as u32 + 32 } else { b as u32 };
    ca == cb
}

/// The characters of `s`, in order.
pub fn chars_of(s: &str) -> (r: Vec<char>)
    ensures
        r@ == s@,
{
    let mut out: Vec<char> = Vec::new();
    for c in it: s.chars()
        invariant
            out@ == it.seq().take(it.index() as int),
            it.seq() == s@,
    {
        out.push(c);
    }
    out
}

} // verus!
