//! Character classes.

use vstd::prelude::*;

verus! {

/// The characters of the Unicode property `White_Space`.
pub open spec fn is_space_char(c: char) -> bool {
    ||| '\u{9}' <= c <= '\u{d}'
    ||| c == ' '
    ||| c == '\u{85}'
    ||| c == '\u{a0}'
    ||| c == '\u{1680}'
    ||| '\u{2000}' <= c <= '\u{200a}'
    ||| c == '\u{2028}'
    ||| c == '\u{2029}'
    ||| c == '\u{202f}'
    ||| c == '\u{205f}'
    ||| c == '\u{3000}'
}

pub open spec fn is_ascii_digit_char(c: char) -> bool {
    '0' <= c <= '9'
}

pub open spec fn is_ascii_upper_char(c: char) -> bool {
    'A' <= c <= 'Z'
}

pub open spec fn is_ascii_lower_char(c: char) -> bool {
    'a' <= c <= 'z'
}

/// ASCII letters and digits.
pub open spec fn is_ascii_word_char(c: char) -> bool {
    is_ascii_digit_char(c) || is_ascii_upper_char(c) || is_ascii_lower_char(c)
}

/// `c` with an ASCII capital turned into the small letter.
pub open spec fn ascii_lower(c: char) -> char {
    if is_ascii_upper_char(c) {
        (c as u32 + 32) as char
    } else {
        c
    }
}

/// `c` with an ASCII small letter turned into the capital.
pub open spec fn ascii_upper(c: char) -> char {
    if is_ascii_lower_char(c) {
        (c as u32 - 32) as char
    } else {
        c
    }
}

/// What `char::is_alphanumeric` answers: whether Unicode calls the character
/// alphabetic or numeric.
pub uninterp spec fn char_alphanumeric(c: char) -> bool;

/// Letters and digits: the ASCII ones, and beyond ASCII what Unicode calls
/// alphabetic or numeric.
pub open spec fn is_alphanumeric_char(c: char) -> bool {
    if (c as u32) < 128 {
        is_ascii_word_char(c)
    } else {
        char_alphanumeric(c)
    }
}

/// `char::is_whitespace` of the standard library: true of exactly the
/// characters with the `White_Space` property.
pub assume_specification[ char::is_whitespace ](c: char) -> (res: bool)
    ensures
        res == is_space_char(c),
;

/// `char::is_alphanumeric` of the standard library. Its answer is a fixed
/// function of the character; among the ASCII characters it is true of letters
/// and digits only.
pub assume_specification[ char::is_alphanumeric ](c: char) -> (res: bool)
    ensures
        (c as u32) < 128 ==> res == is_ascii_word_char(c),
        (c as u32) >= 128 ==> res == char_alphanumeric(c),
;

/// The full uppercase mapping that `char::to_uppercase` gives a character.
pub uninterp spec fn char_uppercase(c: char) -> Seq<char>;

/// The full lowercase mapping that `char::to_lowercase` gives a character.
pub uninterp spec fn char_lowercase(c: char) -> Seq<char>;

/// `char::to_uppercase` of the standard library, its characters gathered into a
/// string. The mapping is a fixed function of the character; an ASCII character
/// maps to the single character that ASCII casing gives.
#[verifier::external_body]
pub(crate) fn uppercase_of(c: char) -> (res: String)
    ensures
        res@ == char_uppercase(c),
        (c as u32) < 128 ==> res@ == seq![ascii_upper(c)],
{
    c.to_uppercase().to_string()
}

/// `char::to_lowercase` of the standard library, its characters gathered into a
/// string. The mapping is a fixed function of the character; an ASCII character
/// maps to the single character that ASCII casing gives.
#[verifier::external_body]
pub(crate) fn lowercase_of(c: char) -> (res: String)
    ensures
        res@ == char_lowercase(c),
        (c as u32) < 128 ==> res@ == seq![ascii_lower(c)],
{
    c.to_lowercase().to_string()
}

pub fn is_ascii_word(c: char) -> (res: bool)
    ensures
        res == is_ascii_word_char(c),
{
    ('0' <= c && c <= '9') || ('A' <= c && c <= 'Z') || ('a' <= c && c <= 'z')
}

pub fn is_ascii_digit(c: char) -> (res: bool)
    ensures
        res == is_ascii_digit_char(c),
{
    '0' <= c && c <= '9'
}

pub fn to_ascii_lower(c: char) -> (res: char)
    ensures
        res == ascii_lower(c),
{
    if 'A' <= c && c <= 'Z' {
        (c as u8 + 32) as char
    } else {
        c
    }
}

pub fn to_ascii_upper(c: char) -> (res: char)
    ensures
        res == ascii_upper(c),
{
    if 'a' <= c && c <= 'z' {
        (c as u8 - 32) as char
    } else {
        c
    }
}

/// The ASCII classes by code point, and what casing does: letters move by 32, and
/// everything else stays.
pub proof fn law_ascii_classes(c: char)
    ensures
        is_ascii_digit_char(c) <==> 48 <= c as u32 <= 57,
        is_ascii_upper_char(c) <==> 65 <= c as u32 <= 90,
        is_ascii_lower_char(c) <==> 97 <= c as u32 <= 122,
        is_ascii_word_char(c) <==> 48 <= c as u32 <= 57 || 65 <= c as u32 <= 90 || 97 <= c as u32
            <= 122,
        65 <= c as u32 <= 90 ==> ascii_lower(c) as u32 == c as u32 + 32,
        !(65 <= c as u32 <= 90) ==> ascii_lower(c) == c,
        97 <= c as u32 <= 122 ==> ascii_upper(c) as u32 == c as u32 - 32,
        !(97 <= c as u32 <= 122) ==> ascii_upper(c) == c,
{
}

} // verus!
