//! Character classes that the tokenizer distinguishes.

use vstd::prelude::*;

verus! {

/// Whether a character outside ASCII has the Unicode `White_Space` property.
pub uninterp spec fn unicode_white_space(c: char) -> bool;

/// Whether a character outside ASCII has the Unicode `Alphabetic` property.
pub uninterp spec fn unicode_alphabetic(c: char) -> bool;

/// Whether a character outside ASCII is in a Unicode general category for
/// numbers (`Nd`, `Nl` or `No`).
pub uninterp spec fn unicode_numeric(c: char) -> bool;

/// Whether `c` is one of the 128 characters of ASCII.
pub open spec fn is_ascii_char(c: char) -> bool {
    (c as u32) < 0x80
}

/// White space: in ASCII, the space and the controls U+0009 to U+000D.
pub open spec fn white_space(c: char) -> bool {
    if is_ascii_char(c) {
        c == ' ' || 0x09 <= (c as u32) <= 0x0D
    } else {
        unicode_white_space(c)
    }
}

/// Letters: in ASCII, `a` to `z` and `A` to `Z`.
pub open spec fn alphabetic(c: char) -> bool {
    if is_ascii_char(c) {
        'a' <= c <= 'z' || 'A' <= c <= 'Z'
    } else {
        unicode_alphabetic(c)
    }
}

/// Digits and other numeric characters: in ASCII, `0` to `9`.
pub open spec fn numeric(c: char) -> bool {
    if is_ascii_char(c) {
        '0' <= c <= '9'
    } else {
        unicode_numeric(c)
    }
}

/// A character that may continue a word: a letter or a numeric character.
pub open spec fn alphanumeric(c: char) -> bool {
    alphabetic(c) || numeric(c)
}

/// `char::is_whitespace` reports the `White_Space` property; on ASCII that
/// is the space and U+0009 to U+000D.
pub assume_specification[ char::is_whitespace ](c: char) -> (r: bool)
    ensures
        r == white_space(c),
        !is_ascii_char(c) ==> r == unicode_white_space(c),
;

/// `char::is_alphabetic` reports the `Alphabetic` property; on ASCII that is
/// the fifty-two letters.
pub assume_specification[ char::is_alphabetic ](c: char) -> (r: bool)
    ensures
        r == alphabetic(c),
        !is_ascii_char(c) ==> r == unicode_alphabetic(c),
;

/// `char::is_numeric` reports the general categories for numbers; on ASCII
/// that is the ten digits.
pub assume_specification[ char::is_numeric ](c: char) -> (r: bool)
    ensures
        r == numeric(c),
        !is_ascii_char(c) ==> r == unicode_numeric(c),
;

/// `char::is_alphanumeric` holds exactly where `is_alphabetic` or
/// `is_numeric` does.
pub assume_specification[ char::is_alphanumeric ](c: char) -> (r: bool)
    ensures
        r == alphanumeric(c),
;

} // verus!
