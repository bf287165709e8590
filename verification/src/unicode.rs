//! Unicode character classes, answered by the `regex` crate's Unicode tables.

use vstd::prelude::*;

use crate::text::{is_ascii_digit_char, is_ascii_letter};

verus! {

#[verifier::external_type_specification]
#[verifier::external_body]
pub struct ExRegex(regex::Regex);

/// The character classes the editor asks about.
#[derive(Debug, Clone, Copy, PartialEq, Eq, Structural)]
pub enum UnicodeClass {
    /// `[\p{L}\p{N}]`: letters and numbers.
    LetterOrNumber,
    /// `\d`: decimal digits (`\p{Nd}`).
    DecimalDigit,
}

/// Whether `Regex::is_match` accepts the one-character text `c` for the
/// pattern of `class` (`^[\p{L}\p{N}]$` or `^\d$`).
pub uninterp spec fn class_contains(class: UnicodeClass, c: char) -> bool;

/// A compiled pattern for one [`UnicodeClass`].  Values are only made by
/// [`CharClass::letters_and_numbers`] and [`CharClass::decimal_digits`], so
/// `re` is always the pattern of `class`.
pub struct CharClass {
    class: UnicodeClass,
    re: regex::Regex,
}

impl CharClass {
    pub closed spec fn class(&self) -> UnicodeClass {
        self.class
    }

    /// `Regex::new(r"^[\p{L}\p{N}]$")`; the pattern is valid, so this does
    /// not fail.
    #[verifier::external_body]
    pub(crate) fn letters_and_numbers() -> (r: CharClass)
        ensures
            r.class() == UnicodeClass::LetterOrNumber,
    {
        CharClass {
            class: UnicodeClass::LetterOrNumber,
            re: regex::Regex::new(r"^[\p{L}\p{N}]$").unwrap(),
        }
    }

    /// `Regex::new(r"^\d$")`; the pattern is valid, so this does not fail.
    #[verifier::external_body]
    pub(crate) fn decimal_digits() -> (r: CharClass)
        ensures
            r.class() == UnicodeClass::DecimalDigit,
    {
        CharClass { class: UnicodeClass::DecimalDigit, re: regex::Regex::new(r"^\d$").unwrap() }
    }

    /// `Regex::is_match` on the one-character text `c`.  Among ASCII
    /// characters, `[\p{L}\p{N}]` holds exactly the letters and digits, and
    /// `\d` exactly the digits `0`..`9`.
    #[verifier::external_body]
    pub(crate) fn contains(&self, c: char) -> (r: bool)
        ensures
            r == class_contains(self.class(), c),
            (c as u32) < 128 ==> r == (if self.class() == UnicodeClass::LetterOrNumber {
                is_ascii_letter(c) || is_ascii_digit_char(c)
            } else {
                is_ascii_digit_char(c)
            }),
    {
        let mut buf = [0u8; 4];
        self.re.is_match(c.encode_utf8(&mut buf))
    }
}

} // verus!
