//! Character classes, case mappings, categories and character sets of compiled patterns.
use vstd::prelude::*;
use vstd::utf8::is_scalar;
use crate::constants::SreCatCode;

verus! {

/* ---------------- the std `char` functions that the Unicode classes rest on ---------------- */

/// The first `char` that `char::to_lowercase` yields for `c`.
pub uninterp spec fn lowercase_mapping_first(c: char) -> char;

/// The first `char` that `char::to_uppercase` yields for `c`.
pub uninterp spec fn uppercase_mapping_first(c: char) -> char;

/// What `char::is_alphanumeric` answers for `c`.
pub uninterp spec fn unicode_alphanumeric(c: char) -> bool;

/// `char::from_u32`: the `char` with the given value, and `None` where the value
/// is not a Unicode scalar value (above 0x10FFFF or a surrogate), as its documentation states.
#[verifier::external_body]
fn char_from_u32(ch: u32) -> (r: Option<char>)
    ensures
        r == (if is_scalar(ch) { Some(ch as char) } else { None::<char> }),
{
    char::from_u32(ch)
}

/// `char::to_lowercase`, first yielded `char`. The documentation promises that the
/// iterator yields one or more chars, so taking the first never fails; which char it is
/// rests on Unicode's case tables and is only named here.
#[verifier::external_body]
fn char_lowercase_first(c: char) -> (r: char)
    ensures
        r == lowercase_mapping_first(c),
{
    c.to_lowercase().next().unwrap()
}

/// `char::to_uppercase`, first yielded `char`; as for the lowercase mapping, the
/// iterator yields at least one char, and the char itself is only named.
#[verifier::external_body]
fn char_uppercase_first(c: char) -> (r: char)
    ensures
        r == uppercase_mapping_first(c),
{
    c.to_uppercase().next().unwrap()
}

/// `char::is_alphanumeric`; its answer comes from Unicode's tables and is only named.
#[verifier::external_body]
fn char_is_alphanumeric(c: char) -> (r: bool)
    ensures
        r == unicode_alphanumeric(c),
{
    c.is_alphanumeric()
}

/* ---------------- ASCII classes ---------------- */

/// ASCII whitespace: tab, newline, vertical tab, form feed, carriage return, space.
pub open spec fn spec_is_py_ascii_whitespace(b: u8) -> bool {
    b == 9 || b == 10 || b == 11 || b == 12 || b == 13 || b == 32
}

pub open spec fn spec_is_ascii_alphanumeric(b: u32) -> bool {
    (48 <= b <= 57) || (65 <= b <= 90) || (97 <= b <= 122)
}

pub open spec fn spec_is_word(ch: u32) -> bool {
    ch == 95 || spec_is_ascii_alphanumeric(ch)
}

pub open spec fn spec_is_space(ch: u32) -> bool {
    ch < 256 && spec_is_py_ascii_whitespace(ch as u8)
}

pub open spec fn spec_is_digit(ch: u32) -> bool {
    48 <= ch <= 57
}

pub open spec fn spec_is_loc_alnum(ch: u32) -> bool {
    spec_is_ascii_alphanumeric(ch)
}

pub open spec fn spec_is_loc_word(ch: u32) -> bool {
    ch == 95 || spec_is_loc_alnum(ch)
}

pub open spec fn spec_is_linebreak(ch: u32) -> bool {
    ch == 10
}

pub open spec fn spec_lower_ascii(ch: u32) -> u32 {
    if 65 <= ch <= 90 {
        (ch + 32) as u32
    } else {
        ch
    }
}

pub open spec fn spec_upper_ascii(ch: u32) -> u32 {
    if 97 <= ch <= 122 {
        (ch - 32) as u32
    } else {
        ch
    }
}

pub fn is_py_ascii_whitespace(b: u8) -> (r: bool)
    ensures
        r == spec_is_py_ascii_whitespace(b),
{
    b == 9 || b == 10 || b == 12 || b == 13 || b == 32 || b == 11
}

fn is_ascii_alphanumeric(b: u8) -> (r: bool)
    ensures
        r == spec_is_ascii_alphanumeric(b as u32),
{
    (48 <= b && b <= 57) || (65 <= b && b <= 90) || (97 <= b && b <= 122)
}

pub fn is_word(ch: u32) -> (r: bool)
    ensures
        r == spec_is_word(ch),
{
    ch == 95 || (ch < 256 && is_ascii_alphanumeric(ch as u8))
}

pub fn is_space(ch: u32) -> (r: bool)
    ensures
        r == spec_is_space(ch),
{
    ch < 256 && is_py_ascii_whitespace(ch as u8)
}

pub fn is_digit(ch: u32) -> (r: bool)
    ensures
        r == spec_is_digit(ch),
{
    ch < 256 && (48 <= ch && ch <= 57)
}

pub fn is_loc_alnum(ch: u32) -> (r: bool)
    ensures
        r == spec_is_loc_alnum(ch),
{
    ch < 256 && is_ascii_alphanumeric(ch as u8)
}

pub fn is_loc_word(ch: u32) -> (r: bool)
    ensures
        r == spec_is_loc_word(ch),
{
    ch == 95 || is_loc_alnum(ch)
}

pub fn is_linebreak(ch: u32) -> (r: bool)
    ensures
        r == spec_is_linebreak(ch),
{
    ch == 10
}

/// Lowercases an ASCII letter; every other value is returned unchanged.
pub fn lower_ascii(ch: u32) -> (r: u32)
    ensures
        r == spec_lower_ascii(ch),
{
    if ch < 256 && 65 <= ch && ch <= 90 {
        ch + 32
    } else {
        ch
    }
}

pub fn lower_locate(ch: u32) -> (r: u32)
    ensures
        r == spec_lower_ascii(ch),
{
    lower_ascii(ch)
}

pub fn upper_locate(ch: u32) -> (r: u32)
    ensures
        r == spec_upper_ascii(ch),
{
    if ch < 256 && 97 <= ch && ch <= 122 {
        ch - 32
    } else {
        ch
    }
}

/* ---------------- Unicode classes ---------------- */

pub open spec fn spec_is_uni_digit(ch: u32) -> bool {
    48 <= ch <= 57
}

pub open spec fn spec_is_uni_space(ch: u32) -> bool {
    spec_is_space(ch) || ch == 0x0009 || ch == 0x000A || ch == 0x000B || ch == 0x000C
        || ch == 0x000D || ch == 0x001C || ch == 0x001D || ch == 0x001E || ch == 0x001F
        || ch == 0x0020 || ch == 0x0085 || ch == 0x00A0 || ch == 0x1680 || (0x2000 <= ch
        <= 0x200A) || ch == 0x2028 || ch == 0x2029 || ch == 0x202F || ch == 0x205F || ch
        == 0x3000
}

pub open spec fn spec_is_uni_linebreak(ch: u32) -> bool {
    ch == 0x000A || ch == 0x000B || ch == 0x000C || ch == 0x000D || ch == 0x001C || ch
        == 0x001D || ch == 0x001E || ch == 0x0085 || ch == 0x2028 || ch == 0x2029
}

pub open spec fn spec_is_uni_alnum(ch: u32) -> bool {
    is_scalar(ch) && unicode_alphanumeric(ch as char)
}

pub open spec fn spec_is_uni_word(ch: u32) -> bool {
    ch == 95 || spec_is_uni_alnum(ch)
}

pub open spec fn spec_lower_unicode(ch: u32) -> u32 {
    if is_scalar(ch) {
        lowercase_mapping_first(ch as char) as u32
    } else {
        ch
    }
}

pub open spec fn spec_upper_unicode(ch: u32) -> u32 {
    if is_scalar(ch) {
        uppercase_mapping_first(ch as char) as u32
    } else {
        ch
    }
}

/// A decimal digit, as `char::is_digit(10)` defines it: `'0'` to `'9'` only.
pub fn is_uni_digit(ch: u32) -> (r: bool)
    ensures
        r == spec_is_uni_digit(ch),
{
    48 <= ch && ch <= 57
}

pub fn is_uni_space(ch: u32) -> (r: bool)
    ensures
        r == spec_is_uni_space(ch),
{
    is_space(ch) || ch == 0x0009 || ch == 0x000A || ch == 0x000B || ch == 0x000C || ch
        == 0x000D || ch == 0x001C || ch == 0x001D || ch == 0x001E || ch == 0x001F || ch
        == 0x0020 || ch == 0x0085 || ch == 0x00A0 || ch == 0x1680 || (0x2000 <= ch && ch
        <= 0x200A) || ch == 0x2028 || ch == 0x2029 || ch == 0x202F || ch == 0x205F || ch
        == 0x3000
}

pub fn is_uni_linebreak(ch: u32) -> (r: bool)
    ensures
        r == spec_is_uni_linebreak(ch),
{
    ch == 0x000A || ch == 0x000B || ch == 0x000C || ch == 0x000D || ch == 0x001C || ch
        == 0x001D || ch == 0x001E || ch == 0x0085 || ch == 0x2028 || ch == 0x2029
}

pub fn is_uni_alnum(ch: u32) -> (r: bool)
    ensures
        r == spec_is_uni_alnum(ch),
{
    match char_from_u32(ch) {
        Some(c) => char_is_alphanumeric(c),
        None => false,
    }
}

pub fn is_uni_word(ch: u32) -> (r: bool)
    ensures
        r == spec_is_uni_word(ch),
{
    ch == 95 || is_uni_alnum(ch)
}

/// The first char of the Unicode lowercase mapping of `ch`; a value that is no
/// Unicode scalar is returned unchanged.
pub fn lower_unicode(ch: u32) -> (r: u32)
    ensures
        r == spec_lower_unicode(ch),
{
    match char_from_u32(ch) {
        Some(c) => char_lowercase_first(c) as u32,
        None => ch,
    }
}

/// The first char of the Unicode uppercase mapping of `ch`; a value that is no
/// Unicode scalar is returned unchanged.
pub fn upper_unicode(ch: u32) -> (r: u32)
    ensures
        r == spec_upper_unicode(ch),
{
    match char_from_u32(ch) {
        Some(c) => char_uppercase_first(c) as u32,
        None => ch,
    }
}

/* ---------------- categories ---------------- */

pub open spec fn spec_category(catcode: SreCatCode, c: u32) -> bool {
    match catcode {
        SreCatCode::DIGIT => spec_is_digit(c),
        SreCatCode::NOT_DIGIT => !spec_is_digit(c),
        SreCatCode::SPACE => spec_is_space(c),
        SreCatCode::NOT_SPACE => !spec_is_space(c),
        SreCatCode::WORD => spec_is_word(c),
        SreCatCode::NOT_WORD => !spec_is_word(c),
        SreCatCode::LINEBREAK => spec_is_linebreak(c),
        SreCatCode::NOT_LINEBREAK => !spec_is_linebreak(c),
        SreCatCode::LOC_WORD => spec_is_loc_word(c),
        SreCatCode::LOC_NOT_WORD => !spec_is_loc_word(c),
        SreCatCode::UNI_DIGIT => spec_is_uni_digit(c),
        SreCatCode::UNI_NOT_DIGIT => !spec_is_uni_digit(c),
        SreCatCode::UNI_SPACE => spec_is_uni_space(c),
        SreCatCode::UNI_NOT_SPACE => !spec_is_uni_space(c),
        SreCatCode::UNI_WORD => spec_is_uni_word(c),
        SreCatCode::UNI_NOT_WORD => !spec_is_uni_word(c),
        SreCatCode::UNI_LINEBREAK => spec_is_uni_linebreak(c),
        SreCatCode::UNI_NOT_LINEBREAK => !spec_is_uni_linebreak(c),
    }
}

/// Whether `c` falls in the category `catcode`.
pub fn category(catcode: SreCatCode, c: u32) -> (r: bool)
    ensures
        r == spec_category(catcode, c),
{
    match catcode {
        SreCatCode::DIGIT => is_digit(c),
        SreCatCode::NOT_DIGIT => !is_digit(c),
        SreCatCode::SPACE => is_space(c),
        SreCatCode::NOT_SPACE => !is_space(c),
        SreCatCode::WORD => is_word(c),
        SreCatCode::NOT_WORD => !is_word(c),
        SreCatCode::LINEBREAK => is_linebreak(c),
        SreCatCode::NOT_LINEBREAK => !is_linebreak(c),
        SreCatCode::LOC_WORD => is_loc_word(c),
        SreCatCode::LOC_NOT_WORD => !is_loc_word(c),
        SreCatCode::UNI_DIGIT => is_uni_digit(c),
        SreCatCode::UNI_NOT_DIGIT => !is_uni_digit(c),
        SreCatCode::UNI_SPACE => is_uni_space(c),
        SreCatCode::UNI_NOT_SPACE => !is_uni_space(c),
        SreCatCode::UNI_WORD => is_uni_word(c),
        SreCatCode::UNI_NOT_WORD => !is_uni_word(c),
        SreCatCode::UNI_LINEBREAK => is_uni_linebreak(c),
        SreCatCode::UNI_NOT_LINEBREAK => !is_uni_linebreak(c),
    }
}

/// The literal comparison of the case-insensitive locale operations.
pub open spec fn spec_char_loc_ignore(code: u32, c: u32) -> bool {
    code == c || code == spec_lower_ascii(c) || code == spec_upper_ascii(c)
}

pub fn char_loc_ignore(code: u32, c: u32) -> (r: bool)
    ensures
        r == spec_char_loc_ignore(code, c),
{
    code == c || code == lower_locate(c) || code == upper_locate(c)
}

/* ---------------- laws ---------------- */

/// Lowercasing with the ASCII mapping a second time changes nothing.
pub proof fn lemma_lower_ascii_idempotent(ch: u32)
    ensures
        spec_lower_ascii(spec_lower_ascii(ch)) == spec_lower_ascii(ch),
{
}

/// The ASCII case mappings undo each other on letters: an uppercase letter comes back
/// from its lowercase form, and a lowercase letter from its uppercase form.
pub proof fn lemma_ascii_case_roundtrip(ch: u32)
    ensures
        65 <= ch <= 90 ==> spec_upper_ascii(spec_lower_ascii(ch)) == ch,
        97 <= ch <= 122 ==> spec_lower_ascii(spec_upper_ascii(ch)) == ch,
{
}

/// Each negated category holds of exactly the values its positive category does not.
pub proof fn lemma_category_negation(c: u32)
    ensures
        spec_category(SreCatCode::NOT_DIGIT, c) == !spec_category(SreCatCode::DIGIT, c),
        spec_category(SreCatCode::NOT_SPACE, c) == !spec_category(SreCatCode::SPACE, c),
        spec_category(SreCatCode::NOT_WORD, c) == !spec_category(SreCatCode::WORD, c),
        spec_category(SreCatCode::NOT_LINEBREAK, c) == !spec_category(SreCatCode::LINEBREAK, c),
        spec_category(SreCatCode::LOC_NOT_WORD, c) == !spec_category(SreCatCode::LOC_WORD, c),
        spec_category(SreCatCode::UNI_NOT_DIGIT, c) == !spec_category(SreCatCode::UNI_DIGIT, c),
        spec_category(SreCatCode::UNI_NOT_SPACE, c) == !spec_category(SreCatCode::UNI_SPACE, c),
        spec_category(SreCatCode::UNI_NOT_WORD, c) == !spec_category(SreCatCode::UNI_WORD, c),
        spec_category(SreCatCode::UNI_NOT_LINEBREAK, c) == !spec_category(
            SreCatCode::UNI_LINEBREAK,
            c,
        ),
{
}

/// Locales are not consulted: the locale's word chars and alphanumerics are the ASCII ones.
pub proof fn lemma_locale_is_ascii(ch: u32)
    ensures
        spec_category(SreCatCode::LOC_WORD, ch) == spec_category(SreCatCode::WORD, ch),
        spec_is_loc_alnum(ch) == spec_is_ascii_alphanumeric(ch),
{
}

/// The Unicode classes extend the ASCII ones: every ASCII space is a Unicode space and
/// every line break a Unicode line break; the Unicode digits are the ASCII digits.
pub proof fn lemma_unicode_classes_extend_ascii(ch: u32)
    ensures
        spec_is_space(ch) ==> spec_is_uni_space(ch),
        spec_is_linebreak(ch) ==> spec_is_uni_linebreak(ch),
        spec_is_uni_digit(ch) == spec_is_digit(ch),
{
}

} // verus!
