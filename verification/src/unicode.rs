//! Character classes, case mapping, path parts and string building that the
//! analyser takes from the standard library.
//!
//! The functions and the `assume_specification` here are trusted: Verus
//! believes their contracts without proof.  Where the standard library's
//! documentation fixes a result in a few lines (ASCII characters), the
//! contract states it; otherwise the result is given a name
//! and tied to the arguments only.
use vstd::prelude::*;

verus! {

/// `String::push` appends one character at the end of the string.
pub assume_specification[ String::push ](s: &mut String, ch: char)
    ensures
        final(s)@ == old(s)@.push(ch),
;

/// What `char::is_alphanumeric` answers for a character.
pub uninterp spec fn alnum(c: char) -> bool;

/// What `str::to_lowercase` returns for a text.
pub uninterp spec fn lowercase(s: Seq<char>) -> Seq<char>;

/// What `Path::file_stem` returns for a path, read back as text.
pub uninterp spec fn path_stem(p: Seq<char>) -> Option<Seq<char>>;

/// What `Path::extension` returns for a path, read back as text.
pub uninterp spec fn path_extension(p: Seq<char>) -> Option<Seq<char>>;

/// ASCII letters and digits.
pub open spec fn ascii_alnum(c: char) -> bool {
    ||| ('0' as u32) <= (c as u32) <= ('9' as u32)
    ||| ('a' as u32) <= (c as u32) <= ('z' as u32)
    ||| ('A' as u32) <= (c as u32) <= ('Z' as u32)
}

pub open spec fn is_ascii_char(c: char) -> bool {
    (c as u32) < 128
}

/// What `char::is_alphanumeric` answers: exactly the ASCII letters and
/// digits among ASCII characters, the named answer beyond them.
pub open spec fn alnum_char(c: char) -> bool {
    if is_ascii_char(c) {
        ascii_alnum(c)
    } else {
        alnum(c)
    }
}

/// The characters with the Unicode `White_Space` property, which
/// `char::is_whitespace` answers: tab to carriage return, space, next line,
/// no-break space, Ogham space mark, en quad to hair space, line and
/// paragraph separators, narrow no-break space, medium mathematical space
/// and ideographic space.
pub open spec fn white_char(c: char) -> bool {
    let u = c as u32;
    ||| 0x9 <= u <= 0xD
    ||| u == 0x20
    ||| u == 0x85
    ||| u == 0xA0
    ||| u == 0x1680
    ||| 0x2000 <= u <= 0x200A
    ||| u == 0x2028
    ||| u == 0x2029
    ||| u == 0x202F
    ||| u == 0x205F
    ||| u == 0x3000
}

/// Whether every character of `s` is ASCII.
pub open spec fn all_ascii(s: Seq<char>) -> bool {
    forall|i: int| 0 <= i < s.len() ==> is_ascii_char(#[trigger] s[i])
}

/// What `str::to_lowercase` returns: on an all-ASCII text, the text with
/// `A`..`Z` mapped to `a`..`z`; otherwise the named answer.
pub open spec fn lower_text(s: Seq<char>) -> Seq<char> {
    if all_ascii(s) {
        s.map_values(|c: char| ascii_lower(c))
    } else {
        lowercase(s)
    }
}

/// ASCII lowercase mapping of one character.
pub open spec fn ascii_lower(c: char) -> char {
    if ('A' as u32) <= (c as u32) <= ('Z' as u32) {
        ((c as u32) + 32) as char
    } else {
        c
    }
}

/// Calls `char::is_alphanumeric`: true for characters with the Unicode
/// `Alphabetic` or `Numeric` property.  Among ASCII characters these are
/// exactly the letters and the digits; beyond ASCII the answer is named.
#[verifier::external_body]
pub(crate) fn is_alphanumeric(c: char) -> (r: bool)
    ensures
        r == alnum(c),
        is_ascii_char(c) ==> (r <==> ascii_alnum(c)),
{
    c.is_alphanumeric()
}

/// Calls `char::is_whitespace`: true exactly for the characters with the
/// Unicode `White_Space` property, the code points that `white_char` lists.
#[verifier::external_body]
pub(crate) fn is_whitespace(c: char) -> (r: bool)
    ensures
        r == white_char(c),
{
    c.is_whitespace()
}

/// Calls `str::to_lowercase` on `s`.  The result is named; for an all-ASCII
/// text it is the text with `A`..`Z` mapped to `a`..`z`.
#[verifier::external_body]
pub(crate) fn to_lowercase(s: &str) -> (r: String)
    ensures
        r@ == lowercase(s@),
        (forall|i: int| 0 <= i < s@.len() ==> is_ascii_char(#[trigger] s@[i])) ==> r@
            == s@.map_values(|c: char| ascii_lower(c)),
{
    s.to_lowercase()
}

/// Calls `Path::file_stem` on the path `p`: the file name without its last
/// extension, or `None` where the path has no file name.  The result is named.
#[verifier::external_body]
pub(crate) fn file_stem(p: &str) -> (r: Option<String>)
    ensures
        r matches Some(s) ==> path_stem(p@) == Some(s@),
        r is None ==> path_stem(p@) is None,
{
    std::path::Path::new(p).file_stem().map(|s| s.to_string_lossy().into_owned())
}

/// Calls `Path::extension` on the path `p`: the part of the file name after
/// its last dot, or `None`.  The result is named.
#[verifier::external_body]
pub(crate) fn extension(p: &str) -> (r: Option<String>)
    ensures
        r matches Some(s) ==> path_extension(p@) == Some(s@),
        r is None ==> path_extension(p@) is None,
{
    std::path::Path::new(p).extension().map(|s| s.to_string_lossy().into_owned())
}

} // verus!
