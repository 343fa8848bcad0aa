//! Small pieces of text handling: byte decoding and string building.

use vstd::prelude::*;

verus! {

/// Where decoding UTF-8 failed: the length of the longest valid prefix, and
/// the length of the invalid sequence that follows it (`None` when the
/// input ends in the middle of a character).
#[derive(Debug)]
pub struct Utf8Fault {
    pub valid_up_to: usize,
    pub error_len: Option<usize>,
}

/// What `std::str::Utf8Error` reports for invalid bytes: its `valid_up_to`
/// and its `error_len`.
pub uninterp spec fn utf8_fault(bytes: Seq<u8>) -> (usize, Option<usize>);

/// `String::from_utf8`: the bytes are turned into a `String` exactly when
/// they are valid UTF-8, and the text is then what the bytes encode.
/// Otherwise the error's `valid_up_to` and `error_len` are returned; they
/// are `utf8_fault` of the bytes, and the bytes up to `valid_up_to` are valid
/// UTF-8, as the documentation of `Utf8Error::valid_up_to` says.
#[verifier::external_body]
pub(crate) fn string_from_utf8(bytes: Vec<u8>) -> (text: Result<String, Utf8Fault>)
    ensures
        text is Ok <==> vstd::utf8::valid_utf8(bytes@),
        text matches Ok(t) ==> t@ == vstd::utf8::decode_utf8(bytes@),
        text matches Err(f) ==> (f.valid_up_to, f.error_len) == utf8_fault(bytes@),
        text matches Err(f) ==> f.valid_up_to <= bytes@.len() && vstd::utf8::valid_utf8(
            bytes@.take(f.valid_up_to as int),
        ),
{
    let e = match String::from_utf8(bytes) {
        Ok(t) => return Ok(t),
        Err(e) => e.utf8_error(),
    };
    Err(Utf8Fault { valid_up_to: e.valid_up_to(), error_len: e.error_len() })
}

/// `String::push`: appends one character at the end.
#[verifier::external_body]
pub(crate) fn push_char(text: &mut String, c: char)
    ensures
        final(text)@ == old(text)@.push(c),
{
    text.push(c);
}

/// The text of an optional string.
pub open spec fn opt_text(s: Option<String>) -> Option<Seq<char>> {
    match s {
        Some(t) => Some(t@),
        None => None,
    }
}

/// The part of `s` after its last `c` (all of `s` when it holds none).
pub open spec fn after_last(s: Seq<char>, c: char) -> Seq<char>
    decreases s.len(),
{
    if s.len() == 0 {
        s
    } else if s.last() == c {
        Seq::<char>::empty()
    } else {
        after_last(s.drop_last(), c).push(s.last())
    }
}

/// The extension of a plain file name, as the standard library defines it:
/// none without a `.`, none for a name that starts with its only `.`,
/// otherwise what follows the last `.`.
pub open spec fn plain_name_extension(name: Seq<char>) -> Option<Seq<char>> {
    if !name.contains('.') || (name[0] == '.' && !name.drop_first().contains('.')) {
        None
    } else {
        Some(after_last(name, '.'))
    }
}

/// A name that is one plain path component: no separator, no drive colon,
/// and not `..`.
pub open spec fn is_plain_name(name: Seq<char>) -> bool {
    !name.contains('/') && !name.contains('\\') && !name.contains(':') && name != seq!['.', '.']
}

/// What `std::path::Path::extension` gives for a path, as text, on the
/// target the crate is built for. The standard library splits a path at the
/// target's separators (`/` on Unix; `/`, `\` and drive prefixes on
/// Windows), so for a name holding such characters the result differs between
/// targets; for a plain name it is the same on all of them.
pub uninterp spec fn path_extension(path: Seq<char>) -> Option<Seq<char>>;

/// `std::path::Path::new(name).extension()`, as a `String`. Claimed: the
/// result is `path_extension` of the name; for a plain name (one path
/// component) it is what the documentation of `Path::extension` describes:
/// `None` without an embedded `.` or for a name that begins with its only `.`,
/// otherwise the part after the last `.`. For other paths only the name is
/// given, as the split into components depends on the target.
#[verifier::external_body]
pub(crate) fn file_extension(name: &str) -> (ext: Option<String>)
    ensures
        opt_text(ext) == path_extension(name@),
        is_plain_name(name@) ==> opt_text(ext) == plain_name_extension(name@),
{
    std::path::Path::new(name).extension().and_then(|e| e.to_str()).map(|e| e.to_string())
}

/// What `str::to_lowercase` makes of a text (Unicode lowercase mapping).
pub uninterp spec fn str_lowercase(text: Seq<char>) -> Seq<char>;

/// `str::to_lowercase`. Claimed: the result is `str_lowercase` of the text.
#[verifier::external_body]
pub(crate) fn to_lowercase(text: &str) -> (lower: String)
    ensures
        lower@ == str_lowercase(text@),
{
    text.to_lowercase()
}

} // verus!
