//! What is assumed of the standard library's text functions, with the
//! vocabulary in which it is said.
//!
//! Each function below that is marked `external_body`, and each
//! `assume_specification`, carries a contract that is not proved here.

use std::borrow::Cow;
use vstd::prelude::*;
use vstd::utf8::*;

verus! {

/// `n` is the length of the longest well-formed prefix of `bytes`.
pub open spec fn valid_up_to(bytes: Seq<u8>, n: int) -> bool {
    &&& 0 <= n <= bytes.len()
    &&& valid_utf8(bytes.subrange(0, n))
    &&& forall|m: int| n < m <= bytes.len() ==> !valid_utf8(#[trigger] bytes.subrange(0, m))
}

/// The text that lossy UTF-8 decoding makes of a byte sequence: each
/// ill-formed part is replaced by U+FFFD.
pub uninterp spec fn utf8_lossy_decoding(bytes: Seq<u8>) -> Seq<char>;

/// The text that a sequence of UTF-16 code units encodes, if it is well formed.
pub uninterp spec fn utf16_decoding(units: Seq<u16>) -> Option<Seq<char>>;

/// The text that lossy UTF-16 decoding makes of a sequence of code units: each
/// unpaired surrogate is replaced by U+FFFD.
pub uninterp spec fn utf16_lossy_decoding(units: Seq<u16>) -> Seq<char>;

/// `core::str::from_utf8` accepts exactly the well-formed byte sequences and
/// returns them as the text they encode. Its error reports, through
/// `Utf8Error::valid_up_to`, the length of the longest well-formed prefix.
#[verifier::external_body]
pub(crate) fn str_from_utf8(b: &[u8]) -> (r: Result<&str, usize>)
    ensures
        r is Ok <==> valid_utf8(b@),
        r matches Ok(s) ==> s@ == decode_utf8(b@),
        r matches Err(n) ==> valid_up_to(b@, n as int),
{
    core::str::from_utf8(b).map_err(|e| e.valid_up_to())
}

/// `String::from_utf8_lossy` decodes with replacement. It borrows its input
/// exactly when the input is well formed, and then returns the text that the
/// input encodes.
#[verifier::external_body]
pub(crate) fn string_from_utf8_lossy(b: &[u8]) -> (r: Cow<'_, str>)
    ensures
        r@ == utf8_lossy_decoding(b@),
        r matches Cow::Borrowed(_) <==> valid_utf8(b@),
        valid_utf8(b@) ==> r@ == decode_utf8(b@),
{
    String::from_utf8_lossy(b)
}

/// `String::from_utf16` decodes UTF-16 and fails on an unpaired surrogate.
#[verifier::external_body]
pub(crate) fn string_from_utf16(units: &[u16]) -> (r: Option<String>)
    ensures
        match r {
            Some(s) => utf16_decoding(units@) == Some(s@),
            None => utf16_decoding(units@) is None,
        },
{
    String::from_utf16(units).ok()
}

/// `String::from_utf16_lossy` decodes UTF-16 with replacement.
#[verifier::external_body]
pub(crate) fn string_from_utf16_lossy(units: &[u16]) -> (r: String)
    ensures
        r@ == utf16_lossy_decoding(units@),
{
    String::from_utf16_lossy(units)
}

/// The bytes `pat` stand in `hay` from index `i` on.
pub open spec fn occurs_at(hay: Seq<u8>, pat: Seq<u8>, i: int) -> bool {
    &&& 0 <= i
    &&& i + pat.len() <= hay.len()
    &&& hay.subrange(i, i + pat.len()) == pat
}

/// `i` is the least index from which `pat` stands in `hay`.
pub open spec fn first_occurrence(hay: Seq<u8>, pat: Seq<u8>, i: int) -> bool {
    &&& occurs_at(hay, pat, i)
    &&& forall|j: int| 0 <= j < i ==> !occurs_at(hay, pat, j)
}

/// The pieces joined into one text, with `sep` between each two neighbours.
pub open spec fn joined(pieces: Seq<Seq<char>>, sep: Seq<char>) -> Seq<char>
    decreases pieces.len(),
{
    if pieces.len() == 0 {
        Seq::<char>::empty()
    } else if pieces.len() == 1 {
        pieces[0]
    } else {
        joined(pieces.drop_last(), sep) + sep + pieces.last()
    }
}

/// The texts of a sequence of string slices.
pub open spec fn texts(slices: Seq<&str>) -> Seq<Seq<char>> {
    Seq::new(slices.len(), |i: int| slices[i]@)
}

/// The pieces into which the occurrences of `pat` divide `text`.
pub uninterp spec fn split_pieces(text: Seq<char>, pat: Seq<char>) -> Seq<Seq<char>>;

/// The pieces into which the first occurrences of `pat` divide `text` when at
/// most `n` pieces are made.
pub uninterp spec fn splitn_pieces(text: Seq<char>, n: nat, pat: Seq<char>) -> Seq<Seq<char>>;

/// `str::split` with a string pattern yields at least one piece, and the
/// pieces with the pattern put back between them are the text.
#[verifier::external_body]
pub(crate) fn str_split<'a>(s: &'a str, pat: &str) -> (r: Vec<&'a str>)
    ensures
        texts(r@) == split_pieces(s@, pat@),
        r@.len() > 0,
        joined(texts(r@), pat@) == s@,
{
    s.split(pat).collect()
}

/// `str::splitn` with a string pattern yields at most `n` pieces, none when
/// `n` is 0 and else at least one, and the pieces with the pattern put back
/// between them are the text.
#[verifier::external_body]
pub(crate) fn str_splitn<'a>(s: &'a str, n: usize, pat: &str) -> (r: Vec<&'a str>)
    ensures
        texts(r@) == splitn_pieces(s@, n as nat, pat@),
        r@.len() <= n,
        n > 0 ==> r@.len() > 0,
        n > 0 ==> joined(texts(r@), pat@) == s@,
{
    s.splitn(n, pat).collect()
}

/// Whether a character has the Unicode property `White_Space`.
pub uninterp spec fn white_space(c: char) -> bool;

/// The text without its leading white space.
pub open spec fn trimmed_start(text: Seq<char>) -> Seq<char>
    decreases text.len(),
{
    if text.len() > 0 && white_space(text[0]) {
        trimmed_start(text.drop_first())
    } else {
        text
    }
}

/// The text without its trailing white space.
pub open spec fn trimmed_end(text: Seq<char>) -> Seq<char>
    decreases text.len(),
{
    if text.len() > 0 && white_space(text.last()) {
        trimmed_end(text.drop_last())
    } else {
        text
    }
}

/// `char::is_whitespace` tells whether the character has the property
/// `White_Space`.
pub assume_specification[ char::is_whitespace ](c: char) -> (r: bool)
    ensures
        r == white_space(c),
;

/// `str::find` with a string pattern returns the byte index of the first
/// occurrence of the pattern, if there is one.
#[verifier::external_body]
pub(crate) fn str_find(hay: &str, pat: &str) -> (r: Option<usize>)
    ensures
        match r {
            Some(i) => first_occurrence(encode_utf8(hay@), encode_utf8(pat@), i as int),
            None => forall|j: int| !occurs_at(encode_utf8(hay@), encode_utf8(pat@), j),
        },
{
    hay.find(pat)
}

/// `str::starts_with` with a string pattern tells whether the text begins
/// with the pattern.
#[verifier::external_body]
pub(crate) fn str_starts_with(s: &str, prefix: &str) -> (r: bool)
    ensures
        r == prefix@.is_prefix_of(s@),
{
    s.starts_with(prefix)
}

/// `str::ends_with` with a string pattern tells whether the text ends with
/// the pattern.
#[verifier::external_body]
pub(crate) fn str_ends_with(s: &str, suffix: &str) -> (r: bool)
    ensures
        r == suffix@.is_suffix_of(s@),
{
    s.ends_with(suffix)
}

/// `str::trim_start` returns the text without its leading characters of the
/// property `White_Space`.
#[verifier::external_body]
pub(crate) fn str_trim_start(s: &str) -> (t: &str)
    ensures
        t@ == trimmed_start(s@),
{
    s.trim_start()
}

/// `str::trim_end` returns the text without its trailing characters of the
/// property `White_Space`.
#[verifier::external_body]
pub(crate) fn str_trim_end(s: &str) -> (t: &str)
    ensures
        t@ == trimmed_end(s@),
{
    s.trim_end()
}

/// The text that the standard `Debug` formatting makes of a text: quoted, with
/// escapes.
pub uninterp spec fn debug_form(text: Seq<char>) -> Seq<char>;

/// `<str as Debug>::fmt`, through `format!`: the quoted and escaped form of
/// the text.
#[verifier::external_body]
pub(crate) fn str_debug(s: &str) -> (r: String)
    ensures
        r@ == debug_form(s@),
{
    format!("{:?}", s)
}

/// `str::as_ptr`: the address at which the text starts. Nothing is promised
/// of it.
#[verifier::external_body]
pub(crate) fn str_address(s: &str) -> usize {
    s.as_ptr() as usize
}

/// `char::len_utf8` is the length of the character's encoding.
pub assume_specification[ char::len_utf8 ](c: char) -> (n: usize)
    ensures
        n == encode_scalar(c as u32).len(),
;

} // verus!
