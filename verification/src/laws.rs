//! Laws that relate the operations of the string to one another.

use crate::buffer::contents;
use crate::lemmas::{lemma_valid_prefix_boundary, lemma_valid_suffix_boundary};
use crate::string::{lies_within, ByteStr, ValidationError};
use bytes::Bytes;
use std::borrow::Cow;
use vstd::prelude::*;
use vstd::std_specs::cmp::PartialEqSpec;
use vstd::utf8::*;

verus! {

broadcast use vstd::utf8::group_utf8_lib;

/// Validation round-trips: a well-formed buffer is always accepted, and the
/// buffer that the resulting string hands out is the buffer that went in.
pub proof fn law_validated_round_trip(
    bytes: Bytes,
    made: Result<ByteStr, ValidationError>,
    seen: &Bytes,
)
    requires
        valid_utf8(contents(bytes)),
        call_ensures(ByteStr::from_utf8, (bytes,), made),
        made is Ok ==> call_ensures(ByteStr::as_bytes, (&made->Ok_0,), seen),
    ensures
        made is Ok,
        *seen == bytes,
        contents(*seen) == contents(bytes),
{
}

/// Lossy construction leaves well-formed input alone: the string wraps the
/// very buffer that went in, and its text is the text that the buffer encodes.
pub proof fn law_lossy_keeps_valid_input(bytes: Bytes, made: ByteStr)
    requires
        valid_utf8(contents(bytes)),
        call_ensures(ByteStr::from_utf8_lossy, (bytes,), made),
    ensures
        made.buffer() == bytes,
        made.bytes() == contents(bytes),
        made@ == decode_utf8(contents(bytes)),
{
}

/// Taking a range of a string as a new string and viewing the same range as
/// text give the same text, and the new string holds exactly those bytes of
/// the old one.
pub proof fn law_slice_is_the_view(
    whole: ByteStr,
    begin: usize,
    end: usize,
    view: &str,
    part: ByteStr,
)
    requires
        whole.wf(),
        begin <= end <= whole.bytes().len(),
        is_char_boundary(whole.bytes(), begin as int),
        is_char_boundary(whole.bytes(), end as int),
        call_ensures(ByteStr::substr, (&whole, begin, end), view),
        call_ensures(ByteStr::slice, (&whole, begin, end), part),
    ensures
        part.wf(),
        part@ == view@,
        part.bytes() == whole.bytes().subrange(begin as int, end as int),
{
}

/// A view that lies inside a string is always found again: slicing by it
/// succeeds, and the text of the result is the text of the view.
pub proof fn law_slice_ref_containment(
    whole: ByteStr,
    base: usize,
    view: &str,
    at: usize,
    part: Option<ByteStr>,
)
    requires
        whole.wf(),
        lies_within(whole.bytes(), base as int, encode_utf8(view@), at as int),
        call_ensures(ByteStr::slice_ref_at, (&whole, base, view, at), part),
    ensures
        part is Some,
        part->0.wf(),
        part->0@ == view@,
{
}

/// Cutting a string at a place leaves text on each side exactly when the
/// place is a character boundary: the operations that cut a string ask of
/// their caller what it takes to keep the invariant, and no more.
pub proof fn law_cut_needs_a_boundary(x: ByteStr, n: int)
    requires
        x.wf(),
        0 <= n <= x.bytes().len(),
    ensures
        is_char_boundary(x.bytes(), n) <==> valid_utf8(x.bytes().subrange(0, n)),
        is_char_boundary(x.bytes(), n) <==> valid_utf8(
            x.bytes().subrange(n, x.bytes().len() as int),
        ),
{
    if is_char_boundary(x.bytes(), n) {
        valid_utf8_split(x.bytes(), n);
    }
    if valid_utf8(x.bytes().subrange(0, n)) {
        lemma_valid_prefix_boundary(x.bytes(), n);
    }
    if valid_utf8(x.bytes().subrange(n, x.bytes().len() as int)) {
        lemma_valid_suffix_boundary(x.bytes(), n);
    }
}

/// A string equals the text it was made from, whichever side it stands on
/// and whether the text is borrowed, owned or either.
pub proof fn law_equality_symmetry(x: ByteStr, t: &str, owned: String, cow: Cow<'_, str>)
    requires
        x.wf(),
        x@ == t@,
        x@ == owned@,
        x@ == cow@,
    ensures
        x.eq_spec(t),
        t.eq_spec(&x),
        x.eq_spec(&t),
        (&t).eq_spec(&x),
        x.eq_spec(&owned),
        owned.eq_spec(&x),
        x.eq_spec(&cow),
        cow.eq_spec(&x),
        x.eq_spec(&x),
{
}

/// Equality with text is equality of text: which buffer a string shares
/// plays no part.
pub proof fn law_equality_is_by_text(x: ByteStr, y: ByteStr, t: &str)
    requires
        x.wf(),
        y.wf(),
    ensures
        x.eq_spec(&y) <==> x@ == y@,
        x.eq_spec(t) <==> x@ == t@,
        x.eq_spec(&y) <==> y.eq_spec(&x),
{
    if x@ == y@ {
        assert(encode_utf8(x@) == encode_utf8(y@));
    }
    if x@ == t@ {
        assert(encode_utf8(x@) == encode_utf8(t@));
    }
}

} // verus!
