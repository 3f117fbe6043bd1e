//! The shared byte buffer that backs a string, and what is assumed of it.
//!
//! `bytes::Bytes` is opaque to the verifier. Its observable state is modelled
//! by [`contents`], and each operation used by this crate is given a contract
//! over that model. None of these contracts is proved here.

use bytes::Bytes;
use vstd::prelude::*;

verus! {

/// `bytes::Bytes`, of which nothing is known but what the contracts below
/// say.
#[verifier::external_type_specification]
#[verifier::external_body]
pub struct ExBytes(bytes::Bytes);

/// The bytes that a buffer handle exposes, in order.
pub uninterp spec fn contents(b: Bytes) -> Seq<u8>;

/// `Bytes::new` yields a handle that exposes no bytes.
pub assume_specification[ Bytes::new ]() -> (b: Bytes)
    ensures
        contents(b) == Seq::<u8>::empty(),
;

/// `Bytes::from_static` yields a handle that exposes exactly the given slice.
pub assume_specification[ Bytes::from_static ](bytes: &'static [u8]) -> (b: Bytes)
    ensures
        contents(b) == bytes@,
;

/// `Bytes::len` is the number of exposed bytes.
pub assume_specification[ Bytes::len ](b: &Bytes) -> (n: usize)
    ensures
        n == contents(*b).len(),
;

/// `Bytes::is_empty` tells whether no byte is exposed.
pub assume_specification[ Bytes::is_empty ](b: &Bytes) -> (e: bool)
    ensures
        e == (contents(*b).len() == 0),
;

/// `Bytes::truncate` keeps the first `len` bytes, and everything when the
/// handle exposes no more than `len` bytes.
pub assume_specification[ Bytes::truncate ](b: &mut Bytes, len: usize)
    ensures
        contents(*final(b)) == if len < contents(*old(b)).len() {
            contents(*old(b)).subrange(0, len as int)
        } else {
            contents(*old(b))
        },
;

/// `Bytes::clear` leaves a handle that exposes no bytes.
pub assume_specification[ Bytes::clear ](b: &mut Bytes)
    ensures
        contents(*final(b)) == Seq::<u8>::empty(),
;

/// `<Bytes as Clone>::clone` yields a second handle onto the same bytes.
pub assume_specification[ <Bytes as Clone>::clone ](b: &Bytes) -> (r: Bytes)
    ensures
        contents(r) == contents(*b),
;

/// `Bytes::slice` with the range `begin..end`: a handle onto that part of the
/// exposed bytes. The call panics unless `begin <= end <= len`.
#[verifier::external_body]
pub(crate) fn slice_range(b: &Bytes, begin: usize, end: usize) -> (r: Bytes)
    requires
        begin <= end <= contents(*b).len(),
    ensures
        contents(r) == contents(*b).subrange(begin as int, end as int),
{
    b.slice(begin..end)
}

/// `<Bytes as AsRef<[u8]>>::as_ref`: the exposed bytes as a slice.
#[verifier::external_body]
pub(crate) fn as_slice(b: &Bytes) -> (s: &[u8])
    ensures
        s@ == contents(*b),
{
    b.as_ref()
}

/// `<[u8]>::as_ptr` on the exposed bytes: the address at which they start.
/// Nothing is promised of it.
#[verifier::external_body]
pub(crate) fn start_address(b: &Bytes) -> usize {
    b.as_ptr() as usize
}

/// `<Bytes as From<String>>::from`: a handle onto the UTF-8 encoding of the
/// string, taking over its allocation.
#[verifier::external_body]
pub(crate) fn from_string(s: String) -> (b: Bytes)
    ensures
        contents(b) == vstd::utf8::encode_utf8(s@),
{
    Bytes::from(s)
}

/// `<Bytes as PartialEq>::eq` compares the exposed bytes.
#[verifier::external_body]
pub(crate) fn same_contents(a: &Bytes, b: &Bytes) -> (r: bool)
    ensures
        r == (contents(*a) == contents(*b)),
{
    a == b
}

/// `<Bytes as PartialEq<[u8]>>::eq` compares the exposed bytes with a slice.
#[verifier::external_body]
pub(crate) fn holds(b: &Bytes, s: &[u8]) -> (r: bool)
    ensures
        r == (contents(*b) == s@),
{
    b == s
}

} // verus!
