//! Equality, conversion and the other standard traits of the string.

use crate::buffer::{as_slice, holds, same_contents};
use crate::string::ByteStr;
use bytes::Bytes;
use std::borrow::Cow;
use vstd::prelude::*;
use vstd::std_specs::cmp::PartialEqSpecImpl;
use vstd::std_specs::convert::FromSpecImpl;
use vstd::utf8::*;

verus! {

broadcast use vstd::utf8::group_utf8_lib;

impl Default for ByteStr {
    /// The empty string.
    fn default() -> (s: Self)
        ensures
            s.wf(),
            s.bytes() == Seq::<u8>::empty(),
    {
        ByteStr::new()
    }
}

impl PartialEq for ByteStr {
    /// Two strings are equal when they hold the same bytes, whether or not
    /// they share a buffer.
    fn eq(&self, other: &Self) -> (r: bool) {
        same_contents(self.as_bytes(), other.as_bytes())
    }
}

impl PartialEqSpecImpl for ByteStr {
    open spec fn obeys_eq_spec() -> bool {
        true
    }

    open spec fn eq_spec(&self, other: &Self) -> bool {
        self.bytes() == other.bytes()
    }
}

impl PartialEq<str> for ByteStr {
    /// A string equals a text when its bytes are the encoding of the text.
    fn eq(&self, other: &str) -> (r: bool) {
        holds(self.as_bytes(), other.as_bytes())
    }
}

impl PartialEqSpecImpl<str> for ByteStr {
    open spec fn obeys_eq_spec() -> bool {
        true
    }

    open spec fn eq_spec(&self, other: &str) -> bool {
        self.bytes() == encode_utf8(other@)
    }
}

impl PartialEq<&str> for ByteStr {
    fn eq(&self, other: &&str) -> (r: bool) {
        holds(self.as_bytes(), other.as_bytes())
    }
}

impl PartialEqSpecImpl<&str> for ByteStr {
    open spec fn obeys_eq_spec() -> bool {
        true
    }

    open spec fn eq_spec(&self, other: &&str) -> bool {
        self.bytes() == encode_utf8(other@)
    }
}

impl PartialEq<String> for ByteStr {
    fn eq(&self, other: &String) -> (r: bool) {
        holds(self.as_bytes(), other.as_str().as_bytes())
    }
}

impl PartialEqSpecImpl<String> for ByteStr {
    open spec fn obeys_eq_spec() -> bool {
        true
    }

    open spec fn eq_spec(&self, other: &String) -> bool {
        self.bytes() == encode_utf8(other@)
    }
}

impl PartialEq<Cow<'_, str>> for ByteStr {
    fn eq(&self, other: &Cow<'_, str>) -> (r: bool) {
        match other {
            Cow::Borrowed(text) => holds(self.as_bytes(), text.as_bytes()),
            Cow::Owned(text) => holds(self.as_bytes(), text.as_str().as_bytes()),
        }
    }
}

impl PartialEqSpecImpl<Cow<'_, str>> for ByteStr {
    open spec fn obeys_eq_spec() -> bool {
        true
    }

    open spec fn eq_spec(&self, other: &Cow<'_, str>) -> bool {
        self.bytes() == encode_utf8(other@)
    }
}

impl PartialEq<ByteStr> for str {
    fn eq(&self, other: &ByteStr) -> (r: bool) {
        holds(other.as_bytes(), self.as_bytes())
    }
}

impl PartialEqSpecImpl<ByteStr> for str {
    open spec fn obeys_eq_spec() -> bool {
        true
    }

    open spec fn eq_spec(&self, other: &ByteStr) -> bool {
        other.bytes() == encode_utf8(self@)
    }
}

impl PartialEq<ByteStr> for &str {
    fn eq(&self, other: &ByteStr) -> (r: bool) {
        holds(other.as_bytes(), self.as_bytes())
    }
}

impl PartialEqSpecImpl<ByteStr> for &str {
    open spec fn obeys_eq_spec() -> bool {
        true
    }

    open spec fn eq_spec(&self, other: &ByteStr) -> bool {
        other.bytes() == encode_utf8(self@)
    }
}

impl PartialEq<ByteStr> for String {
    fn eq(&self, other: &ByteStr) -> (r: bool) {
        holds(other.as_bytes(), self.as_str().as_bytes())
    }
}

impl PartialEqSpecImpl<ByteStr> for String {
    open spec fn obeys_eq_spec() -> bool {
        true
    }

    open spec fn eq_spec(&self, other: &ByteStr) -> bool {
        other.bytes() == encode_utf8(self@)
    }
}

impl PartialEq<ByteStr> for Cow<'_, str> {
    fn eq(&self, other: &ByteStr) -> (r: bool) {
        match self {
            Cow::Borrowed(text) => holds(other.as_bytes(), text.as_bytes()),
            Cow::Owned(text) => holds(other.as_bytes(), text.as_str().as_bytes()),
        }
    }
}

impl PartialEqSpecImpl<ByteStr> for Cow<'_, str> {
    open spec fn obeys_eq_spec() -> bool {
        true
    }

    open spec fn eq_spec(&self, other: &ByteStr) -> bool {
        other.bytes() == encode_utf8(self@)
    }
}

impl From<&str> for ByteStr {
    /// A string with the given text, in a buffer of its own.
    fn from(text: &str) -> (s: Self)
        ensures
            s.wf(),
            s@ == text@,
            s.bytes() == encode_utf8(text@),
    {
        ByteStr::from_string(text.to_owned())
    }
}

impl FromSpecImpl<&str> for ByteStr {
    /// The text does not say which buffer the new string wraps, so the
    /// conversion is described by the contract of `from` alone.
    open spec fn obeys_from_spec() -> bool {
        false
    }

    open spec fn from_spec(text: &str) -> Self {
        arbitrary()
    }
}

impl From<ByteStr> for Bytes {
    /// The buffer of the string.
    fn from(text: ByteStr) -> (b: Bytes)
        ensures
            b == text.buffer(),
    {
        text.into_bytes()
    }
}

impl FromSpecImpl<ByteStr> for Bytes {
    open spec fn obeys_from_spec() -> bool {
        true
    }

    open spec fn from_spec(text: ByteStr) -> Self {
        text.buffer()
    }
}

impl core::str::FromStr for ByteStr {
    type Err = ();

    /// A string with the given text; this never fails.
    fn from_str(text: &str) -> (r: Result<Self, ()>)
        ensures
            r matches Ok(s) && s.wf() && s@ == text@,
    {
        Ok(ByteStr::from_string(text.to_owned()))
    }
}

impl AsRef<[u8]> for ByteStr {
    /// The bytes of the string.
    fn as_ref(&self) -> (b: &[u8])
        ensures
            b@ == self.bytes(),
    {
        as_slice(self.as_bytes())
    }
}

impl From<String> for ByteStr {
    /// A string with the given text, in a buffer of its own.
    fn from(text: String) -> (s: Self)
        ensures
            s.wf(),
            s@ == text@,
            s.bytes() == encode_utf8(text@),
    {
        ByteStr::from_string(text)
    }
}

impl FromSpecImpl<String> for ByteStr {
    /// The text does not say which buffer the new string wraps, so the
    /// conversion is described by the contract of `from` alone.
    open spec fn obeys_from_spec() -> bool {
        false
    }

    open spec fn from_spec(text: String) -> Self {
        arbitrary()
    }
}

} // verus!
