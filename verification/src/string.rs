//! The string type and its primitive operations.

use crate::buffer::{as_slice, contents, from_string, slice_range, start_address};
use crate::lemmas::{lemma_valid_between_boundaries, lemma_valid_prefix_boundary};
use crate::text::{
    debug_form, str_address, str_debug, str_from_utf8, string_from_utf16,
    string_from_utf16_lossy, string_from_utf8_lossy, utf16_decoding, utf16_lossy_decoding,
    utf8_lossy_decoding, valid_up_to,
};
use bytes::Bytes;
use std::borrow::Cow;
use vstd::prelude::*;
use vstd::string::StringSliceAdditionalSpecFns;
use vstd::utf8::*;

verus! {

broadcast use vstd::utf8::group_utf8_lib;

/// A cheaply cloneable and sliceable immutable UTF-8 string.
#[derive(Debug, Eq, Hash, Ord)]
pub struct ByteStr(Bytes);

/// Why a byte sequence was rejected as text.
#[derive(Debug, Clone, Copy, PartialEq, Eq)]
pub struct ValidationError {
    /// The length of the longest prefix of the input that is well-formed UTF-8.
    pub valid_up_to: usize,
}

/// A sequence of UTF-16 code units held an unpaired surrogate.
#[derive(Debug, Clone, Copy, PartialEq, Eq)]
pub struct DecodeError;

/// The bytes `part`, found at the address `at`, lie inside `bytes`, found at
/// the address `base`: the place is inside, and the bytes there are the same.
pub open spec fn lies_within(bytes: Seq<u8>, base: int, part: Seq<u8>, at: int) -> bool {
    &&& base <= at
    &&& at - base + part.len() <= bytes.len()
    &&& bytes.subrange(at - base, at - base + part.len()) == part
}

impl Clone for ByteStr {
    /// A second handle onto the same buffer.
    fn clone(&self) -> (s: Self)
        ensures
            s.bytes() == self.bytes(),
    {
        ByteStr(self.0.clone())
    }
}

impl View for ByteStr {
    type V = Seq<char>;

    /// The text of the string.
    open spec fn view(&self) -> Seq<char> {
        decode_utf8(self.bytes())
    }
}

impl ByteStr {
    /// The buffer handle that this string wraps.
    pub closed spec fn buffer(&self) -> Bytes {
        self.0
    }

    /// The bytes of the string.
    pub open spec fn bytes(&self) -> Seq<u8> {
        contents(self.buffer())
    }

    /// The invariant of the type: the bytes are well-formed UTF-8.
    pub open spec fn wf(&self) -> bool {
        valid_utf8(self.bytes())
    }

    /// Creates an empty string.
    pub fn new() -> (s: Self)
        ensures
            s.wf(),
            s.bytes() == Seq::<u8>::empty(),
            s@ == Seq::<char>::empty(),
    {
        ByteStr(Bytes::new())
    }

    /// Wraps a buffer after checking that it holds well-formed UTF-8. The
    /// buffer is adopted as it is; a rejected buffer is dropped.
    pub fn from_utf8(bytes: Bytes) -> (r: Result<Self, ValidationError>)
        ensures
            r is Ok <==> valid_utf8(contents(bytes)),
            r matches Ok(s) ==> s.wf() && s.buffer() == bytes,
            r matches Err(e) ==> valid_up_to(contents(bytes), e.valid_up_to as int),
    {
        match str_from_utf8(as_slice(&bytes)) {
            Ok(_) => Ok(Self::from_utf8_unchecked(bytes)),
            Err(n) => Err(ValidationError { valid_up_to: n }),
        }
    }

    /// Wraps a buffer, replacing each ill-formed part by U+FFFD. A well-formed
    /// buffer is adopted as it is.
    pub fn from_utf8_lossy(bytes: Bytes) -> (s: Self)
        ensures
            s.wf(),
            s@ == utf8_lossy_decoding(contents(bytes)),
            valid_utf8(contents(bytes)) ==> s.buffer() == bytes,
    {
        let replaced = match string_from_utf8_lossy(as_slice(&bytes)) {
            Cow::Borrowed(_) => None,
            Cow::Owned(text) => Some(text),
        };
        Self::from_decoded(bytes, replaced)
    }

    /// Makes a string of a buffer and of what lossy decoding made of it:
    /// where the decoding had nothing to replace, the buffer is adopted as it
    /// is, and else the decoded text takes its place.
    pub fn from_decoded(bytes: Bytes, replaced: Option<String>) -> (s: Self)
        requires
            replaced is None ==> valid_utf8(contents(bytes)),
        ensures
            s.wf(),
            match replaced {
                None => s.buffer() == bytes,
                Some(text) => s@ == text@ && s.bytes() == encode_utf8(text@),
            },
    {
        match replaced {
            None => Self::from_utf8_unchecked(bytes),
            Some(text) => Self::from_string(text),
        }
    }

    /// Decodes UTF-16 into a new string.
    pub fn from_utf16(units: &[u16]) -> (r: Result<Self, DecodeError>)
        ensures
            match r {
                Ok(s) => s.wf() && utf16_decoding(units@) == Some(s@),
                Err(_) => utf16_decoding(units@) is None,
            },
    {
        match string_from_utf16(units) {
            Some(string) => Ok(Self::from_string(string)),
            None => Err(DecodeError),
        }
    }

    /// Decodes UTF-16 into a new string, replacing each unpaired surrogate by
    /// U+FFFD.
    pub fn from_utf16_lossy(units: &[u16]) -> (s: Self)
        ensures
            s.wf(),
            s@ == utf16_lossy_decoding(units@),
    {
        Self::from_string(string_from_utf16_lossy(units))
    }

    /// Wraps a string constant without copying it.
    pub fn from_static(text: &'static str) -> (s: Self)
        ensures
            s.wf(),
            s@ == text@,
            s.bytes() == encode_utf8(text@),
    {
        Self::from_utf8_unchecked(Bytes::from_static(text.as_bytes()))
    }

    /// Takes over the allocation of an owned string.
    pub fn from_string(text: String) -> (s: Self)
        ensures
            s.wf(),
            s@ == text@,
            s.bytes() == encode_utf8(text@),
    {
        Self::from_utf8_unchecked(from_string(text))
    }

    /// Wraps a buffer without looking at it. The caller answers for the
    /// invariant: this is the one way to make a string from bytes that nothing
    /// has checked.
    pub fn from_utf8_unchecked(bytes: Bytes) -> (s: Self)
        requires
            valid_utf8(contents(bytes)),
        ensures
            s.wf(),
            s.buffer() == bytes,
    {
        ByteStr(bytes)
    }

    /// Unwraps the buffer.
    pub fn into_bytes(self) -> (b: Bytes)
        ensures
            b == self.buffer(),
    {
        self.0
    }

    /// The buffer, which carries no promise about text.
    pub fn as_bytes(&self) -> (b: &Bytes)
        ensures
            *b == self.buffer(),
    {
        &self.0
    }

    /// The text of the string.
    pub fn as_str(&self) -> (s: &str)
        requires
            self.wf(),
        ensures
            s@ == self@,
            s.spec_bytes() == self.bytes(),
            self.bytes().len() <= usize::MAX,
    {
        let raw = as_slice(&self.0);
        let length: usize = raw.len();
        assert(self.bytes().len() == length);
        match str_from_utf8(raw) {
            Ok(s) => s,
            Err(_) => "",
        }
    }

    /// The text between byte `begin` and byte `end`, both of which must lie on
    /// character boundaries.
    pub fn substr(&self, begin: usize, end: usize) -> (s: &str)
        requires
            self.wf(),
            begin <= end <= self.bytes().len(),
            is_char_boundary(self.bytes(), begin as int),
            is_char_boundary(self.bytes(), end as int),
        ensures
            s@ == decode_utf8(self.bytes().subrange(begin as int, end as int)),
    {
        let (head, _) = self.as_str().split_at(end);
        proof {
            lemma_valid_between_boundaries(self.bytes(), begin as int, end as int);
            assert(head.spec_bytes().subrange(0, begin as int) =~= self.bytes().subrange(
                0,
                begin as int,
            ));
            lemma_valid_prefix_boundary(head.spec_bytes(), begin as int);
        }
        let (_, part) = head.split_at(begin);
        proof {
            assert(part.spec_bytes() =~= self.bytes().subrange(begin as int, end as int));
        }
        part
    }

    /// The text as an owned string.
    pub fn to_string(&self) -> (s: String)
        requires
            self.wf(),
        ensures
            s@ == self@,
    {
        self.as_str().to_owned()
    }

    /// The text as the standard `Debug` formatting of text shows it.
    pub fn debug_string(&self) -> (s: String)
        requires
            self.wf(),
        ensures
            s@ == debug_form(self@),
    {
        str_debug(self.as_str())
    }

    /// Shortens the string to its first `len` bytes; does nothing when it is
    /// no longer than that.
    pub fn truncate(&mut self, len: usize)
        requires
            old(self).wf(),
            len < old(self).bytes().len() ==> is_char_boundary(old(self).bytes(), len as int),
        ensures
            final(self).wf(),
            final(self).bytes() == if len < old(self).bytes().len() {
                old(self).bytes().subrange(0, len as int)
            } else {
                old(self).bytes()
            },
    {
        if len < self.0.len() {
            self.0.truncate(len);
        }
    }

    /// The part of the string from byte `begin` up to byte `end`, as a new
    /// handle onto the same buffer. Both ends must lie on character
    /// boundaries.
    pub fn slice(&self, begin: usize, end: usize) -> (s: Self)
        requires
            self.wf(),
            begin <= end <= self.bytes().len(),
            is_char_boundary(self.bytes(), begin as int),
            is_char_boundary(self.bytes(), end as int),
        ensures
            s.wf(),
            s.bytes() == self.bytes().subrange(begin as int, end as int),
    {
        proof {
            lemma_valid_between_boundaries(self.bytes(), begin as int, end as int);
        }
        ByteStr(slice_range(&self.0, begin, end))
    }

    /// The part of the string that `subset` is a view of, as a new handle onto
    /// the same buffer; `None` when `subset` is not a view into this string.
    /// An empty `subset` is taken to be a view into any string.
    pub fn slice_ref(&self, subset: &str) -> (r: Option<Self>)
        requires
            self.wf(),
        ensures
            subset@.len() == 0 ==> r is Some,
            r matches Some(s) ==> {
                &&& s.wf()
                &&& s@ == subset@
                &&& exists|k: int|
                    0 <= k <= self.bytes().len() - s.bytes().len() && s.bytes()
                        == #[trigger] self.bytes().subrange(k, k + s.bytes().len())
            },
    {
        let base = start_address(&self.0);
        let at = str_address(subset);
        let r = self.slice_ref_at(base, subset, at);
        proof {
            if r is Some {
                let s = r->0;
                let k: int = if subset@.len() == 0 {
                    0
                } else {
                    at - base
                };
                assert(s.bytes() =~= self.bytes().subrange(k, k + s.bytes().len()));
                assert(0 <= k <= self.bytes().len() - s.bytes().len());
            }
        }
        r
    }

    /// What [`ByteStr::slice_ref`] returns when this string's bytes start at
    /// the address `base` and those of `subset` at the address `at`. The
    /// answer is `Some` exactly when `subset` is empty or lies inside this
    /// string, by its place and by what it holds.
    pub fn slice_ref_at(&self, base: usize, subset: &str, at: usize) -> (r: Option<Self>)
        requires
            self.wf(),
        ensures
            r is Some <==> subset@.len() == 0 || lies_within(
                self.bytes(),
                base as int,
                encode_utf8(subset@),
                at as int,
            ),
            r matches Some(s) ==> s.wf() && s@ == subset@ && s.bytes() == encode_utf8(subset@),
            r matches Some(s) ==> subset@.len() > 0 ==> s.bytes() == self.bytes().subrange(
                at - base,
                at - base + s.bytes().len(),
            ),
    {
        let part = subset.as_bytes();
        let whole = as_slice(&self.0);
        let n: usize = part.len();
        assert(subset@.len() == 0 <==> n == 0) by {
            if subset@.len() > 0 {
                encode_utf8_first_scalar(subset@);
            }
        }
        if n == 0 {
            assert(part@ =~= Seq::<u8>::empty());
            return Some(ByteStr::new());
        }
        if at < base || at - base > whole.len() || n > whole.len() - (at - base) {
            return None;
        }
        let offset: usize = at - base;
        let mut i: usize = 0;
        while i < n
            invariant
                i <= n,
                n == part@.len(),
                offset + n <= whole@.len() <= usize::MAX,
                offset == at - base,
                base <= at,
                whole@ == self.bytes(),
                part@ == encode_utf8(subset@),
                forall|j: int| 0 <= j < i ==> whole@[offset + j] == part@[j],
            decreases n - i,
        {
            if whole[offset + i] != part[i] {
                assert(whole@.subrange(offset as int, offset + n)[i as int] != part@[i as int]);
                return None;
            }
            i += 1;
        }
        assert(whole@.subrange(offset as int, offset + n) =~= part@);
        Some(ByteStr(slice_range(&self.0, offset, offset + n)))
    }

    /// The buffer, for changing it in place. Until the borrow ends with
    /// well-formed UTF-8 in the buffer, the string does not meet its
    /// invariant, and the caller answers for restoring it.
    pub fn as_bytes_mut(&mut self) -> (b: &mut Bytes)
        ensures
            *b == old(self).buffer(),
            final(self).buffer() == *final(b),
    {
        &mut self.0
    }

    /// Whether the string meets its invariant. It always does, unless its
    /// buffer was changed through [`ByteStr::as_bytes_mut`].
    pub fn is_well_formed(&self) -> (r: bool)
        ensures
            r == self.wf(),
    {
        str_from_utf8(as_slice(&self.0)).is_ok()
    }

    /// Whether byte `index` starts a character or is the end of the string.
    pub fn is_char_boundary(&self, index: usize) -> (r: bool)
        requires
            self.wf(),
        ensures
            r == is_char_boundary(self.bytes(), index as int),
    {
        let raw = as_slice(&self.0);
        if index == 0 || index == raw.len() {
            proof {
                is_char_boundary_start_end_of_seq(self.bytes());
            }
            true
        } else if index > raw.len() {
            false
        } else {
            proof {
                is_char_boundary_iff_not_is_continuation_byte(self.bytes(), index as int);
            }
            let byte: u8 = raw[index];
            byte < 0x80 || byte > 0xbf
        }
    }

    /// Empties the string.
    pub fn clear(&mut self)
        ensures
            final(self).wf(),
            final(self).bytes() == Seq::<u8>::empty(),
    {
        self.0.clear();
    }

    /// Whether the string has no bytes.
    pub fn is_empty(&self) -> (e: bool)
        ensures
            e == (self.bytes().len() == 0),
    {
        self.0.is_empty()
    }

    /// The length of the string in bytes.
    pub fn len(&self) -> (n: usize)
        ensures
            n == self.bytes().len(),
    {
        self.0.len()
    }

    /// The same as the length: how much the buffer has allocated cannot be
    /// observed.
    pub fn capacity(&self) -> (n: usize)
        ensures
            n == self.bytes().len(),
    {
        self.0.len()
    }
}

} // verus!
