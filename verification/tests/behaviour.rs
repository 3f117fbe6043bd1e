use bytes::Bytes;
use bytestr::{ByteStr, DecodeError, ValidationError};
use std::borrow::Cow;

#[test]
fn validated_bytes_round_trip() {
    let inputs: [&'static [u8]; 4] = [b"", b"plain", "世界 🦀".as_bytes(), b"\x00\x7f"];
    for input in inputs {
        let bytes = Bytes::from_static(input);
        let s = ByteStr::from_utf8(bytes.clone()).unwrap();
        assert_eq!(s.as_bytes(), &bytes);
        assert_eq!(s.as_bytes().as_ref(), input);
        assert_eq!(s.clone().into_bytes(), bytes);
    }
}

#[test]
fn validation_reports_the_valid_prefix() {
    let r = ByteStr::from_utf8(Bytes::from_static(b"ab\xFFcd"));
    assert_eq!(r, Err(ValidationError { valid_up_to: 2 }));

    let r = ByteStr::from_utf8(Bytes::from_static(b"\xFF\xFE\xFD"));
    assert_eq!(r.unwrap_err().valid_up_to, 0);

    // a character cut short at the end
    let r = ByteStr::from_utf8(Bytes::from_static(b"Hello, \xF0\x9F\xA6"));
    assert_eq!(r.unwrap_err().valid_up_to, 7);

    // a surrogate and an overlong form are not text
    assert_eq!(ByteStr::from_utf8(Bytes::from_static(b"a\xED\xA0\x80")).unwrap_err().valid_up_to, 1);
    assert_eq!(ByteStr::from_utf8(Bytes::from_static(b"\xC0\x80")).unwrap_err().valid_up_to, 0);
}

#[test]
fn lossy_keeps_valid_input() {
    let inputs = ["", "Hello, world!", "世界 🦀"];
    for input in inputs {
        let bytes = Bytes::from(input.to_string());
        let s = ByteStr::from_utf8_lossy(bytes.clone());
        assert_eq!(s.as_str(), input);
        assert_eq!(s.as_bytes(), &bytes);
    }
}

#[test]
fn lossy_replaces_invalid_input() {
    let s = ByteStr::from_utf8_lossy(Bytes::from_static(b"\xFF\xFE\xFD"));
    assert_eq!(s.as_str(), "\u{FFFD}\u{FFFD}\u{FFFD}");

    let s = ByteStr::from_utf8_lossy(Bytes::from_static(b"Hello \xF0\x90\x80World"));
    assert_eq!(s.as_str(), "Hello \u{FFFD}World");
}

#[test]
fn from_decoded_adopts_or_replaces() {
    let bytes = Bytes::from_static(b"as it is");
    let s = ByteStr::from_decoded(bytes.clone(), None);
    assert_eq!(s.as_str(), "as it is");
    assert_eq!(s.as_bytes(), &bytes);

    let s = ByteStr::from_decoded(Bytes::from_static(b"\xFF"), Some(String::from("\u{FFFD}")));
    assert_eq!(s.as_str(), "\u{FFFD}");
    assert_eq!(s.len(), 3);
}

#[test]
fn utf16_surrogates() {
    assert_eq!(ByteStr::from_utf16(&[0xD800, 0x0041]), Err(DecodeError));
    let lossy = ByteStr::from_utf16_lossy(&[0xD800, 0x0041]);
    assert_eq!(lossy.as_str(), "\u{FFFD}A");
    assert_eq!(lossy.as_str().matches('\u{FFFD}').count(), 1);
    let crab = ByteStr::from_utf16(&[0xD83E, 0xDD80]).unwrap();
    assert_eq!(crab.as_str(), "🦀");
    assert_eq!(crab, "🦀");
    assert_eq!(ByteStr::from_utf16_lossy(&[0xD83E, 0xDD80]).as_str(), "🦀");
}

#[test]
fn reslice_gives_the_view_back() {
    let x = ByteStr::from("Hello, 世界! 🦀");
    let text = x.as_str();
    let bounds = [0usize, 5, 7, 10, 13, 15, 19];
    for &begin in &bounds {
        for &end in &bounds {
            if begin <= end {
                let view = &text[begin..end];
                assert_eq!(x.slice_ref(view).unwrap().as_str(), view);
                assert_eq!(x.slice(begin, end).as_str(), view);
                assert_eq!(x.substr(begin, end), view);
            }
        }
    }
}

#[test]
fn slice_ref_refuses_a_foreign_view() {
    let x = ByteStr::from("hello world");
    let other = String::from("hello world");
    assert_eq!(x.slice_ref(&other), None);
    assert_eq!(x.slice_ref(&other[6..]), None);
    assert_eq!(x.slice_ref("").unwrap().as_str(), "");

    let part = x.slice(0, 5);
    // a view of the whole is not a view into a part of it
    assert_eq!(part.slice_ref(x.as_str()), None);
    assert_eq!(part.slice_ref(&x.as_str()[6..]), None);
    // but a view into the part is
    assert_eq!(x.slice_ref(part.as_str()).unwrap().as_str(), "hello");
}

#[test]
fn slice_ref_at_goes_by_place_and_bytes() {
    let x = ByteStr::from("hello world");
    assert_eq!(x.slice_ref_at(100, "world", 106).unwrap().as_str(), "world");
    assert_eq!(x.slice_ref_at(100, "hello world", 100).unwrap().as_str(), "hello world");
    assert_eq!(x.slice_ref_at(100, "d", 110).unwrap().as_str(), "d");
    // the place is outside
    assert_eq!(x.slice_ref_at(100, "world", 99), None);
    assert_eq!(x.slice_ref_at(100, "world", 107), None);
    assert_eq!(x.slice_ref_at(100, "d", 111), None);
    assert_eq!(x.slice_ref_at(usize::MAX, "d", 0), None);
    assert_eq!(x.slice_ref_at(0, "d", usize::MAX), None);
    // the place is inside, the bytes are others
    assert_eq!(x.slice_ref_at(100, "world", 105), None);
    assert_eq!(x.slice_ref_at(100, "hellO", 100), None);
    // an empty view is inside everything
    assert_eq!(x.slice_ref_at(100, "", 5).unwrap().as_str(), "");
    assert_eq!(x.slice_ref_at(100, "", 500).unwrap().len(), 0);
}

#[test]
fn character_boundaries() {
    let s = ByteStr::from("hello 世界");
    let expected = [true, true, true, true, true, true, true, false, false, true, false, false, true];
    for (index, want) in expected.iter().enumerate() {
        assert_eq!(s.is_char_boundary(index), *want, "{}", index);
    }
    assert!(!s.is_char_boundary(13));
}

#[test]
fn cuts_at_boundaries_leave_text() {
    let s = ByteStr::from("aß世🦀");
    let bytes = s.as_bytes().clone();
    for n in 0..=s.len() {
        let left = std::str::from_utf8(&bytes[..n]).is_ok();
        let right = std::str::from_utf8(&bytes[n..]).is_ok();
        assert_eq!(s.is_char_boundary(n), left, "{}", n);
        assert_eq!(s.is_char_boundary(n), right, "{}", n);
        if s.is_char_boundary(n) {
            let (a, b) = s.clone().split_at(n);
            assert_eq!(a.as_str(), &s.as_str()[..n]);
            assert_eq!(b.as_str(), &s.as_str()[n..]);
            assert_eq!(s.take(n), a);
            assert_eq!(s.skip(n), b);
            let mut t = s.clone();
            t.truncate(n);
            assert_eq!(t, a);
        }
    }
}

#[test]
fn truncate_keeps_a_short_string() {
    let mut s = ByteStr::from("世界");
    s.truncate(6);
    assert_eq!(s.as_str(), "世界");
    s.truncate(100);
    assert_eq!(s.as_str(), "世界");
    s.truncate(3);
    assert_eq!(s.as_str(), "世");
    assert_eq!(s.len(), 3);
}

#[test]
fn truncate_leaves_other_handles_alone() {
    let whole = ByteStr::from("shared text");
    let mut short = whole.clone();
    let part = whole.slice(7, 11);
    short.truncate(6);
    assert_eq!(short.as_str(), "shared");
    assert_eq!(whole.as_str(), "shared text");
    assert_eq!(part.as_str(), "text");
    short.clear();
    assert_eq!(whole.as_str(), "shared text");
}

#[test]
fn as_bytes_mut_changes_the_buffer() {
    let mut s = ByteStr::from("hello world");
    s.as_bytes_mut().truncate(5);
    assert!(s.is_well_formed());
    assert_eq!(s.as_str(), "hello");
    *s.as_bytes_mut() = Bytes::from_static(b"other");
    assert_eq!(s.as_str(), "other");
    *s.as_bytes_mut() = Bytes::from_static(b"broken \xFF");
    assert!(!s.is_well_formed());
    *s.as_bytes_mut() = Bytes::from_static(b"mended");
    assert!(s.is_well_formed());
    assert_eq!(s.as_str(), "mended");
}

#[test]
fn equality_is_symmetric() {
    let texts = ["", "plain", "世界 🦀"];
    for t in texts {
        let x = ByteStr::from(t);
        let owned = String::from(t);
        let borrowed: Cow<'_, str> = Cow::Borrowed(t);
        let cow_owned: Cow<'_, str> = Cow::Owned(String::from(t));
        assert!(x == *t);
        assert!(*t == x);
        assert!(x == t);
        assert!(t == x);
        assert!(x == owned);
        assert!(owned == x);
        assert!(x == borrowed);
        assert!(borrowed == x);
        assert!(x == cow_owned);
        assert!(cow_owned == x);
        assert!(x != "something else");
        assert!("something else" != x);
        assert!(x != String::from("something else"));
    }
}

#[test]
fn equality_and_order_go_by_bytes() {
    let whole = ByteStr::from("xxapple");
    let shared = whole.slice(2, 7);
    let fresh = ByteStr::from_static("apple");
    assert_eq!(shared, fresh);
    assert_eq!(shared.partial_cmp(&fresh), Some(std::cmp::Ordering::Equal));
    assert!(ByteStr::from("app") < fresh);
    assert!(ByteStr::from("apple") < ByteStr::from("apples"));
    assert!(ByteStr::from("b") > fresh);
    assert!(ByteStr::from("Z") < ByteStr::from("a"));
    assert!(ByteStr::from("z") < ByteStr::from("ß"));
    assert!(ByteStr::new() < ByteStr::from("\0"));
    assert_eq!(ByteStr::from("b").cmp(&fresh), std::cmp::Ordering::Greater);
}

#[test]
fn debug_form_escapes() {
    assert_eq!(ByteStr::from("a\"b\n").debug_string(), "\"a\\\"b\\n\"");
    assert_eq!(ByteStr::new().debug_string(), "\"\"");
    assert_eq!(ByteStr::from("世界").to_string(), "世界");
}

#[test]
fn conversions() {
    let s = ByteStr::from(String::from("owned"));
    let b: Bytes = s.clone().into();
    assert_eq!(b.as_ref(), b"owned");
    assert_eq!(b, s.into_bytes());
    let e = ByteStr::default();
    assert_eq!(e.capacity(), 0);
    assert_eq!(ByteStr::from("世界").capacity(), 6);
    let c = ByteStr::from("x").clone();
    assert_eq!(c.as_str(), "x");
}
