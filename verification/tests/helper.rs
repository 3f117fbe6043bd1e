use bytes::Bytes;
use bytestr::ByteStr;

fn texts(parts: &[ByteStr]) -> Vec<String> {
    parts.iter().map(|p| p.to_string()).collect()
}

fn owned(parts: Vec<&str>) -> Vec<String> {
    parts.into_iter().map(String::from).collect()
}

#[test]
fn lines_of_plain_text() {
    let text = ByteStr::from("foo\nbar\nbaz");
    let lines = text.lines();
    assert_eq!(lines.len(), 3);
    assert_eq!(lines[0].as_str(), "foo");
    assert_eq!(lines[1].as_str(), "bar");
    assert_eq!(lines[2].as_str(), "baz");
}

#[test]
fn lines_agree_with_the_standard_library() {
    let cases = [
        "",
        "\n",
        "\r\n",
        "\r",
        "a",
        "a\n",
        "a\r\n",
        "a\r",
        "a\n\nb",
        "a\r\n\r\nb\r\n",
        "a\rb\nc",
        "\n\n",
        "x\r\r\ny",
        "Host: example.com\r\nAccept: */*\r\n\r\n",
        "世界\n🦀\r\nend",
        "no newline at all",
    ];
    for case in cases {
        let text = ByteStr::from(case);
        assert_eq!(texts(&text.lines()), owned(case.lines().collect()), "{:?}", case);
    }
}

#[test]
fn split_at_divides_the_text() {
    let s = ByteStr::from("Hello, world!");
    let (left, right) = s.split_at(7);
    assert_eq!(left.as_str(), "Hello, ");
    assert_eq!(right.as_str(), "world!");

    let s = ByteStr::from("ab");
    let (left, right) = s.clone().split_at(0);
    assert_eq!(left.as_str(), "");
    assert_eq!(right.as_str(), "ab");
    let (left, right) = s.split_at(2);
    assert_eq!(left.as_str(), "ab");
    assert_eq!(right.as_str(), "");
}

#[test]
fn split_by_a_pattern() {
    let s = ByteStr::from("hello,world,rust");
    let parts = s.split(",");
    assert_eq!(parts.len(), 3);
    assert_eq!(parts[0].as_str(), "hello");
    assert_eq!(parts[1].as_str(), "world");
    assert_eq!(parts[2].as_str(), "rust");
}

#[test]
fn split_agrees_with_the_standard_library() {
    let cases = [
        ("", ","),
        (",", ","),
        ("a,b", ","),
        (",a,,b,", ","),
        ("abc", ""),
        ("", ""),
        ("a--b---c", "--"),
        ("世界、こんにちは、🦀", "、"),
        ("aaa", "aa"),
        ("no separator", "::"),
    ];
    for (text, pat) in cases {
        let s = ByteStr::from(text);
        assert_eq!(texts(&s.split(pat)), owned(text.split(pat).collect()), "{:?} {:?}", text, pat);
    }
}

#[test]
fn splitn_limits_the_pieces() {
    let s = ByteStr::from("a,b,c,d");
    let parts = s.splitn(3, ",");
    assert_eq!(parts.len(), 3);
    assert_eq!(parts[0].as_str(), "a");
    assert_eq!(parts[1].as_str(), "b");
    assert_eq!(parts[2].as_str(), "c,d");

    assert_eq!(s.splitn(0, ",").len(), 0);
    assert_eq!(texts(&s.splitn(1, ",")), owned(vec!["a,b,c,d"]));
    assert_eq!(texts(&s.splitn(9, ",")), owned(vec!["a", "b", "c", "d"]));
    let e = ByteStr::from("äöü");
    assert_eq!(texts(&e.splitn(3, "")), owned("äöü".splitn(3, "").collect()));
}

#[test]
fn cut_places_the_pieces() {
    let s = ByteStr::from("key: value: more");
    let pieces = vec!["key", "value", "more"];
    let parts = s.cut(&pieces, ": ");
    assert_eq!(texts(&parts), owned(vec!["key", "value", "more"]));
    assert_eq!(s.cut(&vec!["key: value: more"], "??")[0].as_str(), "key: value: more");
}

#[test]
fn split_once_finds_the_first_occurrence() {
    let s = ByteStr::from("key=value");
    let (key, value) = s.split_once("=").unwrap();
    assert_eq!(key.as_str(), "key");
    assert_eq!(value.as_str(), "value");

    let s = ByteStr::from("no-equals-sign");
    assert!(s.split_once("=").is_none());

    let s = ByteStr::from("a=b=c");
    let (left, right) = s.split_once("=").unwrap();
    assert_eq!(left.as_str(), "a");
    assert_eq!(right.as_str(), "b=c");

    let s = ByteStr::from("GET / HTTP/1.1\r\nHost: x\r\n\r\n");
    let (line, rest) = s.split_once("\r\n").unwrap();
    assert_eq!(line.as_str(), "GET / HTTP/1.1");
    assert_eq!(rest.as_str(), "Host: x\r\n\r\n");

    let s = ByteStr::from("世界");
    let (left, right) = s.split_once("").unwrap();
    assert_eq!(left.as_str(), "");
    assert_eq!(right.as_str(), "世界");
}

#[test]
fn split_whitespace_yields_the_words() {
    let s = ByteStr::from("  hello   world  ");
    let words = s.split_whitespace();
    assert_eq!(words.len(), 2);
    assert_eq!(words[0].as_str(), "hello");
    assert_eq!(words[1].as_str(), "world");
}

#[test]
fn split_whitespace_agrees_with_the_standard_library() {
    let cases = [
        "",
        " ",
        "a",
        " a",
        "a ",
        "\t\n a \r\n b\u{3000}c\u{a0}d  ",
        "GET /api/users?name=john HTTP/1.1",
        "世界 🦀\u{2003}end",
    ];
    for case in cases {
        let text = ByteStr::from(case);
        assert_eq!(
            texts(&text.split_whitespace()),
            owned(case.split_whitespace().collect()),
            "{:?}",
            case
        );
    }
}

#[test]
fn strip_prefix_and_suffix() {
    let s = ByteStr::from("foo:bar");
    assert_eq!(s.strip_prefix("foo:"), Some(ByteStr::from("bar")));
    assert_eq!(s.strip_prefix("bar"), None);
    assert_eq!(s.strip_prefix(""), Some(ByteStr::from("foo:bar")));
    assert_eq!(s.strip_prefix("foo:bar"), Some(ByteStr::new()));
    assert_eq!(s.strip_prefix("foo:bar!"), None);

    let s = ByteStr::from("bar:foo");
    assert_eq!(s.strip_suffix(":foo"), Some(ByteStr::from("bar")));
    assert_eq!(s.strip_suffix("baz"), None);
    assert_eq!(s.strip_suffix(""), Some(ByteStr::from("bar:foo")));

    let s = ByteStr::from("🦀世界🦀");
    assert_eq!(s.strip_prefix("🦀").unwrap().as_str(), "世界🦀");
    assert_eq!(s.strip_suffix("界🦀").unwrap().as_str(), "🦀世");
}

#[test]
fn trimming() {
    let s = ByteStr::from("  hello world  ");
    assert_eq!(s.trim_start().as_str(), "hello world  ");
    assert_eq!(s.trim_end().as_str(), "  hello world");
    assert_eq!(s.trim().as_str(), "hello world");

    let s = ByteStr::from("\u{3000}\t世界 \u{a0}\n");
    assert_eq!(s.trim_start().as_str(), "世界 \u{a0}\n");
    assert_eq!(s.trim_end().as_str(), "\u{3000}\t世界");
    assert_eq!(s.trim().as_str(), "世界");

    let blank = ByteStr::from(" \t ");
    assert!(blank.trim().is_empty());
    assert!(blank.trim_start().is_empty());
    assert!(blank.trim_end().is_empty());
    assert!(ByteStr::new().trim().is_empty());
}

#[test]
fn take_and_skip() {
    let s = ByteStr::from("Hello, world!");
    assert_eq!(s.take(5).as_str(), "Hello");
    assert_eq!(s.skip(7).as_str(), "world!");
    assert_eq!(s.take(0).as_str(), "");
    assert_eq!(s.skip(13).as_str(), "");
    assert_eq!(s.take(13).as_str(), "Hello, world!");
    assert_eq!(s.slice(7, 12).as_str(), "world");
}

#[test]
fn take_until_a_pattern() {
    let s = ByteStr::from("Hello, world!");
    assert_eq!(s.take_until(",").as_str(), "Hello");

    let no_comma = ByteStr::from("Hello world");
    assert_eq!(no_comma.take_until(",").as_str(), "Hello world");
    assert_eq!(no_comma.take_until("").as_str(), "");
    assert_eq!(no_comma.take_until("H").as_str(), "");
}

#[test]
fn skip_while_a_predicate_holds() {
    let s = ByteStr::from("   hello world");
    assert_eq!(s.skip_while(|c| c.is_whitespace()).as_str(), "hello world");

    let digits = ByteStr::from("123abc");
    assert_eq!(digits.skip_while(|c| c.is_ascii_digit()).as_str(), "abc");
    assert_eq!(digits.skip_while(|_| true).as_str(), "");
    assert_eq!(digits.skip_while(|_| false).as_str(), "123abc");

    let wide = ByteStr::from("世界abc");
    assert_eq!(wide.skip_while(|c| !c.is_ascii()).as_str(), "abc");
}

#[test]
fn take_while_a_predicate_holds() {
    let s = ByteStr::from("123abc456");
    let (digits, rest) = s.take_while(|c| c.is_ascii_digit());
    assert_eq!(digits.as_str(), "123");
    assert_eq!(rest.as_str(), "abc456");

    let letters = ByteStr::from("hello123");
    let (word, numbers) = letters.take_while(|c| c.is_alphabetic());
    assert_eq!(word.as_str(), "hello");
    assert_eq!(numbers.as_str(), "123");

    let wide = ByteStr::from("🦀ß!x");
    let (taken, rest) = wide.take_while(|c| c != '!');
    assert_eq!(taken.as_str(), "🦀ß");
    assert_eq!(taken.len(), 6);
    assert_eq!(rest.as_str(), "!x");
}

#[test]
fn end_to_end_example() {
    let input = Bytes::from_static(b"Hello, \xF0\x9F\xA6\x80!");
    let s = ByteStr::from_utf8(input).unwrap();
    assert_eq!(s.len(), 12);
    assert_eq!(s.take(7).as_str(), "Hello, ");
    assert_eq!(s.skip(7).take_until("!").as_str(), "🦀");
}
