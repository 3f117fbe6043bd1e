use bytestr::ByteStr;

#[test]
fn test_from_utf16_valid_ascii() {
    let utf16: Vec<u16> = "Hello, world!".encode_utf16().collect();
    let bs = ByteStr::from_utf16(&utf16).unwrap();
    assert_eq!(bs.as_str(), "Hello, world!");
}

#[test]
fn test_from_utf16_valid_unicode() {
    let utf16: Vec<u16> = "Hello, 世界! 🦀".encode_utf16().collect();
    let bs = ByteStr::from_utf16(&utf16).unwrap();
    assert_eq!(bs.as_str(), "Hello, 世界! 🦀");
}

#[test]
fn test_from_utf16_empty() {
    let empty_utf16: Vec<u16> = vec![];
    let bs = ByteStr::from_utf16(&empty_utf16).unwrap();
    assert!(bs.is_empty());
    assert_eq!(bs.as_str(), "");
}

#[test]
fn test_from_utf16_invalid() {
    let invalid_utf16 = vec![0xD800, 0x0041]; // High surrogate + 'A'
    let result = ByteStr::from_utf16(&invalid_utf16);
    assert!(result.is_err());
}

#[test]
fn test_from_utf16_invalid_lone_high_surrogate() {
    let invalid_utf16 = vec![0x0041, 0xD800]; // 'A' + lone high surrogate
    let result = ByteStr::from_utf16(&invalid_utf16);
    assert!(result.is_err());
}

#[test]
fn test_from_utf16_invalid_lone_low_surrogate() {
    let invalid_utf16 = vec![0xDC00, 0x0041]; // Lone low surrogate + 'A'
    let result = ByteStr::from_utf16(&invalid_utf16);
    assert!(result.is_err());
}

#[test]
fn test_from_utf16_surrogate_pairs() {
    let utf16 = vec![0xD83E, 0xDD80]; // High surrogate + low surrogate for 🦀
    let bs = ByteStr::from_utf16(&utf16).unwrap();
    assert_eq!(bs.as_str(), "🦀");
}

#[test]
fn test_from_utf16_lossy_valid() {
    let utf16: Vec<u16> = "Hello, world!".encode_utf16().collect();
    let bs = ByteStr::from_utf16_lossy(&utf16);
    assert_eq!(bs.as_str(), "Hello, world!");
}

#[test]
fn test_from_utf16_lossy_invalid() {
    let invalid_utf16 = vec![0xD800, 0x0041]; // High surrogate + 'A'
    let bs = ByteStr::from_utf16_lossy(&invalid_utf16);

    assert!(bs.as_str().contains('\u{FFFD}'));
    assert!(bs.as_str().contains('A'));
}

#[test]
fn test_from_utf16_lossy_empty() {
    let empty_utf16: Vec<u16> = vec![];
    let bs = ByteStr::from_utf16_lossy(&empty_utf16);
    assert!(bs.is_empty());
    assert_eq!(bs.as_str(), "");
}

#[test]
fn test_from_utf16_lossy_multiple_invalid() {
    let invalid_utf16 = vec![0xD800, 0xD800, 0x0041]; // Two high surrogates + 'A'
    let bs = ByteStr::from_utf16_lossy(&invalid_utf16);

    let replacement_count = bs.as_str().matches('\u{FFFD}').count();
    assert!(replacement_count >= 1);
    assert!(bs.as_str().contains('A'));
}

#[test]
fn test_from_utf16_roundtrip() {
    let original = "Hello, 世界! 🦀 Testing UTF-16 roundtrip";
    let utf16: Vec<u16> = original.encode_utf16().collect();
    let bs = ByteStr::from_utf16(&utf16).unwrap();

    assert_eq!(bs.as_str(), original);

    let utf16_again: Vec<u16> = bs.as_str().encode_utf16().collect();
    assert_eq!(utf16, utf16_again);
}

#[test]
fn test_from_utf16_edge_cases() {
    let bmp_chars = "ABCαβγ中文한글";
    let utf16: Vec<u16> = bmp_chars.encode_utf16().collect();
    let bs = ByteStr::from_utf16(&utf16).unwrap();
    assert_eq!(bs.as_str(), bmp_chars);

    let supplementary = "🌍🎵🎨🚀";
    let utf16_supp: Vec<u16> = supplementary.encode_utf16().collect();
    let bs_supp = ByteStr::from_utf16(&utf16_supp).unwrap();
    assert_eq!(bs_supp.as_str(), supplementary);
}

#[test]
fn test_from_utf16_consistency() {
    let test_strings = [
        "Hello, world!",
        "世界",
        "🦀🌍🎵",
        "",
        "Mixed: Hello 世界 🦀",
    ];

    for test_str in &test_strings {
        let utf16: Vec<u16> = test_str.encode_utf16().collect();
        let bs_strict = ByteStr::from_utf16(&utf16).unwrap();
        let bs_lossy = ByteStr::from_utf16_lossy(&utf16);

        assert_eq!(bs_strict.as_str(), bs_lossy.as_str());
        assert_eq!(bs_strict.as_str(), *test_str);
    }
}
