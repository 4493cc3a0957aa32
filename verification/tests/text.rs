use scriptbox::text::{
    base_of, decimal_of, decode, encode, hex_of, is_white_space, number_up_to, pad, split_words,
    strip, to_lower,
};

fn chars(s: &str) -> Vec<char> {
    s.chars().collect()
}

#[test]
fn white_space_is_that_of_unicode() {
    for n in 0..=0x10ffffu32 {
        if let Some(c) = char::from_u32(n) {
            assert_eq!(is_white_space(c), c.is_whitespace(), "{n:x}");
        }
    }
}

#[test]
fn small_letters_are_ascii_alone() {
    assert_eq!(to_lower(&chars("aZ\u{c9}@[`{")), chars("az\u{c9}@[`{"));
}

#[test]
fn trimming_and_words() {
    assert_eq!(strip(&chars(" \u{3000}a b\t")), &chars("a b")[..]);
    assert_eq!(strip(&chars(" \n")), &chars("")[..]);
    assert_eq!(split_words(&chars(" a\u{2003}bc  d ")), vec!["a", "bc", "d"]);
    assert!(split_words(&chars("  ")).is_empty());
}

#[test]
fn numbers() {
    assert_eq!(decimal_of(0), "0");
    assert_eq!(decimal_of(u128::MAX), u128::MAX.to_string());
    assert_eq!(number_up_to(&chars("00042"), 42), Some(42));
    assert_eq!(number_up_to(&chars("43"), 42), None);
    assert_eq!(number_up_to(&chars("18446744073709551615"), u64::MAX), Some(u64::MAX));
    assert_eq!(number_up_to(&chars("18446744073709551616"), u64::MAX), None);
    assert_eq!(hex_of(&[0, 0xab]), "00ab");
}

#[test]
fn padding_counts_characters() {
    assert_eq!(pad("ab", 4), format!("{:<4}", "ab"));
    assert_eq!(pad("\u{e9}", 3), format!("{:<3}", "\u{e9}"));
    assert_eq!(pad("abcdef", 4), "abcdef");
}

#[test]
fn bases_of_paths() {
    for p in ["", "a", "/", "a/", "/x/y", "x//y"] {
        let base = p.rsplit('/').next().unwrap();
        assert_eq!(base_of(&chars(p)), &chars(base)[..]);
    }
}

#[test]
fn text_and_bytes() {
    let s = "\u{0}a\u{e9}\u{20ac}\u{1f600}";
    assert_eq!(decode(s.as_bytes()), Some(chars(s)));
    assert_eq!(encode(&chars(s)), s.as_bytes());
    assert_eq!(decode(b"\xc0\x80"), None);
}
