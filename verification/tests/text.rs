use micromedia::text::{
    parse_i32, parse_i64, push_count, push_decimal, space, split_words, to_ascii_lower, trim,
};

#[test]
fn white_space_is_that_of_the_language() {
    for n in 0..=0x10ffffu32 {
        if let Some(c) = char::from_u32(n) {
            assert_eq!(space(c), c.is_whitespace(), "{n:x}");
        }
    }
}

#[test]
fn trimming_and_splitting() {
    assert_eq!(trim("  a b\u{a0}\n"), "a b");
    assert_eq!(trim(" \t "), "");
    assert_eq!(split_words(" one  two\u{2003}three "), vec!["one", "two", "three"]);
    assert!(split_words(" \n").is_empty());
}

#[test]
fn decimals() {
    for i in [0i64, 7, -7, 10, 1234567890, i64::MAX, i64::MIN] {
        let mut s = String::new();
        push_decimal(&mut s, i);
        assert_eq!(s, format!("{i}"));
        assert_eq!(parse_i64(&s), Some(i));
    }
    let mut s = "n=".to_string();
    push_count(&mut s, usize::MAX);
    assert_eq!(s, format!("n={}", usize::MAX));
}

#[test]
fn numbers_are_read_like_the_language_reads_them() {
    for t in ["", "+", "-", "+5", "-0", "007", " 1", "1 ", "9223372036854775808", "-9223372036854775808", "1_0", "٣"] {
        assert_eq!(parse_i64(t), t.parse::<i64>().ok(), "{t}");
        assert_eq!(parse_i32(t), t.parse::<i32>().ok(), "{t}");
    }
    assert_eq!(parse_i32("2147483648"), None);
    assert_eq!(parse_i32("-2147483648"), Some(i32::MIN));
}

#[test]
fn only_ascii_letters_are_lowered() {
    assert_eq!(to_ascii_lower("AbÄÖ-Z9"), "abÄÖ-z9");
}
