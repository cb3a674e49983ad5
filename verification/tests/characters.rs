use eup_resizer::text::{
    contains, from_chars, has_char, is_all_digits, is_empty, is_white_space, parse_u32,
    push_decimal, push_hex, push_hex_padded, push_zero_padded, rank_text, rfind,
    same_ignoring_case, spells, split, starts_with, to_ascii_lowercase, to_chars, trim, Rank,
};

fn chars(s: &str) -> Vec<char> {
    s.chars().collect()
}

#[test]
fn white_space_is_that_of_unicode() {
    for v in 0..=0x10ffffu32 {
        if let Some(c) = char::from_u32(v) {
            assert_eq!(is_white_space(c), c.is_whitespace(), "{v:x}");
        }
    }
}

#[test]
fn numbers_are_written_in_decimal_and_hexadecimal() {
    for n in [0u64, 7, 10, 99, 100, 12345, u64::MAX] {
        let mut out = String::from("x");
        push_decimal(&mut out, n);
        assert_eq!(out, format!("x{n}"));
        let mut out = String::new();
        push_hex(&mut out, n);
        assert_eq!(out, format!("{n:X}"));
        for width in [0usize, 1, 3, 8, 30] {
            let mut out = String::new();
            push_zero_padded(&mut out, n, width);
            assert_eq!(out, format!("{n:0width$}"));
            let mut out = String::new();
            push_hex_padded(&mut out, n, width);
            assert_eq!(out, format!("{n:0width$X}"));
        }
    }
}

#[test]
fn digits_are_recognised_and_valued() {
    assert!(is_all_digits(&chars("014")));
    assert!(!is_all_digits(&chars("")));
    assert!(!is_all_digits(&chars("1a")));
    assert!(!is_all_digits(&chars("٣")));
    assert_eq!(parse_u32(&chars("014")), Some(14));
    assert_eq!(parse_u32(&chars("4294967295")), Some(u32::MAX));
    assert_eq!(parse_u32(&chars("4294967296")), None);
    assert_eq!(parse_u32(&chars("00000000000000000007")), Some(7));
}

#[test]
fn texts_are_searched() {
    assert!(contains(&chars("badge_logo"), &chars("logo")));
    assert!(contains(&chars("x"), &chars("")));
    assert!(!contains(&chars("lo"), &chars("logo")));
    assert!(has_char(&chars("a}"), '}'));
    assert!(!has_char(&chars("a"), '}'));
    assert_eq!(rfind(&chars("a.b.c"), '.'), Some(3));
    assert_eq!(rfind(&chars("abc"), '.'), None);
    assert!(starts_with(&chars("files {"), "files"));
    assert!(!starts_with(&chars("file"), "files"));
    assert!(spells(&chars("diff"), "diff"));
    assert!(!spells(&chars("Diff"), "diff"));
    assert!(is_empty(""));
    assert!(!is_empty(" "));
}

#[test]
fn only_ascii_letters_change_case() {
    assert_eq!(from_chars(&to_ascii_lowercase(&chars("AzÄ_9"))), "azÄ_9");
    assert!(same_ignoring_case("YTD", "ytd"));
    assert!(!same_ignoring_case("Ä", "ä"));
}

#[test]
fn texts_are_split_and_trimmed() {
    let parts: Vec<String> = split(&chars("a,,b"), ',')
        .iter()
        .map(|p| from_chars(p))
        .collect();
    assert_eq!(parts, vec!["a", "", "b"]);
    assert_eq!(split(&chars(""), ',').len(), 1);
    assert_eq!(from_chars(trim(&chars("\u{3000} a b\t\n"))), "a b");
    assert_eq!(from_chars(trim(&chars(" \n"))), "");
    assert_eq!(to_chars("äb"), vec!['ä', 'b']);
}

#[test]
fn texts_are_ordered_like_strings() {
    let words = ["", "a", "ab", "b", "B", "ä", "a.b", "a/b", "\u{10000}", "\u{ffff}"];
    for a in words {
        for b in words {
            let expected = match a.cmp(b) {
                std::cmp::Ordering::Less => Rank::Less,
                std::cmp::Ordering::Equal => Rank::Same,
                std::cmp::Ordering::Greater => Rank::Greater,
            };
            assert_eq!(rank_text(a, b), expected, "{a} {b}");
        }
    }
}
