use babel2048::text::{
    chars_of, contains, find, is_whitespace, parse_number, push_decimal, starts_with, trim_bounds,
    word_bounds,
};

#[test]
fn numbers_are_read_from_a_range_of_characters() {
    let chars = chars_of("ab+120cd");
    assert_eq!(parse_number(&chars, 2, 6, u64::MAX), Some(120));
    assert_eq!(parse_number(&chars, 3, 6, 120), Some(120));
    assert_eq!(parse_number(&chars, 3, 6, 119), None);
    assert_eq!(parse_number(&chars, 2, 3, u64::MAX), None);
    assert_eq!(parse_number(&chars, 3, 3, u64::MAX), None);
    assert_eq!(parse_number(&chars, 3, 7, u64::MAX), None);
    let zeros = chars_of("000000000000000000000000000000000001");
    assert_eq!(parse_number(&zeros, 0, zeros.len(), 1), Some(1));
    let big = chars_of("99999999999999999999");
    assert_eq!(parse_number(&big, 0, big.len(), u64::MAX), None);
}

#[test]
fn numbers_are_written_in_decimal_digits() {
    let mut out = String::from("n=");
    push_decimal(&mut out, 0);
    out.push(',');
    push_decimal(&mut out, 65536);
    out.push(',');
    push_decimal(&mut out, u64::MAX);
    assert_eq!(out, "n=0,65536,18446744073709551615");
}

#[test]
fn words_and_white_space() {
    let chars = chars_of(" \t one  two \u{2003}");
    assert_eq!(word_bounds(&chars, 0, chars.len()), (3, 6));
    assert_eq!(word_bounds(&chars, 6, chars.len()), (8, 11));
    assert_eq!(word_bounds(&chars, 11, chars.len()), (13, 13));
    assert_eq!(trim_bounds(&chars, 0, chars.len()), (3, 11));
    assert_eq!(trim_bounds(&chars, 11, chars.len()), (13, 13));
    assert!(is_whitespace(' ') && is_whitespace('\n') && is_whitespace('\u{a0}'));
    assert!(is_whitespace('\u{85}') && is_whitespace('\u{1680}') && is_whitespace('\u{205f}'));
    assert!(!is_whitespace('x') && !is_whitespace('\u{200b}') && !is_whitespace('\0'));
    for code in 0..0x3100u32 {
        if let Some(c) = char::from_u32(code) {
            assert_eq!(is_whitespace(c), c.is_whitespace());
        }
    }
}

#[test]
fn patterns_are_found_in_a_range() {
    let chars = chars_of("xx Board #12");
    let pattern = chars_of("Board #");
    assert!(contains(&chars, 0, chars.len(), &pattern));
    assert!(!contains(&chars, 4, chars.len(), &pattern));
    assert!(!contains(&chars, 0, 9, &pattern));
    assert!(contains(&chars, 0, 10, &pattern));
    assert!(starts_with(&chars, 3, chars.len(), &pattern));
    assert!(!starts_with(&chars, 0, chars.len(), &pattern));
    assert!(contains(&chars, 5, 5, &chars_of("")));
    assert_eq!(find(&chars, 0, chars.len(), '#'), 9);
    assert_eq!(find(&chars, 0, chars.len(), 'x'), 0);
    assert_eq!(find(&chars, 2, chars.len(), 'x'), chars.len());
}
