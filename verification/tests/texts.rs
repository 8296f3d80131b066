use puzzle_solver::text::{
    append_numeral, append_padded_numeral, append_signed_decimal, chars_of, digit_of, digit_text,
    find_mark, holds, read_number, read_unsigned, read_unsigned_text, split_at_marks,
};

fn numeral(value: u64, radix: u64) -> String {
    let mut text = String::from("n=");
    append_numeral(&mut text, value, radix);
    text
}

fn padded(value: u64, radix: u64, width: u32) -> String {
    let mut text = String::new();
    append_padded_numeral(&mut text, value, radix, width);
    text
}

fn decimal(value: i64) -> String {
    let mut text = String::new();
    append_signed_decimal(&mut text, value);
    text
}

#[test]
fn digits_are_written_and_read() {
    let digits = "0123456789abcdef";
    for d in 0..16u8 {
        assert_eq!(digit_text(d), &digits[d as usize..d as usize + 1]);
        assert_eq!(digit_of(digits.chars().nth(d as usize).unwrap()), Some(d));
    }
    assert_eq!(digit_of('A'), Some(10));
    assert_eq!(digit_of('F'), Some(15));
    for c in ['g', 'G', ' ', '+', '-', '/', ':', 'x', '٣'] {
        assert_eq!(digit_of(c), None);
    }
}

#[test]
fn numerals_have_no_leading_zeros() {
    assert_eq!(numeral(0, 10), "n=0");
    assert_eq!(numeral(7, 10), "n=7");
    assert_eq!(numeral(10, 10), "n=10");
    assert_eq!(numeral(1234567890, 10), "n=1234567890");
    assert_eq!(numeral(u64::MAX, 10), "n=18446744073709551615");
    assert_eq!(numeral(255, 16), "n=ff");
    assert_eq!(numeral(256, 16), "n=100");
    assert_eq!(numeral(u64::MAX, 16), "n=ffffffffffffffff");
    assert_eq!(numeral(5, 2), "n=101");
    assert_eq!(numeral(8, 8), "n=10");
}

#[test]
fn padded_numerals_have_the_width_asked_for() {
    assert_eq!(padded(0, 16, 4), "0000");
    assert_eq!(padded(0xab, 16, 4), "00ab");
    assert_eq!(padded(0xabcde, 16, 4), "bcde");
    assert_eq!(padded(7, 10, 0), "");
    assert_eq!(padded(42, 10, 5), "00042");
    assert_eq!(padded(u64::MAX, 16, 16), "ffffffffffffffff");
}

#[test]
fn decimals_carry_a_sign_where_they_are_negative() {
    assert_eq!(decimal(0), "0");
    assert_eq!(decimal(15), "15");
    assert_eq!(decimal(-15), "-15");
    assert_eq!(decimal(i64::MAX), "9223372036854775807");
    assert_eq!(decimal(i64::MIN), "-9223372036854775808");
}

#[test]
fn numbers_are_read_within_their_bounds() {
    let chars = chars_of("x123y");
    assert_eq!(chars, vec!['x', '1', '2', '3', 'y']);
    assert_eq!(read_number(&chars, 1, 4, 10, 1000), Some(123));
    assert_eq!(read_number(&chars, 1, 4, 10, 123), Some(123));
    assert_eq!(read_number(&chars, 1, 4, 10, 122), None);
    assert_eq!(read_number(&chars, 1, 4, 16, 1000), Some(0x123));
    assert_eq!(read_number(&chars, 1, 4, 3, 1000), None);
    assert_eq!(read_number(&chars, 1, 3, 3, 1000), Some(5));
    assert_eq!(read_number(&chars, 0, 4, 10, 1000), None);
    assert_eq!(read_number(&chars, 1, 5, 10, 1000), None);
    assert_eq!(read_number(&chars, 2, 2, 10, 1000), Some(0));
    let big = chars_of("18446744073709551615");
    assert_eq!(read_number(&big, 0, 20, 10, u64::MAX), Some(u64::MAX));
    let bigger = chars_of("18446744073709551616");
    assert_eq!(read_number(&bigger, 0, 20, 10, u64::MAX), None);
    let long = chars_of("ffffffffffffffffffffffff");
    assert_eq!(read_number(&long, 0, 24, 16, u64::MAX), None);
}

#[test]
fn unsigned_numbers_may_begin_with_a_plus_sign() {
    assert_eq!(read_unsigned_text("17", 10, 100), Some(17));
    assert_eq!(read_unsigned_text("+17", 10, 100), Some(17));
    assert_eq!(read_unsigned_text("0017", 10, 100), Some(17));
    assert_eq!(read_unsigned_text("101", 10, 100), None);
    for text in ["", "+", "-17", "++17", "17+", " 17", "1 7", "1７"] {
        assert_eq!(read_unsigned_text(text, 10, 100), None);
    }
    let chars = chars_of("a+7b");
    assert_eq!(read_unsigned(&chars, 1, 3, 10, 9), Some(7));
    assert_eq!(read_unsigned(&chars, 1, 2, 10, 9), None);
    assert_eq!(read_unsigned(&chars, 2, 3, 10, 9), Some(7));
    assert_eq!(read_unsigned(&chars, 2, 2, 10, 9), None);
    assert_eq!(read_unsigned(&chars, 0, 1, 16, 9), None);
    assert_eq!(read_unsigned(&chars, 0, 1, 16, 10), Some(10));
}

#[test]
fn texts_are_split_at_marks() {
    let chars = chars_of("ab cd  e ");
    let len = chars.len();
    assert_eq!(find_mark(&chars, 0, len, ' '), 2);
    assert_eq!(find_mark(&chars, 3, len, ' '), 5);
    assert_eq!(find_mark(&chars, 6, len, ' '), 6);
    assert_eq!(find_mark(&chars, 0, 2, ' '), 2);
    assert_eq!(find_mark(&chars, 0, len, 'z'), len);
    assert_eq!(split_at_marks(&chars, 0, len, ' '), vec![(0, 2), (3, 5), (6, 6), (7, 8), (9, 9)]);
    assert_eq!(split_at_marks(&chars, 0, len, 'z'), vec![(0, 9)]);
    assert_eq!(split_at_marks(&chars, 3, 5, ' '), vec![(3, 5)]);
    assert_eq!(split_at_marks(&chars, 4, 4, ' '), vec![(4, 4)]);
    assert_eq!(split_at_marks(&chars, 5, 7, ' '), vec![(5, 5), (6, 6), (7, 7)]);
    assert_eq!(chars_of(""), Vec::<char>::new());
    assert_eq!(chars_of("é▓"), vec!['é', '▓']);
}

#[test]
fn a_text_holds_the_characters_that_are_in_it() {
    assert!(holds("abc", 'a'));
    assert!(holds("abc", 'c'));
    assert!(!holds("abc", 'd'));
    assert!(!holds("", 'a'));
    assert!(holds("a\x1bb", '\x1b'));
    assert!(!holds("plain", '\x1b'));
}
