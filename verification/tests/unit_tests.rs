use core::cmp::Ordering;

use caseproxy::compare_osstr_case_insensitive;
use caseproxy::osstr_chars;
use caseproxy::osstr_chars_lowercased;
use caseproxy::CharOrByte;
use caseproxy::CharOrByte::Byte;
use caseproxy::CharOrByte::Char;

#[test]
fn test_osstr_chars() {
    let mut str: Vec<u8> = "ab\u{c9}cd".as_bytes().to_vec();
    str.insert(str.len() - 1, b'\xff');
    let chars: Vec<CharOrByte> = osstr_chars(&str);
    assert_eq!(
        chars,
        vec![Char('a'), Char('b'), Char('\u{c9}'), Char('c'), Byte(b'\xff'), Char('d')]
    );

    let str: Vec<u8> = "Ab".as_bytes().to_vec();
    let chars: Vec<CharOrByte> = osstr_chars_lowercased(&str);
    assert_eq!(chars, vec![Char('a'), Char('b')]);
}

#[test]
fn test_osstr_case_insensitive() {
    let a: Vec<u8> = "foo".as_bytes().to_vec();
    let b: Vec<u8> = "Foo".as_bytes().to_vec();
    assert_eq!(compare_osstr_case_insensitive(&a, &b), Ordering::Equal);

    let a: Vec<u8> = "abc".as_bytes().to_vec();
    let b: Vec<u8> = "def".as_bytes().to_vec();
    assert_eq!(compare_osstr_case_insensitive(&a, &b), Ordering::Less);
    assert_eq!(compare_osstr_case_insensitive(&b, &a), Ordering::Greater);
}

#[test]
fn decoding_covers_every_byte_once() {
    // A three-byte character, a lone continuation byte, a truncated
    // two-byte lead at the end.
    let bytes: Vec<u8> = vec![0xe2, 0x82, 0xac, 0x90, b'x', 0xc3];
    let units = osstr_chars(&bytes);
    assert_eq!(units, vec![Char('\u{20ac}'), Byte(0x90), Char('x'), Byte(0xc3)]);

    // An overlong two-byte encoding degrades to two raw bytes.
    let overlong: Vec<u8> = vec![0xc0, 0xaf];
    assert_eq!(osstr_chars(&overlong), vec![Byte(0xc0), Byte(0xaf)]);

    // A surrogate encoding degrades to raw bytes.
    let surrogate: Vec<u8> = vec![0xed, 0xa0, 0x80];
    assert_eq!(
        osstr_chars(&surrogate),
        vec![Byte(0xed), Byte(0xa0), Byte(0x80)]
    );

    // A four-byte character decodes whole.
    let astral: Vec<u8> = vec![0xf0, 0x9f, 0x92, 0xa9];
    assert_eq!(osstr_chars(&astral), vec![Char('\u{1f4a9}')]);
}

#[test]
fn folding_changes_length_where_unicode_says_so() {
    // The uppercase dotted I lowercases to two scalar values.
    let bytes: Vec<u8> = "\u{130}".as_bytes().to_vec();
    assert_eq!(
        osstr_chars_lowercased(&bytes),
        vec![Char('i'), Char('\u{307}')]
    );
}

#[test]
fn comparison_folds_case_and_orders_bytes_after_chars() {
    let upper: Vec<u8> = "STRA\u{df}E".as_bytes().to_vec();
    let lower: Vec<u8> = "stra\u{df}e".as_bytes().to_vec();
    assert_eq!(compare_osstr_case_insensitive(&upper, &lower), Ordering::Equal);

    let accented_upper: Vec<u8> = "\u{c9}".as_bytes().to_vec();
    let accented_lower: Vec<u8> = "\u{e9}".as_bytes().to_vec();
    assert_eq!(
        compare_osstr_case_insensitive(&accented_upper, &accented_lower),
        Ordering::Equal
    );

    // A decoded scalar value sorts before a raw byte at the same
    // position, whatever their numbers.
    let char_side: Vec<u8> = vec![b'a', 0x41];
    let byte_side: Vec<u8> = vec![b'a', 0xff];
    assert_eq!(compare_osstr_case_insensitive(&char_side, &byte_side), Ordering::Less);
    assert_eq!(compare_osstr_case_insensitive(&byte_side, &char_side), Ordering::Greater);

    // A shorter stream sorts first once exhausted.
    let short: Vec<u8> = "ab".as_bytes().to_vec();
    let long: Vec<u8> = "abc".as_bytes().to_vec();
    assert_eq!(compare_osstr_case_insensitive(&short, &long), Ordering::Less);
}
