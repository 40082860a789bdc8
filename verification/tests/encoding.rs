use comfund_paths::escape::percent_encode;
use comfund_paths::text::{chars_of, signed_to_string, str_eq, unsigned_to_string};
use percent_encoding::{utf8_percent_encode, AsciiSet, NON_ALPHANUMERIC};

const FRAGMENTS: &AsciiSet = &NON_ALPHANUMERIC.remove(b'-').remove(b'_');

#[test]
fn encoding_keeps_letters_digits_hyphen_and_underscore() {
    assert_eq!(percent_encode("AZaz09-_"), "AZaz09-_");
    assert_eq!(percent_encode(""), "");
}

#[test]
fn encoding_escapes_the_rest() {
    assert_eq!(percent_encode("."), "%2E");
    assert_eq!(percent_encode("~"), "%7E");
    assert_eq!(percent_encode("/"), "%2F");
    assert_eq!(percent_encode("a b"), "a%20b");
    assert_eq!(percent_encode("\u{0}"), "%00");
    assert_eq!(percent_encode("\u{e9}"), "%C3%A9");
    assert_eq!(percent_encode("\u{10ffff}"), "%F4%8F%BF%BF");
    assert_eq!(percent_encode("%41"), "%2541");
}

#[test]
fn encoding_agrees_with_the_encoder_of_whole_strings() {
    let mut every = String::new();
    for code in 0u32..0x250 {
        if let Some(ch) = char::from_u32(code) {
            every.push(ch);
        }
    }
    every.push('\u{ffff}');
    every.push('\u{1f600}');
    assert_eq!(percent_encode(&every), utf8_percent_encode(&every, FRAGMENTS).to_string());
    for ch in every.chars() {
        let one = ch.to_string();
        assert_eq!(percent_encode(&one), utf8_percent_encode(&one, FRAGMENTS).to_string());
    }
}

#[test]
fn decimal_text_of_numbers() {
    assert_eq!(unsigned_to_string(0), "0");
    assert_eq!(unsigned_to_string(9), "9");
    assert_eq!(unsigned_to_string(10), "10");
    assert_eq!(unsigned_to_string(1203), "1203");
    assert_eq!(unsigned_to_string(u128::MAX), u128::MAX.to_string());
    assert_eq!(signed_to_string(0), "0");
    assert_eq!(signed_to_string(-1), "-1");
    assert_eq!(signed_to_string(-1203), "-1203");
    assert_eq!(signed_to_string(i128::MIN), i128::MIN.to_string());
    assert_eq!(signed_to_string(i128::MAX), i128::MAX.to_string());
}

#[test]
fn characters_and_equality_of_strings() {
    assert_eq!(chars_of("a\u{e9}/"), vec!['a', '\u{e9}', '/']);
    assert_eq!(chars_of(""), Vec::<char>::new());
    assert!(str_eq("abc", "abc"));
    assert!(str_eq("", ""));
    assert!(!str_eq("abc", "abd"));
    assert!(!str_eq("abc", "ab"));
    assert!(!str_eq("e\u{301}", "\u{e9}"));
}
