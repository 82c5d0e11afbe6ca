use qcore::key::{decode, from_qobj_key, to_qobj_key};
use qcore::text::{chars_of, decimal_string, digits_string, parse_decimal, str_lt};
use qcore::QType;

fn text(s: &str) -> QType {
    QType::Str(s.to_string())
}

#[test]
fn integer_keys_are_encoded_as_canonical_decimal_text() {
    assert_eq!(to_qobj_key(QType::Int(0)), "0");
    assert_eq!(to_qobj_key(QType::Int(15)), "15");
    assert_eq!(to_qobj_key(QType::Int(-15)), "-15");
    assert_eq!(to_qobj_key(QType::Int(i64::MIN)), "-9223372036854775808");
    assert_eq!(to_qobj_key(QType::Int(i64::MAX)), "9223372036854775807");
}

#[test]
fn string_keys_are_encoded_behind_the_sigil() {
    assert_eq!(to_qobj_key(text("name")), "$name");
    assert_eq!(to_qobj_key(text("")), "$");
    assert_eq!(to_qobj_key(text("12")), "$12");
    assert_eq!(to_qobj_key(text("$x")), "$$x");
    assert_eq!(to_qobj_key(text("日本")), "$日本");
}

#[test]
fn keys_are_decoded() {
    assert_eq!(from_qobj_key("$name".to_string()), text("name"));
    assert_eq!(from_qobj_key("$".to_string()), text(""));
    assert_eq!(from_qobj_key("$$".to_string()), text("$"));
    assert_eq!(from_qobj_key("$é!".to_string()), text("é!"));
    assert_eq!(from_qobj_key("12".to_string()), QType::Int(12));
    assert_eq!(from_qobj_key("-12".to_string()), QType::Int(-12));
    assert_eq!(from_qobj_key("+12".to_string()), QType::Int(12));
    assert_eq!(from_qobj_key("0012".to_string()), QType::Int(12));
}

#[test]
fn keys_that_stand_for_nothing_are_not_decoded() {
    assert_eq!(decode(""), None);
    assert_eq!(decode("name"), None);
    assert_eq!(decode("1x"), None);
    assert_eq!(decode("x$"), None);
    assert_eq!(decode("9223372036854775808"), None);
    assert_eq!(decode("1.0"), None);
    assert_eq!(decode("$1"), Some(text("1")));
    assert_eq!(decode("1"), Some(QType::Int(1)));
}

#[test]
fn key_codec_round_trip() {
    for i in [0i64, 1, -1, 10, -10, 1234567, i64::MAX, i64::MIN] {
        assert_eq!(from_qobj_key(to_qobj_key(QType::Int(i))), QType::Int(i));
    }
    for s in ["", "a", "name", "$", "12", "-3", "日本語", "with space", "\u{10ffff}"] {
        assert_eq!(from_qobj_key(to_qobj_key(text(s))), text(s));
    }
}

#[test]
fn decimal_strings() {
    assert_eq!(decimal_string(0), "0");
    assert_eq!(decimal_string(7), "7");
    assert_eq!(decimal_string(-7), "-7");
    assert_eq!(decimal_string(1000), "1000");
    assert_eq!(decimal_string(-1000), "-1000");
    assert_eq!(digits_string(0), "0");
    assert_eq!(digits_string(u64::MAX), "18446744073709551615");
    assert_eq!(digits_string(90210), "90210");
}

#[test]
fn parse_decimal_agrees_with_the_standard_library() {
    let samples = [
        "", "0", "-0", "+0", "1", "-1", "+1", "00", "0001", "-0001", "12345", "-12345", "+", "-",
        "++1", "--1", "+-1", "1+", "1-", " 1", "1 ", "1_000", "0x10", "1e3", "1.0", "a", "١",
        "9223372036854775807", "9223372036854775808", "-9223372036854775808",
        "-9223372036854775809", "+9223372036854775807", "+9223372036854775808",
        "00000000000000000009223372036854775807", "18446744073709551616",
        "99999999999999999999999999", "-99999999999999999999999999", "922337203685477580a",
        "９", "1\u{0}", "\u{ff11}",
    ];
    for s in samples {
        assert_eq!(parse_decimal(s), s.parse::<i64>().ok(), "{:?}", s);
    }
}

#[test]
fn chars_of_a_string() {
    assert_eq!(chars_of(""), Vec::<char>::new());
    assert_eq!(chars_of("aé日"), vec!['a', 'é', '日']);
}

#[test]
fn string_order() {
    assert!(str_lt("a", "b"));
    assert!(!str_lt("b", "a"));
    assert!(!str_lt("a", "a"));
    assert!(str_lt("", "a"));
    assert!(!str_lt("a", ""));
    assert!(!str_lt("", ""));
    assert!(str_lt("a", "ab"));
    assert!(str_lt("Z", "a"));
    assert!(str_lt("z", "é"));
}
