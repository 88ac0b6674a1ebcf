use drasi_comms::text::{chars_of, owned, parse_u16, parse_u64_range, push_decimal};

fn parse(s: &str) -> Option<u64> {
    let cs = chars_of(s);
    parse_u64_range(&cs, 0, cs.len())
}

#[test]
fn decimal_writing_of_numbers() {
    for (n, text) in [(0u64, "0"), (7, "7"), (10, "10"), (6379, "6379"), (65535, "65535")] {
        let mut s = String::new();
        push_decimal(&mut s, n);
        assert_eq!(s, text);
    }
    let mut s = String::new();
    push_decimal(&mut s, u64::MAX);
    assert_eq!(s, "18446744073709551615");
}

#[test]
fn parse_accepts_what_u64_from_str_accepts() {
    assert_eq!(parse("123"), Some(123));
    assert_eq!(parse("+7"), Some(7));
    assert_eq!(parse("007"), Some(7));
    assert_eq!(parse("18446744073709551615"), Some(u64::MAX));
    for bad in ["", "+", "-", "-1", "12a", " 1", "18446744073709551616", "99999999999999999999"] {
        assert_eq!(parse(bad), None, "{:?}", bad);
        assert_eq!(bad.parse::<u64>().ok(), None);
    }
}

#[test]
fn parse_of_a_range() {
    let cs = chars_of("ab42cd");
    assert_eq!(parse_u64_range(&cs, 2, 4), Some(42));
    assert_eq!(parse_u64_range(&cs, 2, 2), None);
}

#[test]
fn decimal_roundtrip_on_values() {
    for n in [0u64, 1, 9, 10, 99, 100, 1234567890, u64::MAX - 1, u64::MAX] {
        let mut s = String::new();
        push_decimal(&mut s, n);
        assert_eq!(parse(&s), Some(n));
    }
}

#[test]
fn string_helpers() {
    assert_eq!(owned("abc"), "abc");
    assert_eq!(chars_of("héllo"), vec!['h', 'é', 'l', 'l', 'o']);
    assert!(chars_of("").is_empty());
}

#[test]
fn port_numbers_parse_as_u16() {
    assert_eq!(parse_u16("3500"), Some(3500));
    assert_eq!(parse_u16("65535"), Some(65535));
    assert_eq!(parse_u16("+80"), Some(80));
    for bad in ["65536", "", "-1", "80a", "99999999999999999999999"] {
        assert_eq!(parse_u16(bad), None, "{:?}", bad);
        assert_eq!(bad.parse::<u16>().ok(), None);
    }
}
