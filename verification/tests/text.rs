use ric3::text::{chars_eq, parse_i64, parse_usize, push_decimal, split_fields, str_chars};

fn chars(s: &str) -> Vec<char> {
    s.chars().collect()
}

#[test]
fn split_fields_matches_split_whitespace() {
    for s in ["", "  a b\tc\n", "one", "  ", "x\u{3000}y  z", "a\u{a0}b"] {
        let got: Vec<String> = split_fields(s).into_iter().map(|f| f.into_iter().collect()).collect();
        let want: Vec<String> = s.split_whitespace().map(|f| f.to_string()).collect();
        assert_eq!(got, want, "{:?}", s);
    }
}

#[test]
fn parse_i64_matches_str_parse() {
    for s in ["0", "-1", "+7", "12a", "", "-", "+", "9223372036854775807", "9223372036854775808",
        "-9223372036854775808", "-9223372036854775809", "00012", "1 2", "+-1", "18446744073709551616"] {
        assert_eq!(parse_i64(&chars(s)), s.parse::<i64>().ok(), "{:?}", s);
    }
}

#[test]
fn parse_usize_matches_str_parse() {
    for s in ["0", "-0", "+7", "-1", "", "+", "18446744073709551615", "18446744073709551616", "4x"] {
        assert_eq!(parse_usize(&chars(s)), s.parse::<usize>().ok(), "{:?}", s);
    }
}

#[test]
fn push_decimal_writes_the_number() {
    for n in [0u64, 7, 10, 12345, u64::MAX] {
        let mut out = vec!['x'];
        push_decimal(&mut out, n);
        let s: String = out.into_iter().collect();
        assert_eq!(s, format!("x{}", n));
    }
}

#[test]
fn str_chars_and_chars_eq() {
    assert_eq!(str_chars("héllo"), chars("héllo"));
    assert!(chars_eq(&chars("ab"), &chars("ab")));
    assert!(!chars_eq(&chars("ab"), &chars("abc")));
}
