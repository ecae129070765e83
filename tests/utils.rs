use bns_doh::text::{parse_u8, split_on_dots, str_eq};
use bns_doh::utils::{
    b64_url_to_u8_vec, binary_to_u8, extract_tld, ip_string_to_u8_array, parse_a_record,
    to_binary,
};

#[test]
fn binary_text() {
    assert_eq!(to_binary(5, false), "101");
    assert_eq!(to_binary(5, true), "000101");
    assert_eq!(to_binary(0, true), "000000");
    assert_eq!(to_binary(63, true), "111111");
    assert_eq!(to_binary(200, true), "11001000");
}

#[test]
fn binary_to_byte() {
    assert_eq!(binary_to_u8("11111111"), 255);
    assert_eq!(binary_to_u8("00000001"), 1);
    assert_eq!(binary_to_u8("101"), 5);
    assert_eq!(binary_to_u8(""), 0);
}

#[test]
fn base64url_decoding() {
    assert_eq!(b64_url_to_u8_vec("AAABAAAB"), Ok(vec![0, 0, 1, 0, 0, 1]));
    assert_eq!(b64_url_to_u8_vec("_-8="), Ok(vec![0xff, 0xef, 0x00]));
    assert_eq!(b64_url_to_u8_vec("QQ"), Ok(vec![0x41, 0x00]));
    assert_eq!(b64_url_to_u8_vec(""), Ok(vec![]));
    assert_eq!(b64_url_to_u8_vec("ab+c"), Err(()));
}

#[test]
fn ip_text_to_bytes() {
    assert_eq!(ip_string_to_u8_array("192.168.0.1"), [192, 168, 0, 1]);
    assert_eq!(ip_string_to_u8_array("1.2.3.4.5"), [1, 2, 3, 4]);
}

#[test]
fn tld_split() {
    assert_eq!(extract_tld("test.ban"), ("test", "ban"));
    assert_eq!(extract_tld("a.b.jtv"), ("a.b", "jtv"));
    assert_eq!(extract_tld("localhost"), ("", "localhost"));
    assert_eq!(extract_tld("x."), ("x", ""));
}

#[test]
fn a_record_parsing() {
    assert_eq!(parse_a_record("10.0.0.7"), Some([10, 0, 0, 7]));
    assert_eq!(parse_a_record("+1.02.3.255"), Some([1, 2, 3, 255]));
    assert_eq!(parse_a_record("1.2.3"), None);
    assert_eq!(parse_a_record("1.2.3.4.5"), None);
    assert_eq!(parse_a_record("1.2.3.256"), None);
    assert_eq!(parse_a_record("1.2.x.4"), None);
    assert_eq!(parse_a_record("1..3.4"), None);
}

#[test]
fn decimal_bytes() {
    assert_eq!(parse_u8("0"), Some(0));
    assert_eq!(parse_u8("255"), Some(255));
    assert_eq!(parse_u8("256"), None);
    assert_eq!(parse_u8("+7"), Some(7));
    assert_eq!(parse_u8("+"), None);
    assert_eq!(parse_u8("-1"), None);
    assert_eq!(parse_u8(""), None);
    assert_eq!(parse_u8("99999"), None);
}

#[test]
fn dot_splitting() {
    assert_eq!(split_on_dots("a..b"), vec!["a", "", "b"]);
    assert_eq!(split_on_dots(""), vec![""]);
    assert!(str_eq("abc", "abc"));
    assert!(!str_eq("abc", "abd"));
}
