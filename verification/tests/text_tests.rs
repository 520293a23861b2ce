use ws_server::http::Response;
use ws_server::text::{
    char_is_whitespace, collect_chars, decimal_digits, push_text, str_equal, string_from_ascii,
    trim_str,
};

#[test]
fn chars_are_collected_in_order() {
    assert_eq!(collect_chars(""), Vec::<char>::new());
    assert_eq!(collect_chars("aß€"), vec!['a', 'ß', '€']);
}

#[test]
fn strings_are_compared_by_their_characters() {
    assert!(str_equal("", ""));
    assert!(str_equal("Upgrade", "Upgrade"));
    assert!(!str_equal("Upgrade", "upgrade"));
    assert!(!str_equal("Upgrade", "Upgrad"));
    assert!(!str_equal("a", ""));
}

#[test]
fn white_space_is_that_of_the_standard_library() {
    for code in 0u32..=0x10FFFF {
        if let Some(c) = char::from_u32(code) {
            assert_eq!(char_is_whitespace(c), c.is_whitespace(), "U+{code:04X}");
        }
    }
}

#[test]
fn trim_takes_white_space_from_both_ends() {
    assert_eq!(trim_str(""), "");
    assert_eq!(trim_str("   "), "");
    assert_eq!(trim_str("a"), "a");
    assert_eq!(trim_str("  a b  "), "a b");
    assert_eq!(trim_str("\t\r\n x\u{2003}"), "x");
    assert_eq!(trim_str("x  "), "x");
    assert_eq!(trim_str("  x"), "x");
    assert_eq!(trim_str("\u{200B}x"), "\u{200B}x");
}

#[test]
fn decimal_digits_of_numbers() {
    assert_eq!(decimal_digits(0), b"0");
    assert_eq!(decimal_digits(9), b"9");
    assert_eq!(decimal_digits(10), b"10");
    assert_eq!(decimal_digits(101), b"101");
    assert_eq!(decimal_digits(65535), b"65535");
    assert_eq!(decimal_digits(u64::MAX), b"18446744073709551615");
}

#[test]
fn ascii_bytes_make_a_string() {
    assert_eq!(string_from_ascii(b""), "");
    assert_eq!(string_from_ascii(b"s3pP+/="), "s3pP+/=");
    assert_eq!(string_from_ascii(&[0, 127]), "\u{0}\u{7f}");
}

#[test]
fn text_is_pushed_as_low_bytes() {
    let mut bytes = vec![1u8];
    push_text(&mut bytes, "aé€");
    assert_eq!(bytes, vec![1, b'a', 0xE9, 0xAC]);
    push_text(&mut bytes, "");
    assert_eq!(bytes.len(), 4);
}

#[test]
fn response_is_sent_to_the_outgoing_bytes() {
    let response = Response::status("HTTP/1.1", "Ok", 200).build();
    let mut out = vec![b'>'];
    assert!(response.send(&mut out));
    assert_eq!(out, b">HTTP/1.1 200 Ok\r\n\r\n");
    assert!(response.send(&mut out));
    assert_eq!(out.len(), 1 + 2 * 19);
}
