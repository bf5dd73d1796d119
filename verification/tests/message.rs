use idiod::logline::log_line_message;
use idiod::message::{address_field, parse_message, Message, MessageError};
use idiod::netaddr::NetAddr;

/// The addresses these tests use, as the daemon's address parser reads them.
fn parse_addr(text: &str) -> Option<NetAddr> {
    match text {
        "1.2.3.4" => Some(NetAddr::V4(0x01020304)),
        "10.1.2.3" => Some(NetAddr::V4(0x0a010203)),
        "::1" => Some(NetAddr::V6(1)),
        _ => None,
    }
}

fn parse(text: &str) -> Result<Message, MessageError> {
    let addr = address_field(text).and_then(|a| parse_addr(&a));
    parse_message(text, 7, addr)
}

#[test]
fn parses_a_message() {
    let m = parse("idiod v1; apache; 1.2.3.4; 512; /foo bar").unwrap();
    assert_eq!(m.stamp(), 7);
    assert_eq!(m.app(), "apache");
    assert_eq!(m.net_addr(), NetAddr::V4(0x01020304));
    assert_eq!(m.net_xfer(), 512);
    assert_eq!(m.path(), "/foo bar");
}

#[test]
fn extra_fields_are_ignored_and_whitespace_trimmed() {
    let m = parse("  idiod v1 ;\tx ;::1;+7;\u{3000}/p\u{a0};more;fields").unwrap();
    assert_eq!(m.app(), "x");
    assert_eq!(m.net_addr(), NetAddr::V6(1));
    assert_eq!(m.net_xfer(), 7);
    assert_eq!(m.path(), "/p");
}

#[test]
fn each_error() {
    assert!(matches!(parse("idiod v2; a; 1.2.3.4; 1; /"), Err(MessageError::UnsupportedVersion(v)) if v == "idiod v2"));
    assert!(matches!(parse(""), Err(MessageError::UnsupportedVersion(v)) if v.is_empty()));
    assert!(matches!(parse("idiod v1"), Err(MessageError::MissingApp)));
    assert!(matches!(parse("idiod v1; a"), Err(MessageError::MissingAddr)));
    assert!(matches!(parse("idiod v1; a; nonsense"), Err(MessageError::InvalidAddr)));
    assert!(matches!(parse("idiod v1; a; 1.2.3.4"), Err(MessageError::MissingXfer)));
    assert!(matches!(parse("idiod v1; a; 1.2.3.4; -1"), Err(MessageError::InvalidXfer)));
    assert!(matches!(parse("idiod v1; a; 1.2.3.4; 1"), Err(MessageError::MissingPath)));
    // The address error comes before the missing size.
    assert!(matches!(parse("idiod v1; a; bad"), Err(MessageError::InvalidAddr)));
}

#[test]
fn sizes_parse_like_usize_from_str() {
    for s in ["0", "+0", "+", "", "-0", "12a", "٣", "18446744073709551615", "18446744073709551616", "007", " 5 "] {
        let text = format!("idiod v1; a; 1.2.3.4; {s}; /");
        let expected = s.trim().parse::<usize>().ok();
        match parse(&text) {
            Ok(m) => assert_eq!(Some(m.net_xfer()), expected, "{s}"),
            Err(MessageError::InvalidXfer) => assert_eq!(expected, None, "{s}"),
            Err(e) => panic!("{s}: {e:?}"),
        }
    }
}

#[test]
fn trimming_matches_str_trim() {
    for w in ['\u{85}', '\u{2000}', '\u{200a}', '\u{2028}', '\u{202f}', '\u{205f}', '\u{1680}', '\u{b}', '\u{200b}', 'x'] {
        let text = format!("idiod v1; a; 1.2.3.4; 1; {w}/p{w}");
        let m = parse(&text).unwrap();
        assert_eq!(m.path(), format!("{w}/p{w}").trim());
    }
}

#[test]
fn address_field_is_trimmed_third_field() {
    assert_eq!(address_field("a;b; 1.2.3.4 ;d").as_deref(), Some("1.2.3.4"));
    assert_eq!(address_field("a;b"), None);
}

#[test]
fn filter_message_is_read_back() {
    let line = "10.1.2.3 - - [x] \"GET /a/b HTTP/1.1\" 404 77 \"-\" \"-\"";
    let msg = log_line_message(line).unwrap();
    let m = parse(&msg).unwrap();
    assert_eq!(m.app(), "apache");
    assert_eq!(m.net_addr(), NetAddr::V4(0x0a010203));
    assert_eq!(m.net_xfer(), 77);
    assert_eq!(m.path(), "/a/b HTTP/1.");
}
