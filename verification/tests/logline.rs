use idiod::logline::{log_line_message, str_find, str_get};
use idiod::pwfilter::{mask_field, PasswordFilter};

#[test]
fn str_find_finds_from_offset() {
    assert_eq!(str_find("a b c", ' ', 0), Some(1));
    assert_eq!(str_find("a b c", ' ', 2), Some(3));
    assert_eq!(str_find("a b c", ' ', 4), None);
    assert_eq!(str_find("a b c", ' ', 5), None);
    assert_eq!(str_find("a b c", ' ', 6), None);
    assert_eq!(str_find("", 'x', 0), None);
}

#[test]
fn str_find_respects_character_boundaries() {
    // 'é' takes two bytes; offset 1 lies inside it.
    let s = "é x";
    assert_eq!(str_find(s, ' ', 1), None);
    assert_eq!(str_find(s, ' ', 2), Some(2));
    assert_eq!(str_find(s, 'x', 0), Some(3));
    assert_eq!(str_find(s, 'é', 0), Some(0));
    assert_eq!(str_find("aé€😀b", '😀', 0), Some(6));
    assert_eq!(str_find("aé€😀b", '€', 1), Some(3));
    for (i, _) in "aé€😀b".char_indices() {
        for c in ['a', 'é', '€', '😀', 'b', 'z'] {
            let expected = "aé€😀b".get(i..).and_then(|t| t.find(c)).map(|p| p + i);
            assert_eq!(str_find("aé€😀b", c, i), expected);
        }
    }
}

#[test]
fn str_get_is_slice_get() {
    let s = "aé€";
    for from in 0..8 {
        for to in 0..8 {
            assert_eq!(str_get(s, from, to), s.get(from..to), "{from}..{to}");
        }
    }
}

#[test]
fn apache_line_becomes_message() {
    let line = "192.0.2.1 - - [10/Oct/2000:13:55:36 -0700] \"GET /index.html HTTP/1.0\" 200 2326 \"-\" \"Mozilla\"";
    assert_eq!(
        log_line_message(line).as_deref(),
        Some("idiod v1; apache; 192.0.2.1; 2326; /index.html HTTP/1.")
    );
}

#[test]
fn apache_line_without_path() {
    let line = "::1 - - [x] \"-\" 408 0 \"-\" \"-\"";
    // The request field "-" loses its last character and has no space.
    assert_eq!(log_line_message(line).as_deref(), Some("idiod v1; apache; ::1; 0; "));
    // An empty request field cannot lose a character.
    let line = "::1 - - [x] \"\" 408 0 \"-\" \"-\"";
    assert_eq!(log_line_message(line).as_deref(), None);
    let line = "::1 - - [x] \"GET\" 400 15 \"-\" \"-\"";
    assert_eq!(log_line_message(line).as_deref(), Some("idiod v1; apache; ::1; 15; "));
}

#[test]
fn apache_line_missing_fields() {
    assert_eq!(log_line_message(""), None);
    assert_eq!(log_line_message("noaddr"), None);
    assert_eq!(log_line_message("1.2.3.4 no quotes here"), None);
    assert_eq!(log_line_message("1.2.3.4 \"GET / HTTP/1.1\""), None);
    assert_eq!(log_line_message("1.2.3.4 \"GET / HTTP/1.1\" 200"), None);
    assert_eq!(log_line_message("1.2.3.4 \"GET / HTTP/1.1\" 200 12"), None);
}

#[test]
fn password_filter_masks_values() {
    let f = PasswordFilter::new().unwrap();
    assert_eq!(f.filter_line("GET /login?user=bob&password=secret HTTP/1.1"), "GET /login?user=bob&password=*** HTTP/1.1\n");
    assert_eq!(f.filter_line("a pw=1&passwd=2 pass=x"), "a pw=***&passwd=*** pass=***\n");
    assert_eq!(f.filter_line("nothing here"), "nothing here\n");
    assert_eq!(mask_field("pw"), "pw=***");
}
