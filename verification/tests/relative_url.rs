use kairowiki::relative_url::{byte_needs_escaping, to_hex_digit, RelativeUrl};

#[test]
fn relative_url_makes_sense() {
    assert_eq!(RelativeUrl::new("login").unwrap().0, "login");
    assert_eq!(RelativeUrl::new("/login").unwrap().0, "/login");
    assert_eq!(RelativeUrl::new("/logi n").unwrap().0, "/logi%20n".to_string());

    assert!(RelativeUrl::new("").is_err());

    assert_eq!(RelativeUrl::new("test/fish").unwrap().0, "test/fish");

    assert_eq!(RelativeUrl::new("/test 3///").unwrap().0, "/test%203");
}

#[test]
fn escaping_rules() {
    assert!(!byte_needs_escaping(b'a'));
    assert!(!byte_needs_escaping(b'Z'));
    assert!(!byte_needs_escaping(b'0'));
    assert!(!byte_needs_escaping(b'-'));
    assert!(!byte_needs_escaping(b'.'));
    assert!(!byte_needs_escaping(b'_'));
    assert!(!byte_needs_escaping(b'~'));
    assert!(byte_needs_escaping(b' '));
    assert!(byte_needs_escaping(b'/'));
    assert!(byte_needs_escaping(0xC3));
    assert_eq!(to_hex_digit(0), b'0');
    assert_eq!(to_hex_digit(9), b'9');
    assert_eq!(to_hex_digit(10), b'A');
    assert_eq!(to_hex_digit(15), b'F');
}

#[test]
fn non_ascii_is_escaped() {
    let url = RelativeUrl::new("/caf\u{e9}").unwrap();
    assert_eq!(url.0, "/caf%C3%A9");
}
