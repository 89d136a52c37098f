use traefik_http_provider::strutil::{capture_middle, parse_port, str_eq_chars, str_lt};

#[test]
fn test_str_lt_orders_lexicographically() {
    assert!(str_lt("alpha", "beta"));
    assert!(!str_lt("beta", "alpha"));
    assert!(str_lt("abc", "abcd"));
    assert!(!str_lt("abcd", "abc"));
    assert!(!str_lt("same", "same"));
    assert!(str_lt("", "a"));
    assert!(str_lt("Z", "a"));
}

#[test]
fn test_str_eq_chars() {
    assert!(str_eq_chars("router", "router"));
    assert!(!str_eq_chars("router", "routers"));
    assert!(str_eq_chars("", ""));
}

#[test]
fn test_capture_middle() {
    assert_eq!(
        capture_middle("routing.http.routers.web.rule", "routing.http.routers.", ".rule"),
        Some("web".to_string())
    );
    assert_eq!(
        capture_middle("routing.http.routers.a.b.rule", "routing.http.routers.", ".rule"),
        Some("a.b".to_string())
    );
    assert_eq!(
        capture_middle("routing.http.routers..rule", "routing.http.routers.", ".rule"),
        None
    );
    assert_eq!(capture_middle("other", "routing.http.routers.", ".rule"), None);
}

#[test]
fn test_parse_port() {
    assert_eq!(parse_port("0"), Some(0));
    assert_eq!(parse_port("80"), Some(80));
    assert_eq!(parse_port("007"), Some(7));
    assert_eq!(parse_port("+443"), Some(443));
    assert_eq!(parse_port("65535"), Some(65535));
    assert_eq!(parse_port("65536"), None);
    assert_eq!(parse_port("123456789012345678901234567890"), None);
    assert_eq!(parse_port(""), None);
    assert_eq!(parse_port("+"), None);
    assert_eq!(parse_port("-1"), None);
    assert_eq!(parse_port("8o"), None);
    assert_eq!(parse_port(" 80"), None);
}
