use ec_core::addr::{format_ipv4, parse_ipv4, parse_socket_addr, SocketAddr};
use ec_core::text::{normalize_domain, rsplit_once, split_once, trim};

#[test]
fn ipv4_addresses_are_read_and_displayed() {
    for text in ["0.0.0.0", "1.2.3.4", "10.166.35.11", "255.255.255.255", "192.0.2.100"] {
        assert_eq!(format_ipv4(parse_ipv4(text).unwrap()), text);
    }
    assert_eq!(parse_ipv4("1.2.3.4"), Some(0x0102_0304));
}

#[test]
fn ipv4_addresses_are_strict() {
    for text in [
        "", "1.2.3", "1.2.3.4.5", "256.1.1.1", "01.2.3.4", "1.2.3.00", "1.2.3.4 ", "1..3.4",
        "1.2.3.0x4", "-1.2.3.4", "1.2.3.1000",
    ] {
        assert_eq!(parse_ipv4(text), None);
    }
}

#[test]
fn socket_addresses_are_read_and_displayed() {
    for text in [
        "1.2.3.4:0", "127.0.0.1:53", "10.0.0.1:65535", "[::1]:53", "[2001:db8::1]:443",
        "[fe80::1%3]:22",
    ] {
        assert_eq!(parse_socket_addr(text).unwrap().to_text(), text);
    }
    assert_eq!(
        parse_socket_addr("[::1]:053"),
        Some(SocketAddr::V6 {
            ip6: 1,
            scope_id: 0,
            port: 53
        })
    );
}

#[test]
fn socket_addresses_are_strict() {
    for text in [
        "", "1.2.3.4", "1.2.3.4:", "1.2.3.4:65536", "::1:53", "[::1]", "[::1]53", "[::1:53",
        "[1.2.3.4]:53", "1.2.3.4:5 ", "[::1%]:53", "[::1%x]:53", "a:53",
    ] {
        assert_eq!(parse_socket_addr(text), None);
    }
}

#[test]
fn names_are_normalized() {
    assert_eq!(normalize_domain("  WWW.Example.COM..  "), "www.example.com");
    assert_eq!(normalize_domain("\u{3000}a.b\u{a0}"), "a.b");
    assert_eq!(normalize_domain(" ... "), "");
    assert_eq!(normalize_domain("\u{dc}.b"), "\u{dc}.b");
}

#[test]
fn whitespace_is_what_the_language_says() {
    for code in 0..0x3100u32 {
        if let Some(c) = char::from_u32(code) {
            let text = format!("{c}x{c}");
            assert_eq!(trim(&text), text.trim());
        }
    }
}

#[test]
fn texts_are_split_at_their_ends() {
    let pair = |a: &str, b: &str| Some((a.to_string(), b.to_string()));
    assert_eq!(split_once("a:b:c", ':'), pair("a", "b:c"));
    assert_eq!(rsplit_once("a:b:c", ':'), pair("a:b", "c"));
    assert_eq!(split_once(":", ':'), pair("", ""));
    assert_eq!(split_once("abc", ':'), None);
    assert_eq!(rsplit_once("", ':'), None);
}
