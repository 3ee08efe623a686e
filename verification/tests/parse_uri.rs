use text_parts::parse_uri::{
    host, ip, ip_or_host, ipv6_from_groups, path, port, query, scheme, uri,
};
use text_parts::types::{Host, Scheme, URI};

#[test]
fn test_scheme() {
    assert_eq!(scheme("https://yay"), Some(("yay", Scheme::HTTPS)));
    assert_eq!(scheme("http://yay"), Some(("yay", Scheme::HTTP)));
}

#[test]
fn test_host() {
    assert_eq!(host("localhost:8080"), Some((":8080", Host::HOST("localhost".to_string()))));
    assert_eq!(host("example.org:8080"), Some((":8080", Host::HOST("example.org".to_string()))));
    assert_eq!(
        host("sub.example.org:8080"),
        Some((":8080", Host::HOST("sub.example.org".to_string())))
    );
    assert_eq!(host("example.123"), Some((".123", Host::HOST("example".to_string()))));
}

#[test]
fn test_ip() {
    assert_eq!(ip("127.0.0.1:8080"), Some((":8080", Host::IPV4([127, 0, 0, 1]))));
    assert_eq!(ip("0.0.0.0"), Some(("", Host::IPV4([0, 0, 0, 0]))));
    assert_eq!(
        ip("[0:0:0:0:0:0:0:1]"),
        Some(("", Host::IPV6([0x0, 0x0, 0x0, 0x0, 0x0, 0x0, 0x0, 0x1])))
    );
    assert_eq!(ip("[::1]"), Some(("", Host::IPV6([0x0, 0x0, 0x0, 0x0, 0x0, 0x0, 0x0, 0x1]))));
    assert_eq!(
        ip("[2a01:5cc0:1:2::4]:8080"),
        Some((":8080", Host::IPV6([0x0, 0x0, 0x2a01, 0x5cc0, 0x1, 0x2, 0x0, 0x4])))
    );
}

#[test]
fn test_ip_or_host() {
    assert_eq!(
        ip_or_host("[::ffff:124:1234:124]:4242"),
        Some((":4242", Host::IPV6([0x0, 0x0, 0x0, 0x0, 0xffff, 0x124, 0x1234, 0x124])))
    );
    assert_eq!(
        ip_or_host("example.org:69420"),
        Some((":69420", Host::HOST("example.org".to_string())))
    );
}

#[test]
fn test_port() {
    assert_eq!(port(":8080"), Some(("", 8080)));
    assert_eq!(port(":123/hello/world"), Some(("/hello/world", 123)));
}

#[test]
fn test_path() {
    assert_eq!(path("/"), Some(("", "/".to_string())));
    assert_eq!(path("/hello/world#f"), Some(("#f", "/hello/world".to_string())));
    assert_eq!(path("/test?yay=x&w=y#asd"), Some(("?yay=x&w=y#asd", "/test".to_string())));
}

#[test]
fn test_query() {
    assert_eq!(query("?abc=d&x=w"), Some(("", "abc=d&x=w".to_string())));
    assert_eq!(query("?q=asdf#f"), Some(("#f", "q=asdf".to_string())));
}

#[test]
fn scheme_is_matched_in_any_case() {
    assert_eq!(scheme("HTTP://x"), Some(("x", Scheme::HTTP)));
    assert_eq!(scheme("hTTpS://x"), Some(("x", Scheme::HTTPS)));
    assert_eq!(Scheme::from_token("Https://"), Some(Scheme::HTTPS));
    assert_eq!(Scheme::from_token("HTTP://"), Some(Scheme::HTTP));
}

#[test]
fn other_schemes_are_a_mismatch() {
    assert_eq!(scheme("ftp://x"), None);
    assert_eq!(scheme("http:/x"), None);
    assert_eq!(scheme("http"), None);
    assert_eq!(scheme(""), None);
    assert_eq!(Scheme::from_token("ftp://"), None);
    assert_eq!(Scheme::from_token("http://x"), None);
    assert_eq!(Scheme::from_token(""), None);
    assert_eq!(uri("ftp://example.org"), None);
}

#[test]
fn host_labels_are_taken_greedily() {
    assert_eq!(host("a.b.1"), Some((".b.1", Host::HOST("a".to_string()))));
    assert_eq!(host("a.b-c"), Some(("-c", Host::HOST("a.b".to_string()))));
    assert_eq!(host("my-host1/x"), Some(("/x", Host::HOST("my-host1".to_string()))));
    assert_eq!(host("x.com."), Some((".com.", Host::HOST("x".to_string()))));
    assert_eq!(host(".com"), None);
    assert_eq!(host(""), None);
}

#[test]
fn ipv4_group_above_255_is_a_mismatch() {
    assert_eq!(ip("999.0.0.1"), None);
    assert_eq!(ip("1.2.3.256"), None);
    assert_eq!(ip("255.255.255.255"), Some(("", Host::IPV4([255, 255, 255, 255]))));
    assert_eq!(ip_or_host("999.0.0.1"), Some((".0.0.1", Host::HOST("999".to_string()))));
}

#[test]
fn ipv4_reads_three_digits_at_most() {
    assert_eq!(ip("1.2.3.4567"), None);
    assert_eq!(ip("1.2.3.0255"), Some(("5", Host::IPV4([1, 2, 3, 25]))));
    assert_eq!(ip("0001.2.3.4"), None);
    assert_eq!(ip("1.2.3"), None);
    assert_eq!(ip("1.2.3."), None);
}

#[test]
fn ip_literal_wins_over_host_name() {
    assert_eq!(ip_or_host("127.0.0.1:80"), Some((":80", Host::IPV4([127, 0, 0, 1]))));
    assert_eq!(ip_or_host("1.2.3"), Some((".2.3", Host::HOST("1".to_string()))));
}

#[test]
fn ipv6_groups_fill_the_address_from_its_end() {
    assert_eq!(ip("[1:2]"), Some(("", Host::IPV6([0, 0, 0, 0, 0, 0, 1, 2]))));
    assert_eq!(ip("[1::]"), Some(("", Host::IPV6([0, 0, 0, 0, 0, 1, 0, 0]))));
    assert_eq!(
        ip("[1:2:3:4:5:6:7:8]"),
        Some(("", Host::IPV6([1, 2, 3, 4, 5, 6, 7, 8])))
    );
    assert_eq!(
        ip("[ffff:0:a:b:c:d:e:f]x"),
        Some(("x", Host::IPV6([0xffff, 0, 0xa, 0xb, 0xc, 0xd, 0xe, 0xf])))
    );
}

#[test]
fn ipv6_with_more_than_eight_groups_is_a_mismatch() {
    assert_eq!(ip("[1:2:3:4:5:6:7:8:9]"), None);
    assert_eq!(ip("[::::::::]"), None);
    assert_eq!(ip("[:::::::]"), Some(("", Host::IPV6([0, 0, 0, 0, 0, 0, 0, 0]))));
}

#[test]
fn ipv6_malformed_is_a_mismatch() {
    assert_eq!(ip("[1]"), None);
    assert_eq!(ip("[]"), None);
    assert_eq!(ip("[::1"), None);
    assert_eq!(ip("[::12345]"), None);
    assert_eq!(ip("[::g]"), None);
    assert_eq!(ip("::1"), None);
}

#[test]
fn ipv6_upper_case_digits_are_not_read() {
    assert_eq!(ip("[::A]"), None);
    assert_eq!(ip("[::a]"), Some(("", Host::IPV6([0, 0, 0, 0, 0, 0, 0, 10]))));
}

#[test]
fn port_above_65535_is_a_mismatch() {
    assert_eq!(port(":65535"), Some(("", 65535)));
    assert_eq!(port(":65536"), None);
    assert_eq!(port(":69420"), None);
    assert_eq!(port(":99999999999999999999999"), None);
    assert_eq!(port(":00000000000000000000080"), Some(("", 80)));
    assert_eq!(port(":"), None);
    assert_eq!(port(":x"), None);
    assert_eq!(port("80"), None);
}

#[test]
fn path_and_query_stop_at_their_delimiters() {
    assert_eq!(path("?x"), None);
    assert_eq!(path("#x"), None);
    assert_eq!(path(" x"), None);
    assert_eq!(path(""), None);
    assert_eq!(path("a b"), Some((" b", "a".to_string())));
    assert_eq!(query("?"), None);
    assert_eq!(query("?#"), None);
    assert_eq!(query("x=1"), None);
    assert_eq!(query("?a?b c"), Some((" c", "a?b".to_string())));
}

#[test]
fn uri_with_every_field() {
    assert_eq!(
        uri("https://sub.example.org:8080/a/b?x=1&y=2#frag"),
        Some((
            "#frag",
            URI {
                scheme: Scheme::HTTPS,
                host: Host::HOST("sub.example.org".to_string()),
                port: Some(8080),
                path: Some("/a/b".to_string()),
                query: Some("x=1&y=2".to_string()),
            }
        ))
    );
}

#[test]
fn uri_with_scheme_and_host_only() {
    assert_eq!(
        uri("http://localhost"),
        Some((
            "",
            URI {
                scheme: Scheme::HTTP,
                host: Host::HOST("localhost".to_string()),
                port: None,
                path: None,
                query: None,
            }
        ))
    );
    assert_eq!(uri("http://"), None);
    assert_eq!(uri("http:// x"), None);
}

#[test]
fn uri_port_that_does_not_fit_is_read_as_path() {
    assert_eq!(
        uri("http://example.org:69420/x"),
        Some((
            "",
            URI {
                scheme: Scheme::HTTP,
                host: Host::HOST("example.org".to_string()),
                port: None,
                path: Some(":69420/x".to_string()),
                query: None,
            }
        ))
    );
}

#[test]
fn uri_query_without_path() {
    assert_eq!(
        uri("http://[::1]?q=1 rest"),
        Some((
            " rest",
            URI {
                scheme: Scheme::HTTP,
                host: Host::IPV6([0, 0, 0, 0, 0, 0, 0, 1]),
                port: None,
                path: None,
                query: Some("q=1".to_string()),
            }
        ))
    );
}

#[test]
fn positions_count_characters_not_bytes() {
    assert_eq!(path("/é ü"), Some((" ü", "/é".to_string())));
    assert_eq!(host("exämple.org"), Some(("ämple.org", Host::HOST("ex".to_string()))));
}

#[test]
fn ipv6_address_is_filled_from_its_last_place() {
    assert_eq!(ipv6_from_groups(&vec![1]), Some([0, 0, 0, 0, 0, 0, 0, 1]));
    assert_eq!(ipv6_from_groups(&vec![0, 0, 1]), Some([0, 0, 0, 0, 0, 0, 0, 1]));
    assert_eq!(
        ipv6_from_groups(&vec![0x2a01, 0x5cc0, 0x1, 0x2, 0x0, 0x4]),
        Some([0, 0, 0x2a01, 0x5cc0, 0x1, 0x2, 0x0, 0x4])
    );
    assert_eq!(
        ipv6_from_groups(&vec![1, 2, 3, 4, 5, 6, 7, 8]),
        Some([1, 2, 3, 4, 5, 6, 7, 8])
    );
    assert_eq!(ipv6_from_groups(&vec![]), Some([0, 0, 0, 0, 0, 0, 0, 0]));
    assert_eq!(ipv6_from_groups(&vec![1, 2, 3, 4, 5, 6, 7, 8, 9]), None);
}
