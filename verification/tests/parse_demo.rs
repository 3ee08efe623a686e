use text_parts::part_at;
use text_parts::rust_parse_demo;
use text_parts::types::{Host, Mention, Scheme, TextParts, URI};

fn other(text: &str) -> TextParts {
    TextParts::Other(text.to_string())
}

fn plain_uri(scheme: Scheme, host: &str) -> TextParts {
    TextParts::URI(URI {
        scheme,
        host: Host::HOST(host.to_string()),
        port: None,
        path: None,
        query: None,
    })
}

#[test]
fn empty_text_has_no_parts() {
    assert_eq!(rust_parse_demo(""), Vec::<TextParts>::new());
}

#[test]
fn plain_text_is_one_part_per_character() {
    assert_eq!(rust_parse_demo("hi!"), vec![other("h"), other("i"), other("!")]);
    let parts = rust_parse_demo("héllo wörld ✓");
    assert_eq!(parts.len(), "héllo wörld ✓".chars().count());
    assert_eq!(parts[1], other("é"));
    assert_eq!(parts[12], other("✓"));
}

#[test]
fn mention_then_uri_without_literals() {
    assert_eq!(
        rust_parse_demo("@[a](1)http://x.com"),
        vec![
            TextParts::Mention(Mention { user_id: 1, name: "a".to_string() }),
            plain_uri(Scheme::HTTP, "x.com"),
        ]
    );
}

#[test]
fn scheme_case_does_not_matter_and_host_case_is_kept() {
    assert_eq!(rust_parse_demo("HTTP://EXAMPLE.com"), vec![plain_uri(Scheme::HTTP, "EXAMPLE.com")]);
    assert_eq!(
        rust_parse_demo("hTtPs://EXAMPLE.com"),
        vec![plain_uri(Scheme::HTTPS, "EXAMPLE.com")]
    );
}

#[test]
fn ipv4_group_out_of_range_falls_back() {
    let literals: Vec<TextParts> = "999.0.0.1".chars().map(|c| other(&c.to_string())).collect();
    assert_eq!(rust_parse_demo("999.0.0.1"), literals);
    assert_eq!(
        rust_parse_demo("http://999.0.0.1"),
        vec![TextParts::URI(URI {
            scheme: Scheme::HTTP,
            host: Host::HOST("999".to_string()),
            port: None,
            path: Some(".0.0.1".to_string()),
            query: None,
        })]
    );
}

#[test]
fn ipv6_hosts_in_text() {
    assert_eq!(
        rust_parse_demo("http://[::1]"),
        vec![TextParts::URI(URI {
            scheme: Scheme::HTTP,
            host: Host::IPV6([0, 0, 0, 0, 0, 0, 0, 1]),
            port: None,
            path: None,
            query: None,
        })]
    );
    assert_eq!(
        rust_parse_demo("http://[2a01:5cc0:1:2::4]"),
        vec![TextParts::URI(URI {
            scheme: Scheme::HTTP,
            host: Host::IPV6([0, 0, 0x2a01, 0x5cc0, 0x1, 0x2, 0x0, 0x4]),
            port: None,
            path: None,
            query: None,
        })]
    );
}

#[test]
fn ipv6_with_too_many_groups_falls_back() {
    let parts = rust_parse_demo("http://[1:2:3:4:5:6:7:8:9]");
    assert_eq!(parts.len(), "http://[1:2:3:4:5:6:7:8:9]".len());
    assert_eq!(parts[0], other("h"));
    assert_eq!(parts[7], other("["));
}

#[test]
fn mention_id_overflow_gives_the_at_sign_back() {
    let parts = rust_parse_demo("@[a](4294967296)");
    assert_eq!(parts.len(), 16);
    assert_eq!(parts[0], other("@"));
    assert_eq!(parts[1], other("["));
    assert_eq!(parts[15], other(")"));
    assert_eq!(
        rust_parse_demo("@[a](4294967295)"),
        vec![TextParts::Mention(Mention { user_id: 4294967295, name: "a".to_string() })]
    );
}

#[test]
fn tokens_between_literals() {
    assert_eq!(
        rust_parse_demo("a @[b c](2) d"),
        vec![
            other("a"),
            other(" "),
            TextParts::Mention(Mention { user_id: 2, name: "b c".to_string() }),
            other(" "),
            other("d"),
        ]
    );
    assert_eq!(
        rust_parse_demo("see https://example.org:443/x?y=1 ok"),
        vec![
            other("s"),
            other("e"),
            other("e"),
            other(" "),
            TextParts::URI(URI {
                scheme: Scheme::HTTPS,
                host: Host::HOST("example.org".to_string()),
                port: Some(443),
                path: Some("/x".to_string()),
                query: Some("y=1".to_string()),
            }),
            other(" "),
            other("o"),
            other("k"),
        ]
    );
}

#[test]
fn address_runs_up_to_the_next_delimiter() {
    assert_eq!(
        rust_parse_demo("http://x.com@[a](1)"),
        vec![TextParts::URI(URI {
            scheme: Scheme::HTTP,
            host: Host::HOST("x.com".to_string()),
            port: None,
            path: Some("@[a](1)".to_string()),
            query: None,
        })]
    );
}

#[test]
fn part_at_reads_one_part() {
    let chars: Vec<char> = "x@[n](3)y".chars().collect();
    assert_eq!(part_at(&chars, 0), Some((other("x"), 1)));
    assert_eq!(
        part_at(&chars, 1),
        Some((TextParts::Mention(Mention { user_id: 3, name: "n".to_string() }), 8))
    );
    assert_eq!(part_at(&chars, 8), Some((other("y"), 9)));
    assert_eq!(part_at(&chars, 9), None);
    assert_eq!(part_at(&chars, 100), None);
    assert_eq!(part_at(&[], 0), None);
}

#[test]
fn literal_parts_spell_the_text() {
    let text = "just some words, no tokens @ all";
    let mut spelled = String::new();
    for part in rust_parse_demo(text) {
        match part {
            TextParts::Other(c) => spelled.push_str(&c),
            _ => panic!("a token in plain text"),
        }
    }
    assert_eq!(spelled, text);
}

#[test]
fn parts_cover_the_text_without_gap_or_overlap() {
    for text in [
        "",
        "plain",
        "a @[b](1) c",
        "see HTTP://[::1]:080/p?q#f, or @[x](99999999999) and http://1.2.3.4",
        "@[@[a](1)](2) http://é.com ✓",
    ] {
        let chars: Vec<char> = text.chars().collect();
        let mut walked = Vec::new();
        let mut covered = String::new();
        let mut pos = 0;
        while let Some((part, end)) = part_at(&chars, pos) {
            assert!(pos < end && end <= chars.len());
            covered.extend(&chars[pos..end]);
            walked.push(part);
            pos = end;
        }
        assert_eq!(pos, chars.len());
        assert_eq!(covered, text);
        assert_eq!(walked, rust_parse_demo(text));
    }
}
