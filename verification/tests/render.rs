use text_parts::format_content_demo;
use text_parts::render::format_content;
use text_parts::rust_parse_demo;
use text_parts::types::{Host, Mention, Scheme, TextParts, URI};

fn uri_of(host: Host) -> URI {
    URI { scheme: Scheme::HTTP, host, port: None, path: None, query: None }
}

#[test]
fn nothing_renders_as_nothing() {
    assert_eq!(format_content(&Vec::new()), "");
    assert_eq!(format_content_demo(""), "");
}

#[test]
fn literals_render_unchanged() {
    assert_eq!(format_content_demo("hello wörld ✓"), "hello wörld ✓");
    assert_eq!(format_content(&vec![TextParts::Other("x".to_string())]), "x");
}

#[test]
fn mention_renders_as_anchor() {
    assert_eq!(format_content_demo("@[bob](42)"), "<a href=\"#ToReplace-id-42\">@bob</a>");
    assert_eq!(
        format_content(&vec![TextParts::Mention(Mention {
            user_id: 4294967295,
            name: "<b>".to_string()
        })]),
        "<a href=\"#ToReplace-id-4294967295\">@<b></a>"
    );
    assert_eq!(format_content_demo("@[](0)"), "<a href=\"#ToReplace-id-0\">@</a>");
}

#[test]
fn uri_renders_every_field() {
    let uri = URI {
        scheme: Scheme::HTTPS,
        host: Host::HOST("Example.org".to_string()),
        port: Some(8080),
        path: Some("/a/b".to_string()),
        query: Some("x=1".to_string()),
    };
    assert_eq!(format_content(&vec![TextParts::URI(uri)]), "https://Example.org:8080/a/b?x=1");
}

#[test]
fn scheme_renders_in_lower_case() {
    assert_eq!(format_content_demo("HTTP://EXAMPLE.com"), "http://EXAMPLE.com");
    assert_eq!(format_content_demo("hTTPs://a.b/C"), "https://a.b/C");
}

#[test]
fn ipv4_renders_as_dotted_decimal() {
    assert_eq!(
        format_content(&vec![TextParts::URI(uri_of(Host::IPV4([127, 0, 0, 1])))]),
        "http://127.0.0.1"
    );
    assert_eq!(
        format_content(&vec![TextParts::URI(uri_of(Host::IPV4([255, 10, 9, 100])))]),
        "http://255.10.9.100"
    );
    assert_eq!(format_content_demo("http://001.02.3.004/x"), "http://1.2.3.4/x");
}

#[test]
fn ipv6_renders_all_groups_in_lower_case_hexadecimal() {
    assert_eq!(
        format_content(&vec![TextParts::URI(uri_of(Host::IPV6([
            0x2a01, 0x5cc0, 0x1, 0x2, 0x0, 0xffff, 0xabc, 0x10
        ])))]),
        "http://[2a01:5cc0:1:2:0:ffff:abc:10]"
    );
    assert_eq!(format_content_demo("http://[::1]"), "http://[0:0:0:0:0:0:0:1]");
    assert_eq!(
        format_content_demo("http://[2a01:5cc0:1:2::4]:8080"),
        "http://[0:0:2a01:5cc0:1:2:0:4]:8080"
    );
}

#[test]
fn port_renders_without_leading_zeros() {
    assert_eq!(format_content_demo("http://x.com:0080/"), "http://x.com:80/");
    assert_eq!(format_content_demo("http://x.com:0"), "http://x.com:0");
    assert_eq!(format_content_demo("http://x.com:65535"), "http://x.com:65535");
}

#[test]
fn query_renders_with_its_question_mark() {
    assert_eq!(format_content_demo("http://x.com?a=b"), "http://x.com?a=b");
    assert_eq!(format_content_demo("http://x.com/p?a=b#f"), "http://x.com/p?a=b#f");
}

#[test]
fn mixed_text_renders_part_by_part() {
    assert_eq!(
        format_content_demo("hi @[Al](7), see HTTPS://[::a]:09?q now"),
        "hi <a href=\"#ToReplace-id-7\">@Al</a>, see https://[0:0:0:0:0:0:0:a]:9?q now"
    );
}

#[test]
fn rendering_is_what_parsing_then_formatting_gives() {
    for text in ["", "abc", "@[x](1) http://a.b:1/c?d e", "http://[1:2:3:4:5:6:7:8:9]"] {
        assert_eq!(format_content_demo(text), format_content(&rust_parse_demo(text)));
    }
}

#[test]
fn second_round_of_rendering_changes_nothing() {
    for text in [
        "",
        "plain text",
        "HTTP://EXAMPLE.com/Path?Q=1#f",
        "http://[::1]:0080/x",
        "http://[2a01:5cc0:1:2::4]",
        "see http://010.1.1.1 and HTTPS://localhost:08",
        "x @ y [a](1) http:/x",
    ] {
        let once = format_content_demo(text);
        let twice = format_content_demo(&once);
        assert_eq!(twice, once);
    }
}

#[test]
fn canonical_text_renders_as_itself() {
    for text in [
        "http://example.org/a?b=c",
        "go to https://[0:0:0:0:0:0:0:1]:80/ now",
        "http://127.0.0.1:8080",
    ] {
        assert_eq!(format_content_demo(text), text);
    }
}
