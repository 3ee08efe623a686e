use text_parts::format_content_demo;
use text_parts::part_at;
use text_parts::render::format_content;
use text_parts::rust_parse_demo;
use text_parts::types::{Host, TextParts};

/// Whether every part of the text is stable: an IPv4 host cannot take a
/// digit from the path behind it, the name of a mention holds neither `:`
/// nor `[`, and a single `@` is not followed by `[`.
fn is_stable(text: &str) -> bool {
    let chars: Vec<char> = text.chars().collect();
    let mut pos = 0;
    while pos < chars.len() {
        let (part, end) = part_at(&chars, pos).unwrap();
        let stable = match &part {
            TextParts::URI(uri) => match &uri.host {
                Host::IPV4(groups) => {
                    groups[3] >= 100
                        || uri.port.is_some()
                        || match &uri.path {
                            None => true,
                            Some(path) => !path.chars().next().unwrap().is_ascii_digit(),
                        }
                }
                _ => true,
            },
            TextParts::Mention(mention) => {
                !mention.name.contains(':') && !mention.name.contains('[')
            }
            TextParts::Other(_) => {
                !(chars[pos] == '@' && pos + 1 < chars.len() && chars[pos + 1] == '[')
            }
        };
        if !stable {
            return false;
        }
        pos = end;
    }
    true
}

fn has_mention(parts: &[TextParts]) -> bool {
    parts.iter().any(|part| matches!(part, TextParts::Mention(_)))
}

fn has_address(parts: &[TextParts]) -> bool {
    parts.iter().any(|part| matches!(part, TextParts::URI(_)))
}

struct Dice(u64);

impl Dice {
    fn roll(&mut self, sides: usize) -> usize {
        self.0 = self.0.wrapping_mul(6364136223846793005).wrapping_add(1442695040888963407);
        ((self.0 >> 33) as usize) % sides
    }
}

const FRAGMENTS: [&str; 48] = [
    "http://", "HTTPS://", "hTTp://", "https://", "x.com", "sub.Example.org", "localhost",
    "[::1]", "[2a01:5cc0:1:2::4]", "[1:2:3:4:5:6:7:8]", "[1:2:3:4:5:6:7:8:9]", "1.2.3.4",
    "010.0.0.1", "1.2.3.255", "1.2.3.0", "999.0.0.1", ":80", ":0080", ":65536", ":", "/p", "/",
    "?q=1", "?", "#", " ", "@", "[", "]", "(", ")", "12", "0", "5", "a", "h", "H", ".", "-", "é",
    "@[bob](42)", "@[", "](1)", "@[ht", "tp", "@[John Smith](007)", "<", "t",
];

fn some_text(dice: &mut Dice) -> String {
    let mut text = String::new();
    for _ in 0..dice.roll(7) {
        text.push_str(FRAGMENTS[dice.roll(FRAGMENTS.len())]);
    }
    text
}

#[test]
fn second_round_changes_nothing_for_stable_text() {
    let mut dice = Dice(7);
    let mut checked = 0;
    let mut with_address = 0;
    let mut with_mention = 0;
    for _ in 0..60000 {
        let text = some_text(&mut dice);
        if !is_stable(&text) {
            continue;
        }
        let parts = rust_parse_demo(&text);
        let once = format_content(&parts);
        assert_eq!(format_content_demo(&once), once, "text: {:?}", text);
        checked += 1;
        if has_address(&parts) {
            with_address += 1;
        }
        if has_mention(&parts) {
            with_mention += 1;
        }
    }
    assert!(checked > 20000);
    assert!(with_address > 1000);
    assert!(with_mention > 300);
}

#[test]
fn rendering_keeps_the_parts_of_stable_text_without_mentions() {
    let mut dice = Dice(13);
    let mut checked = 0;
    for _ in 0..60000 {
        let text = some_text(&mut dice);
        let parts = rust_parse_demo(&text);
        if !is_stable(&text) || has_mention(&parts) {
            continue;
        }
        assert_eq!(rust_parse_demo(&format_content(&parts)), parts, "text: {:?}", text);
        if has_address(&parts) {
            checked += 1;
        }
    }
    assert!(checked > 1000);
}

#[test]
fn parts_are_counted_by_characters() {
    let mut dice = Dice(11);
    for _ in 0..20000 {
        let text = some_text(&mut dice);
        let parts = rust_parse_demo(&text);
        assert!(parts.len() <= text.chars().count());
        assert_eq!(parts.is_empty(), text.is_empty());
        if !has_address(&parts) && !has_mention(&parts) {
            assert_eq!(parts.len(), text.chars().count());
            assert_eq!(format_content(&parts), text);
        }
    }
}

#[test]
fn second_round_can_differ_for_an_undelimited_ipv4_host() {
    assert!(!is_stable("http://1.2.3.0005"));
    let once = format_content_demo("http://1.2.3.0005");
    assert_eq!(once, "http://1.2.3.05");
    assert_eq!(format_content_demo(&once), "http://1.2.3.5");
}

#[test]
fn second_round_can_differ_for_a_mention() {
    assert!(!is_stable("@[@[a](1)](2)"));
    let once = format_content_demo("@[@[a](1)](2)");
    assert_eq!(once, "<a href=\"#ToReplace-id-1\">@@[a</a>](2)");
    assert_eq!(
        format_content_demo(&once),
        "<a href=\"#ToReplace-id-1\">@<a href=\"#ToReplace-id-2\">@a</a></a>"
    );
    assert!(!is_stable("@[HTTP://x.com](1)"));
    let once = format_content_demo("@[HTTP://x.com](1)");
    assert_eq!(once, "<a href=\"#ToReplace-id-1\">@HTTP://x.com</a>");
    assert_eq!(format_content_demo(&once), "<a href=\"#ToReplace-id-1\">@http://x.com</a>");
}

#[test]
fn second_round_keeps_a_plain_mention() {
    assert!(is_stable("hi @[bob](42)!"));
    let once = format_content_demo("hi @[bob](42)!");
    assert_eq!(once, "hi <a href=\"#ToReplace-id-42\">@bob</a>!");
    assert_eq!(format_content_demo(&once), once);
}
