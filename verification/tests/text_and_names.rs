use domain_stats::order::{compare_text, TextOrder};
use domain_stats::samples::{
    client_traffic_column, normalize_stats_resource, parse_v2ray_stat_name, traffic_samples_from_deltas,
    TrafficSample,
};
use domain_stats::text::{
    is_whitespace, parse_u64, split_text, text_chars, text_lines, text_words, trim_text,
};

fn chars(s: &str) -> Vec<char> {
    s.chars().collect()
}

fn texts(parts: Vec<Vec<char>>) -> Vec<String> {
    parts.into_iter().map(|p| p.into_iter().collect()).collect()
}

#[test]
fn whitespace_matches_std_for_every_char() {
    for u in 0..=0x10ffffu32 {
        if let Some(c) = char::from_u32(u) {
            assert_eq!(is_whitespace(c), c.is_whitespace(), "U+{u:04X}");
        }
    }
}

#[test]
fn trim_matches_std() {
    for s in ["", "  ", " a ", "\t\nab c\u{3000}", "x", "\u{85}y\u{a0}", " é "] {
        assert_eq!(trim_text(s), s.trim());
    }
}

#[test]
fn split_matches_std() {
    for (s, sep) in [("a>>>b>>>c", ">>>"), ("a>>>>b", ">>>"), (">>>", ">>>"), ("", ","), ("a,,b,", ",")] {
        let expected: Vec<String> = s.split(sep).map(|p| p.to_string()).collect();
        assert_eq!(texts(split_text(&chars(s), &chars(sep))), expected);
    }
}

#[test]
fn lines_and_words_match_std() {
    for s in ["", "a", "a\n", "a\r\nb", "a\n\nb\r", "\n", "x\r\n\r\n", " one  two\tthree \n four"] {
        let expected: Vec<String> = s.lines().map(|l| l.to_string()).collect();
        assert_eq!(texts(text_lines(&chars(s))), expected);
        let expected: Vec<String> = s.split_whitespace().map(|w| w.to_string()).collect();
        assert_eq!(texts(text_words(&chars(s))), expected);
    }
}

#[test]
fn parse_u64_matches_std() {
    for s in [
        "", "0", "42", "+7", "+", "-1", "00012", "18446744073709551615", "18446744073709551616",
        "12a", " 1", "٣", "+-1", "99999999999999999999999",
    ] {
        assert_eq!(parse_u64(&chars(s)), s.parse::<u64>().ok(), "{s:?}");
    }
}

#[test]
fn text_chars_and_order() {
    assert_eq!(text_chars("aé"), vec!['a', 'é']);
    assert_eq!(compare_text("a", "b"), TextOrder::Less);
    assert_eq!(compare_text("ab", "a"), TextOrder::Greater);
    assert_eq!(compare_text("é", "z"), TextOrder::Greater);
    assert_eq!(compare_text("same", "same"), TextOrder::Equal);
}

#[test]
fn resource_kinds() {
    for (name, kind) in [
        ("inbound", Some("inbound")),
        ("inbounds", Some("inbound")),
        ("outbound", Some("outbound")),
        ("outbounds", Some("outbound")),
        ("user", Some("user")),
        ("users", Some("user")),
        ("client", Some("user")),
        ("clients", Some("user")),
        ("User", None),
        ("", None),
    ] {
        assert_eq!(normalize_stats_resource(name), kind);
    }
}

fn sample(resource: &str, tag: &str, direction: bool, traffic: i64) -> TrafficSample {
    TrafficSample { resource: resource.to_string(), tag: tag.to_string(), direction, traffic }
}

#[test]
fn stat_names() {
    assert_eq!(
        parse_v2ray_stat_name("user>>>alice>>>traffic>>>uplink", 5),
        Some(sample("user", "alice", true, 5))
    );
    assert_eq!(
        parse_v2ray_stat_name("inbounds>>> vless-in >>>traffic>>>downlink", 7),
        Some(sample("inbound", "vless-in", false, 7))
    );
    assert_eq!(
        parse_v2ray_stat_name("clients>>>bob>>>traffic>>>uplink", u64::MAX),
        Some(sample("user", "bob", true, i64::MAX))
    );
    assert_eq!(parse_v2ray_stat_name("user>>>alice>>>traffic>>>sideways", 5), None);
    assert_eq!(parse_v2ray_stat_name("user>>>alice>>>traffic>>>uplink>>>x", 5), None);
    assert_eq!(parse_v2ray_stat_name("user>>>  >>>traffic>>>uplink", 5), None);
    assert_eq!(parse_v2ray_stat_name("user>>>alice>>>bytes>>>uplink", 5), None);
    assert_eq!(parse_v2ray_stat_name("device>>>alice>>>traffic>>>uplink", 5), None);
    assert_eq!(parse_v2ray_stat_name("user>>>alice>>>traffic", 5), None);
}

#[test]
fn samples_from_deltas_skip_zero_and_unknown() {
    let deltas = vec![
        ("user>>>alice>>>traffic>>>uplink".to_string(), 0),
        ("user>>>alice>>>traffic>>>downlink".to_string(), 9),
        ("bogus".to_string(), 4),
        ("outbound>>>direct>>>traffic>>>uplink".to_string(), 3),
    ];
    assert_eq!(
        traffic_samples_from_deltas(&deltas),
        vec![sample("user", "alice", false, 9), sample("outbound", "direct", true, 3)]
    );
}

#[test]
fn client_columns() {
    assert_eq!(client_traffic_column(&sample("user", "a", true, 1), true), Some("up"));
    assert_eq!(client_traffic_column(&sample("user", "a", false, 1), true), Some("down"));
    assert_eq!(client_traffic_column(&sample("user", "a", true, 1), false), None);
    assert_eq!(client_traffic_column(&sample("inbound", "a", true, 1), true), None);
}
