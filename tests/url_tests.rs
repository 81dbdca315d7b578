use url::{
    parse_form_urlencoded, percent_decode, serialize_form_urlencoded, utf8_percent_encode,
    EncodeSet, Host, IPv6Address, ParseError, SchemeData, SchemeRelativeURL, UserInfo, URL,
};

fn addr(s: &str) -> IPv6Address {
    IPv6Address::parse(s).expect("valid address")
}

fn pairs(v: &[(&str, &str)]) -> Vec<(String, String)> {
    v.iter().map(|(a, b)| (a.to_string(), b.to_string())).collect()
}

fn encoded(s: &str, set: EncodeSet) -> String {
    let mut out = String::new();
    utf8_percent_encode(s, set, &mut out);
    out
}

#[test]
fn ipv6_compression_canonical_forms() {
    assert_eq!(addr("::").serialize(), "::");
    assert_eq!(addr("::1").serialize(), "::1");
    assert_eq!(addr("2001:db8::1").serialize(), "2001:db8::1");
    assert_eq!(addr("::").pieces, [0; 8]);
    assert_eq!(addr("::1").pieces, [0, 0, 0, 0, 0, 0, 0, 1]);
    assert_eq!(addr("2001:db8::1").pieces, [0x2001, 0xdb8, 0, 0, 0, 0, 0, 1]);
}

#[test]
fn ipv6_embedded_ipv4() {
    assert_eq!(addr("::ffff:192.0.2.1").pieces, [0, 0, 0, 0, 0, 0xffff, 0xc000, 0x0201]);
    assert_eq!(addr("1:2:3:4:5:6:1.2.3.4").pieces, [1, 2, 3, 4, 5, 6, 0x0102, 0x0304]);
    assert!(IPv6Address::parse("::1.2.3.256").is_none());
    assert!(IPv6Address::parse("::1.2.3").is_none());
    assert!(IPv6Address::parse("::1.2.3.4x").is_none());
    assert!(IPv6Address::parse("::1..3.4").is_none());
    assert!(IPv6Address::parse("1:2:3:4:5:6:7:1.2.3.4").is_none());
}

#[test]
fn ipv6_full_and_shifted() {
    assert_eq!(addr("1:2:3:4:5:6:7:8").pieces, [1, 2, 3, 4, 5, 6, 7, 8]);
    assert_eq!(addr("1:2:3:4:5:6::8").pieces, [1, 2, 3, 4, 5, 6, 0, 8]);
    assert_eq!(addr("1::").pieces, [1, 0, 0, 0, 0, 0, 0, 0]);
    assert_eq!(addr("a:B:cDeF::1:2").pieces, [0xa, 0xb, 0xcdef, 0, 0, 0, 1, 2]);
}

#[test]
fn ipv6_rejects_malformed() {
    for s in [
        "", ":", ":1", "1:", "1:2:3:4:5:6:7", "1:2:3:4:5:6:7:8:9", "::1::", "1::2::3", "12345::",
        "::g", "1:2:3:4:5:6:7::8",
    ] {
        assert!(IPv6Address::parse(s).is_none(), "{}", s);
    }
}

#[test]
fn ipv6_serialize_picks_leftmost_longest_run() {
    let a = IPv6Address { pieces: [1, 0, 0, 2, 0, 0, 3, 4] };
    assert_eq!(a.serialize(), "1::2:0:0:3:4");
    let b = IPv6Address { pieces: [1, 0, 2, 0, 0, 0, 3, 4] };
    assert_eq!(b.serialize(), "1:0:2::3:4");
    let c = IPv6Address { pieces: [0xffff, 0xabc, 0x10, 1, 2, 3, 4, 5] };
    assert_eq!(c.serialize(), "ffff:abc:10:1:2:3:4:5");
    let d = IPv6Address { pieces: [1, 2, 3, 4, 5, 6, 7, 0] };
    assert_eq!(d.serialize(), "1:2:3:4:5:6:7::");
}

#[test]
fn ipv6_round_trip_examples() {
    for p in [
        [0u16; 8],
        [1, 2, 3, 4, 5, 6, 0, 8],
        [1, 0, 0, 2, 0, 0, 0, 3],
        [0, 0, 0, 0, 0, 0xffff, 0xc000, 0x0201],
        [0xffff; 8],
        [0, 1, 0, 1, 0, 1, 0, 1],
    ] {
        let a = IPv6Address { pieces: p };
        assert_eq!(IPv6Address::parse(&a.serialize()), Some(a));
    }
}

#[test]
fn host_rejects_malformed_ipv6() {
    assert_eq!(Host::parse("[::1"), Err(ParseError::InvalidIPv6Address));
    assert_eq!(Host::parse("[::g]"), Err(ParseError::InvalidIPv6Address));
    assert_eq!(Host::parse("["), Err(ParseError::InvalidIPv6Address));
    assert_eq!(Host::parse("[]"), Err(ParseError::InvalidIPv6Address));
}

#[test]
fn host_parses_ipv6() {
    let h = Host::parse("[2001:DB8::1]").unwrap();
    assert_eq!(h, Host::IPv6(IPv6Address { pieces: [0x2001, 0xdb8, 0, 0, 0, 0, 0, 1] }));
    assert_eq!(h.serialize(), "[2001:db8::1]");
}

#[test]
fn host_empty() {
    assert_eq!(Host::parse(""), Err(ParseError::EmptyHost));
}

#[test]
fn host_domain_keeps_case() {
    let h = Host::parse("EXAMPLE.com").unwrap();
    assert_eq!(h, Host::Domain(vec!["EXAMPLE".to_string(), "com".to_string()]));
    assert_eq!(h.serialize(), "EXAMPLE.com");
}

#[test]
fn host_domain_dots_and_escapes() {
    let h = Host::parse("a\u{3002}b\u{FF0E}c\u{FF61}d").unwrap();
    let labels: Vec<String> = ["a", "b", "c", "d"].iter().map(|s| s.to_string()).collect();
    assert_eq!(h, Host::Domain(labels));
    let h = Host::parse("ex%41mple.org").unwrap();
    assert_eq!(h.serialize(), "exAmple.org");
    let h = Host::parse("a%2eb").unwrap();
    assert_eq!(h, Host::Domain(vec!["a".to_string(), "b".to_string()]));
}

#[test]
fn host_rejects_non_ascii() {
    assert_eq!(Host::parse("caf\u{e9}.com"), Err(ParseError::UnsupportedIDNA));
    assert_eq!(Host::parse("caf%C3%A9.com"), Err(ParseError::UnsupportedIDNA));
    assert_eq!(Host::parse("bad%FF"), Err(ParseError::UnsupportedIDNA));
}

#[test]
fn encode_sets_nest() {
    let s = "a b\"#<>?`@/\\:z\u{1}\u{e9}";
    assert_eq!(encoded(s, EncodeSet::SimpleEncodeSet), "a b\"#<>?`@/\\:z%01%C3%A9");
    assert_eq!(encoded(s, EncodeSet::DefaultEncodeSet), "a%20b%22%23%3C%3E%3F%60@/\\:z%01%C3%A9");
    assert_eq!(
        encoded(s, EncodeSet::UserInfoEncodeSet),
        "a%20b%22%23%3C%3E%3F%60%40/\\:z%01%C3%A9"
    );
    assert_eq!(
        encoded(s, EncodeSet::PasswordEncodeSet),
        "a%20b%22%23%3C%3E%3F%60%40%2F%5C:z%01%C3%A9"
    );
    assert_eq!(
        encoded(s, EncodeSet::UsernameEncodeSet),
        "a%20b%22%23%3C%3E%3F%60%40%2F%5C%3Az%01%C3%A9"
    );
}

#[test]
fn safe_bytes_survive_encode_and_decode() {
    let safe = "ABCXYZabcxyz0189*-._";
    for set in [
        EncodeSet::SimpleEncodeSet,
        EncodeSet::DefaultEncodeSet,
        EncodeSet::UserInfoEncodeSet,
        EncodeSet::PasswordEncodeSet,
        EncodeSet::UsernameEncodeSet,
    ] {
        let e = encoded(safe, set);
        assert_eq!(e, safe);
        assert_eq!(percent_decode(e.as_bytes()), safe.as_bytes().to_vec());
    }
}

#[test]
fn percent_decode_is_liberal() {
    assert_eq!(percent_decode(b"%41%zz%4"), b"A%zz%4".to_vec());
    assert_eq!(percent_decode(b"%e9%C3%a9"), vec![0xe9, 0xc3, 0xa9]);
    assert_eq!(percent_decode(b"%"), b"%".to_vec());
    assert_eq!(percent_decode(b"%%41"), b"%A".to_vec());
}

#[test]
fn form_codec_round_trip() {
    let p = pairs(&[("a", "1"), ("b", "2 c")]);
    let s = serialize_form_urlencoded(p.clone(), None);
    assert_eq!(s, "a=1&b=2+c");
    assert_eq!(parse_form_urlencoded(&s, None, false, false), p);
}

#[test]
fn form_isindex_only_first_segment() {
    assert_eq!(parse_form_urlencoded("value", None, false, true), pairs(&[("", "value")]));
    assert_eq!(
        parse_form_urlencoded("a&value", None, false, true),
        pairs(&[("", "a"), ("value", "")])
    );
    assert_eq!(parse_form_urlencoded("&value", None, false, true), pairs(&[("value", "")]));
}

#[test]
fn form_parse_segments() {
    assert_eq!(
        parse_form_urlencoded("&&a=b=c&+x+=%41%2B&&", None, false, false),
        pairs(&[("a", "b=c"), (" x ", "A+")])
    );
    assert_eq!(parse_form_urlencoded("", None, false, false), pairs(&[]));
    assert_eq!(parse_form_urlencoded("%FF=1", None, false, false), pairs(&[("\u{FFFD}", "1")]));
}

#[test]
fn form_charset_applies_to_every_pair() {
    assert_eq!(
        parse_form_urlencoded("a=%E9&_charset_=windows-1252", None, true, false),
        pairs(&[("a", "\u{e9}"), ("_charset_", "windows-1252")])
    );
    assert_eq!(
        parse_form_urlencoded("a=%E9&_charset_=windows-1252", None, false, false),
        pairs(&[("a", "\u{FFFD}"), ("_charset_", "windows-1252")])
    );
    assert_eq!(
        parse_form_urlencoded("a=%E9&_charset_=no-such-label", None, true, false),
        pairs(&[("a", "\u{FFFD}"), ("_charset_", "no-such-label")])
    );
    assert_eq!(
        parse_form_urlencoded("a=%E9", Some("latin1"), false, false),
        pairs(&[("a", "\u{e9}")])
    );
}

#[test]
fn form_serialize_escapes() {
    assert_eq!(
        serialize_form_urlencoded(pairs(&[("a b", "x&y=z/\u{e9}*-._~")]), None),
        "a+b=x%26y%3Dz%2F%C3%A9*-._%7E"
    );
    assert_eq!(serialize_form_urlencoded(pairs(&[]), None), "");
    assert_eq!(serialize_form_urlencoded(pairs(&[("", "")]), None), "=");
    assert_eq!(
        serialize_form_urlencoded(pairs(&[("a", "\u{e9}")]), Some("windows-1252")),
        "a=%E9"
    );
    assert_eq!(
        serialize_form_urlencoded(pairs(&[("a", "\u{3042}")]), Some("windows-1252")),
        "a=%26%2312354%3B"
    );
}

fn http_url(userinfo: Option<UserInfo>, port: &str, path: &[&str]) -> URL {
    URL {
        scheme: "http".to_string(),
        scheme_data: SchemeData::RelativeSchemeData(SchemeRelativeURL {
            userinfo,
            host: Host::Domain(vec!["example".to_string(), "com".to_string()]),
            port: port.to_string(),
            path: path.iter().map(|s| s.to_string()).collect(),
        }),
        query: Some("q=1".to_string()),
        fragment: None,
    }
}

#[test]
fn url_serialization_shape() {
    let u = http_url(None, "", &["a", "b"]);
    assert_eq!(u.serialize(), "http://example.com/a/b?q=1");
    assert_eq!(u.serialize_no_fragment(), "http://example.com/a/b?q=1");
}

#[test]
fn url_serialization_parts() {
    let mut u = http_url(
        Some(UserInfo { username: "me".to_string(), password: Some("pw".to_string()) }),
        "8080",
        &[],
    );
    u.fragment = Some("top".to_string());
    assert_eq!(u.serialize(), "http://me:pw@example.com:8080/?q=1#top");
    assert_eq!(u.serialize_no_fragment(), "http://me:pw@example.com:8080/?q=1");
    let u = http_url(Some(UserInfo { username: String::new(), password: None }), "", &[""]);
    assert_eq!(u.serialize(), "http://example.com/?q=1");
    let u = http_url(Some(UserInfo { username: String::new(), password: Some(String::new()) }), "", &[]);
    assert_eq!(u.serialize(), "http://:@example.com/?q=1");
    let m = URL {
        scheme: "mailto".to_string(),
        scheme_data: SchemeData::OtherSchemeData("a@b.c".to_string()),
        query: None,
        fragment: Some("x".to_string()),
    };
    assert_eq!(m.serialize(), "mailto:a@b.c#x");
    assert_eq!(m.serialize_no_fragment(), "mailto:a@b.c");
}
