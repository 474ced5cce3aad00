use mc_router::config::{
    build_routes, fallback_key, listen_port, load_config, parse_target, ConfigError, Route,
    RouteMap,
};
use mc_router::text::{contains, cut_before, find_last, parse_port, utf8_text};

fn target(text: &str) -> (String, u16) {
    let route = parse_target(text);
    (route.host, route.port)
}

#[test]
fn documented_configuration() {
    let routes = load_config(
        r#"{
  "server1.jonhosting.com": "jonhosting.com:25650",
  "server2.jonhosting.com": "jonhosting.com:25630",
  "server3.jonhosting.com": "randomserver.aternos.me:25565"
}"#,
    )
    .unwrap();
    assert_eq!(routes.len(), 3);
    let route = routes.get("server2.jonhosting.com").unwrap();
    assert_eq!((route.host.as_str(), route.port), ("jonhosting.com", 25630));
    let route = routes.get("server3.jonhosting.com").unwrap();
    assert_eq!((route.host.as_str(), route.port), ("randomserver.aternos.me", 25565));
    assert!(routes.get("server4.jonhosting.com").is_none());
}

#[test]
fn keys_are_put_in_lower_case() {
    let routes = load_config(r#"{"Play.EXAMPLE.com": "Backend", "Ä": "b:1"}"#).unwrap();
    assert_eq!(routes.get("play.example.com").unwrap().host, "Backend");
    assert!(routes.get("Play.EXAMPLE.com").is_none());
    assert_eq!(routes.get("ä").unwrap().port, 1);
}

#[test]
fn bracketed_address_without_port() {
    let routes = load_config(r#"{"a": "[::1]"}"#).unwrap();
    assert_eq!(routes.len(), 1);
    let route = routes.get("a").unwrap();
    assert_eq!((route.host.as_str(), route.port), ("[::1]", 25565));
}

#[test]
fn key_case_does_not_matter() {
    let one = load_config(r#"{"Straße.Example": "a:1", "ΟΔΟΣ.x": "b:2"}"#).unwrap();
    let two = load_config(r#"{"ΟΔΟΣ.X": "b:2", "sTRAßE.eXAMPLE": "a:1"}"#).unwrap();
    assert_eq!((one.len(), two.len()), (2, 2));
    for name in ["straße.example", "ΟΔΟΣ.x".to_lowercase().as_str()] {
        let (a, b) = (one.get(name).unwrap(), two.get(name).unwrap());
        assert_eq!((&a.host, a.port), (&b.host, b.port));
    }
}

#[test]
fn lower_case_does_not_depend_on_ascii_case() {
    for text in ["ΑΣ", "ΑΣA", "ΑΣa", "AΣ", "aΣ", "AΣB", "aΣB", "AΣ.B", "Aİ", "ÄBC", "K", "Σ"] {
        let pairs = vec![(text.to_string(), "a".to_string())];
        let lowered = vec![(text.to_ascii_lowercase(), "a".to_string())];
        assert!(build_routes(&pairs).get(&text.to_lowercase()).is_some());
        assert!(build_routes(&lowered).get(&text.to_lowercase()).is_some());
    }
}

#[test]
fn keys_that_share_a_form_share_a_route() {
    let routes = load_config(r#"{"Host": "a:1", "HOST": "b:2"}"#).unwrap();
    assert_eq!(routes.len(), 1);
    let three = load_config(r#"{"Host": "a:1", "HOST": "b:2", "x": "c", "y": "d"}"#).unwrap();
    assert_eq!(three.len(), 3);
    let route = routes.get("host").unwrap();
    assert!(route.port == 1 && route.host == "a" || route.port == 2 && route.host == "b");
}

#[test]
fn repeated_key_counts_once() {
    let routes = load_config(r#"{"host": "a:1", "host": "b:2"}"#).unwrap();
    assert_eq!(routes.len(), 1);
    assert_eq!(routes.get("host").unwrap().host, "b");
}

#[test]
fn empty_configuration() {
    assert_eq!(load_config(" { } ").unwrap().len(), 0);
}

#[test]
fn refused_configurations() {
    for raw in ["", "{", "[]", "null", r#"{"a": 1}"#, r#"{"a": {"b": "c"}}"#, r#"{"a": "b"} x"#] {
        assert!(matches!(load_config(raw), Err(ConfigError::Json(_))));
    }
}

#[test]
fn later_entry_counts() {
    let pairs = vec![
        ("Host".to_string(), "a:1".to_string()),
        ("other".to_string(), "c".to_string()),
        ("hOST".to_string(), "b:2".to_string()),
    ];
    let routes = build_routes(&pairs);
    assert_eq!(routes.len(), 2);
    let route = routes.get("host").unwrap();
    assert_eq!((route.host.as_str(), route.port), ("b", 2));
    assert_eq!(routes.get("other").unwrap().port, 25565);
}

#[test]
fn table_insert_and_get() {
    let mut routes = RouteMap::new();
    assert_eq!(routes.len(), 0);
    routes.insert("a".to_string(), Route { host: "h".to_string(), port: 7 });
    routes.insert("a".to_string(), Route { host: "i".to_string(), port: 8 });
    assert_eq!(routes.len(), 1);
    let route = routes.get("a").unwrap().clone();
    assert_eq!((route.host.as_str(), route.port), ("i", 8));
}

#[test]
fn targets() {
    assert_eq!(target("host:25650"), ("host".to_string(), 25650));
    assert_eq!(target("host"), ("host".to_string(), 25565));
    assert_eq!(target("host:"), ("host".to_string(), 25565));
    assert_eq!(target("host:http"), ("host".to_string(), 25565));
    assert_eq!(target("host:65536"), ("host".to_string(), 25565));
    assert_eq!(target(":80"), ("".to_string(), 80));
    assert_eq!(target(""), ("".to_string(), 25565));
    assert_eq!(target("fe80::1:25570"), ("fe80::1".to_string(), 25570));
    assert_eq!(target("[::1]:25570"), ("[::1]".to_string(), 25570));
    assert_eq!(target("[::1]"), ("[::1]".to_string(), 25565));
    assert_eq!(target("[fe80::1%eth0]"), ("[fe80::1%eth0]".to_string(), 25565));
    assert_eq!(target("[]"), ("[]".to_string(), 25565));
    assert_eq!(target("["), ("[".to_string(), 25565));
    assert_eq!(target("]"), ("]".to_string(), 25565));
    assert_eq!(target("[2001:DB8::10.0.0.1]"), ("[2001:DB8::10.0.0.1]".to_string(), 25565));
    assert_eq!(target("[::]"), ("[::]".to_string(), 25565));
    assert_eq!(target("[foo:80]"), ("[foo".to_string(), 25565));
    assert_eq!(target("[a:80]"), ("[a".to_string(), 25565));
    assert_eq!(target("[::1%a:80]"), ("[::1%a".to_string(), 25565));
    assert_eq!(target("[::1]:x]"), ("[::1]".to_string(), 25565));
    assert_eq!(target("[::1]:"), ("[::1]".to_string(), 25565));
    assert_eq!(target("héß:1"), ("héß".to_string(), 1));
}

#[test]
fn ports_are_read_as_std_reads_them() {
    for text in [
        "", "+", "-", "0", "+0", "-0", "00080", "+25565", "++1", "1+", "65535", "65536", "99999",
        "655350", "4294967296", "18446744073709551616", "000000000000000000000065535", " 1", "1 ",
        "1_0", "0x10", "١", "12a", "a12", "٣3", "9",
    ] {
        assert_eq!(parse_port(text), text.parse::<u16>().ok(), "{text:?}");
    }
    for port in [0u16, 1, 9, 10, 99, 100, 25565, 65535] {
        assert_eq!(parse_port(&port.to_string()), Some(port));
    }
}

#[test]
fn text_is_cut_as_std_cuts_it() {
    for text in ["", ":", "a", "a:b", "a:b:c", ":a", "ä:ö", "äö", "a\0b:c", "日本:語"] {
        assert_eq!(cut_before(text, ':'), text.split(':').next().unwrap());
        assert_eq!(cut_before(text, '\0'), text.split('\0').next().unwrap());
        assert_eq!(
            find_last(text, ':').map(|at| text.chars().take(at).collect::<String>()),
            text.rfind(':').map(|at| text[..at].to_string())
        );
        for part in ["", "a", ":", "b:", "äö", "語", "abc"] {
            assert_eq!(contains(text, part), text.contains(part), "{text:?} {part:?}");
        }
    }
}

#[test]
fn utf8_is_checked() {
    assert_eq!(utf8_text(b"abc"), Some("abc"));
    assert_eq!(utf8_text(&[0xe2, 0x82, 0xac]), Some("€"));
    assert_eq!(utf8_text(&[]), Some(""));
    assert_eq!(utf8_text(&[0xe2, 0x82]), None);
    assert_eq!(utf8_text(&[0xc0, 0x80]), None);
    assert_eq!(utf8_text(&[0xed, 0xa0, 0x80]), None);
}

#[test]
fn listen_port_setting() {
    assert_eq!(listen_port(None), 25565);
    assert_eq!(listen_port(Some("8080")), 8080);
    assert_eq!(listen_port(Some("many")), 25565);
    assert_eq!(listen_port(Some("70000")), 25565);
}

#[test]
fn fallback_key_setting() {
    assert_eq!(fallback_key(None), None);
    assert_eq!(fallback_key(Some(String::new())), None);
    assert_eq!(
        fallback_key(Some("jonhosting.com".to_string())),
        Some("jonhosting.com".to_string())
    );
}
