use tsfrv::ip::ip_literal;
use tsfrv::security::{
    allowed_targets, default_target, is_blocked_port, normalize_hostname, parse_target_entry,
    resolve_target, validate_target, TargetError,
};

fn target(host: &str, port: u16) -> (String, u16) {
    (host.to_string(), port)
}

#[test]
fn rejects_ip_literals() {
    assert!(normalize_hostname("127.0.0.1").is_err());
    assert!(normalize_hostname("10.0.0.5").is_err());
}

#[test]
fn accepts_fqdn() {
    assert_eq!(
        normalize_hostname("koukoku.shadan.open.ad.jp").unwrap(),
        "koukoku.shadan.open.ad.jp"
    );
}

#[test]
fn blocks_sensitive_ports() {
    assert!(is_blocked_port(25));
    assert!(is_blocked_port(443));
    assert!(!is_blocked_port(992));
}

#[test]
fn every_blocked_port_is_blocked() {
    let blocked = [22, 23, 25, 53, 80, 110, 143, 443, 445, 3306, 5432, 6379, 11211];
    for port in 0..=u16::MAX {
        assert_eq!(is_blocked_port(port), blocked.contains(&port));
    }
}

#[test]
fn ip_literals_are_recognized() {
    let literals = [
        "0.0.0.0", "255.255.255.255", "::", "::1", "1::", "1:2:3:4:5:6:7:8", "1:2:3:4:5:6:7::",
        "1:2:3:4:5:6::8", "::2:3:4:5:6:7:8", "1:2:3:4:5:6:1.2.3.4", "::1.2.3.4", "::ffff:1.2.3.4",
        "FE80::A", "1:2:3:4:5::1.2.3.4",
    ];
    let other = [
        "256.1.1.1", "1.2.3", "1.2.3.4.5", "01.2.3.4", "1.2.3.004", "1..2.3", "1.2.3.4.",
        "+1.2.3.4", "1.2.3.a", "", ".", ":", ":::", "1:2:3:4:5:6:7", "1:2:3:4:5:6:7:8:9",
        "1:2:3:4:5:6:7::8", "1:2:3:4:5:1.2.3.4", "1.2.3.4::", "::1.2.3.4:5", "1::2::3", "1:::2",
        ":1::2", "1::2:", "fe80::1%eth0", "12345::", "g::", "::1.2.3.04", "1:2:3:4:5:6::1.2.3.4",
        "koukoku.shadan.open.ad.jp", "1.2.3.4:5", "[::1]", " 1.2.3.4",
    ];
    for text in literals {
        assert!(ip_literal(&text.chars().collect::<Vec<char>>()), "{text:?}");
    }
    for text in other {
        assert!(!ip_literal(&text.chars().collect::<Vec<char>>()), "{text:?}");
    }
}

#[test]
fn the_errors_of_host_names() {
    let invalid = Err(TargetError::InvalidHostname);
    assert_eq!(normalize_hostname(""), invalid);
    assert_eq!(normalize_hostname(" \u{3000}"), invalid);
    assert_eq!(normalize_hostname("..."), invalid);
    assert_eq!(normalize_hostname("-a.example"), invalid);
    assert_eq!(normalize_hostname("a.example-"), invalid);
    assert_eq!(normalize_hostname("a..example"), invalid);
    assert_eq!(normalize_hostname(".example.org"), invalid);
    assert_eq!(normalize_hostname("a_b.example"), invalid);
    assert_eq!(normalize_hostname("b\u{fc}cher.example"), invalid);
    assert_eq!(normalize_hostname("a.b ."), invalid);
    assert_eq!(normalize_hostname("[::1]"), invalid);
    assert_eq!(normalize_hostname("localhost"), Err(TargetError::NotFqdn));
    assert_eq!(normalize_hostname("127.0.0.1"), Err(TargetError::IpLiteral));
    assert_eq!(normalize_hostname(" ::1. "), Err(TargetError::IpLiteral));
    assert_eq!(normalize_hostname("::ffff:10.0.0.5"), Err(TargetError::IpLiteral));
}

#[test]
fn the_limits_of_host_names() {
    let label = "a".repeat(63);
    assert_eq!(normalize_hostname(&format!("{label}.jp")), Ok(format!("{label}.jp")));
    assert_eq!(normalize_hostname(&format!("{label}a.jp")), Err(TargetError::InvalidHostname));
    let longest = format!("{label}.{label}.{label}.{}", "b".repeat(61));
    assert_eq!(longest.len(), 253);
    assert_eq!(normalize_hostname(&longest), Ok(longest.clone()));
    assert_eq!(normalize_hostname(&format!("{longest}b")), Err(TargetError::InvalidHostname));
}

#[test]
fn host_names_are_normalized() {
    let host = normalize_hostname(" \tKouKoku.Example.JP.. ").unwrap();
    assert_eq!(host, "koukoku.example.jp");
    assert_eq!(normalize_hostname(&host), Ok(host));
    assert_eq!(normalize_hostname("A-1.B"), Ok("a-1.b".to_string()));
}

#[test]
fn the_messages_of_refusals() {
    assert_eq!(TargetError::InvalidHostname.message(), "invalid server hostname");
    assert_eq!(TargetError::IpLiteral.message(), "direct IP connections are not allowed");
    assert_eq!(TargetError::NotFqdn.message(), "server hostname must be a FQDN");
    assert_eq!(TargetError::InvalidPort.message(), "invalid port");
    assert_eq!(TargetError::PortNotAllowed.message(), "port is not allowed");
    assert_eq!(TargetError::NotAllowed.message(), "target is not in the allowlist");
}

#[test]
fn entries_name_targets() {
    assert_eq!(parse_target_entry(" A.Example:992 "), Some(target("a.example", 992)));
    assert_eq!(parse_target_entry("a.example:+23"), Some(target("a.example", 23)));
    assert_eq!(parse_target_entry("a.example:00992"), Some(target("a.example", 992)));
    assert_eq!(parse_target_entry("a.example:0"), Some(target("a.example", 0)));
    assert_eq!(parse_target_entry("a.example:65535"), Some(target("a.example", 65535)));
    assert_eq!(parse_target_entry("a.example.:1"), Some(target("a.example", 1)));
    assert_eq!(parse_target_entry("a.example :1"), Some(target("a.example", 1)));
    for entry in [
        "", "  ", "a.example", "a.example:", "a.example:65536", "a.example:-1", "a.example:+",
        "a.example:++1", "a.example: 1", "a.example:1x", ":992", "localhost:992", "127.0.0.1:992",
        "::1:992", "a:b.example:992", "a.example:99999999999999999999",
    ] {
        assert_eq!(parse_target_entry(entry), None, "{entry:?}");
    }
}

#[test]
fn the_list_of_targets() {
    let default = vec![target("koukoku.shadan.open.ad.jp", 992)];
    assert_eq!(default_target(), default[0]);
    assert_eq!(allowed_targets(None), default);
    assert_eq!(allowed_targets(Some("")), default);
    assert_eq!(allowed_targets(Some("localhost:1,,:2")), default);
    assert_eq!(
        allowed_targets(Some("B.example:2, nonsense ,a.example:1,b.example:2")),
        vec![target("b.example", 2), target("a.example", 1), target("b.example", 2)]
    );
}

#[test]
fn targets_are_validated() {
    let list = [target("a.example", 992), target("b.example", 22)];
    assert_eq!(validate_target("a.example", 992, &list), Ok(target("a.example", 992)));
    assert_eq!(validate_target("a.example", 0, &list), Err(TargetError::InvalidPort));
    assert_eq!(validate_target("b.example", 22, &list), Err(TargetError::PortNotAllowed));
    assert_eq!(validate_target("a.example", 993, &list), Err(TargetError::NotAllowed));
    assert_eq!(validate_target("b.example", 992, &list), Err(TargetError::NotAllowed));
    assert_eq!(validate_target("A.example", 992, &list), Err(TargetError::NotAllowed));
    assert_eq!(validate_target("a.example", 992, &[]), Err(TargetError::NotAllowed));
}

#[test]
fn requests_are_resolved() {
    let (server, port) = default_target();
    assert_eq!(resolve_target(None, &server, port), Ok((server.clone(), port)));
    assert_eq!(resolve_target(None, "KOUKOKU.shadan.open.ad.jp.", port), Ok((server, port)));
    assert_eq!(resolve_target(None, "a.example", 992), Err(TargetError::NotAllowed));
    let list = Some("a.example:992,b.example:443");
    assert_eq!(resolve_target(list, "A.EXAMPLE", 992), Ok(target("a.example", 992)));
    assert_eq!(resolve_target(list, "b.example", 443), Err(TargetError::PortNotAllowed));
    assert_eq!(resolve_target(list, "b.example", 0), Err(TargetError::InvalidPort));
    assert_eq!(resolve_target(list, "192.0.2.1", 0), Err(TargetError::IpLiteral));
    assert_eq!(
        resolve_target(list, "koukoku.shadan.open.ad.jp", 992),
        Err(TargetError::NotAllowed)
    );
}

#[test]
fn a_written_list_is_read_back() {
    let targets = vec![target("a.example", 1), target("b.example", 65535), target("c.d.e", 0)];
    let entries: Vec<String> = targets.iter().map(|(host, port)| format!("{host}:{port}")).collect();
    assert_eq!(allowed_targets(Some(&entries.join(","))), targets);
}
