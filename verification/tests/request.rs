use tsfrv::page::help_html;
use tsfrv::request::{
    is_websocket_upgrade, param_from_pairs, port_from_pairs, query_param, query_port,
    requested_target, route, server_address, stream_headers, target_from_pairs, Route,
    UPGRADE_REQUIRED_STATUS, UPGRADE_REQUIRED_TEXT,
};
use tsfrv::security::default_target;

fn pairs(list: &[(&str, &str)]) -> Vec<(String, String)> {
    list.iter().map(|(name, value)| (name.to_string(), value.to_string())).collect()
}

#[test]
fn the_first_parameter_of_a_name_counts() {
    let list = pairs(&[("server", "a"), ("port", "x"), ("server", "b"), ("port", "7")]);
    assert_eq!(param_from_pairs(&list, "server", "d"), "a");
    assert_eq!(param_from_pairs(&list, "Server", "d"), "d");
    assert_eq!(port_from_pairs(&list, "port", 5), 5);
    assert_eq!(port_from_pairs(&list[2..], "port", 5), 7);
    assert_eq!(target_from_pairs(&list), ("a".to_string(), 992));
    assert_eq!(target_from_pairs(&[]), default_target());
}

#[test]
fn parameters_are_read_from_a_url() {
    let url = "https://tsfrv.example/stream?server=a%2Eb+c&port=2323&port=1&empty=#x?port=9";
    assert_eq!(query_param(url, "server", "d").unwrap(), "a.b c");
    assert_eq!(query_param(url, "empty", "d").unwrap(), "");
    assert_eq!(query_param(url, "other", "d").unwrap(), "d");
    assert_eq!(query_port(url, "port", 5), Some(2323));
    assert_eq!(query_port(url, "server", 5), Some(5));
    assert_eq!(requested_target(url), Some(("a.b c".to_string(), 2323)));
    assert_eq!(requested_target("https://tsfrv.example/stream"), Some(default_target()));
    assert_eq!(requested_target("https://tsfrv.example/stream?port=70000"), Some(default_target()));
    assert_eq!(requested_target("no url"), None);
    assert_eq!(query_param("no url", "server", "d"), None);
    assert_eq!(query_port("no url", "port", 1), None);
}

#[test]
fn an_upgrade_is_asked_for_in_any_case() {
    assert!(is_websocket_upgrade(Some("websocket")));
    assert!(is_websocket_upgrade(Some("WebSocket")));
    assert!(!is_websocket_upgrade(Some(" websocket")));
    assert!(!is_websocket_upgrade(Some("websockets")));
    assert!(!is_websocket_upgrade(Some("")));
    assert!(!is_websocket_upgrade(None));
}

#[test]
fn requests_are_routed() {
    assert_eq!(route("/ws", Some("WEBSOCKET")), Route::Websocket);
    assert_eq!(route("/ws", None), Route::UpgradeRequired);
    assert_eq!(route("/ws", Some("h2c")), Route::UpgradeRequired);
    assert_eq!(route("/ws/", Some("websocket")), Route::Pages);
    assert_eq!(route("/", None), Route::Pages);
    assert_eq!(route("/stream", Some("websocket")), Route::Pages);
    assert_eq!(UPGRADE_REQUIRED_STATUS, 426);
    assert_eq!(
        UPGRADE_REQUIRED_TEXT,
        "WebSocket upgrade required. Connect with Upgrade: websocket"
    );
}

#[test]
fn a_stream_has_its_headers() {
    assert_eq!(
        stream_headers("a.example", 992),
        pairs(&[
            ("Content-Type", "text/plain; charset=utf-8"),
            ("X-Tsfrv-Server", "a.example"),
            ("X-Tsfrv-Port", "992"),
        ])
    );
    assert_eq!(stream_headers("", 0)[2].1, "0");
    assert_eq!(stream_headers("", 65535)[2].1, "65535");
}

#[test]
fn an_address_is_a_server_and_a_port() {
    assert_eq!(server_address("a.example", "992"), "a.example:992");
}

#[test]
fn the_help_page_links_to_the_default_target() {
    let page = help_html();
    assert!(page.starts_with("<!DOCTYPE html>\n<html lang=\"ja\">"));
    assert!(page.contains("code { background: #f4f4f4;"));
    assert!(page.contains("（デフォルト: koukoku.shadan.open.ad.jp:992）</li>"));
    assert!(page.contains(
        "<a href=\"/stream?server=koukoku.shadan.open.ad.jp&amp;port=992\">/stream?server=koukoku.shadan.open.ad.jp&amp;port=992</a>"
    ));
    assert!(page.ends_with("</body>\n</html>"));
}
