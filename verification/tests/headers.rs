use edgy_s::headers::upgrade_response_headers;
use edgy_s::headers::{add_header_in, empty_headers, get_header_in, set_header_in, HeaderError};
use hyper::HeaderMap;
use edgy_s::net::{
    choose_real_ip, is_websocket_request, real_ip_candidates, websocket_accept, IpAddress, SocketAddress,
};

#[test]
fn setting_headers() {
    let mut m = HeaderMap::new();
    assert_eq!(set_header_in(&mut m, "Content-Type", "text/plain"), Ok(true));
    assert_eq!(get_header_in(&m, "content-type"), Some("text/plain"));
    assert_eq!(set_header_in(&mut m, "content-type", "text/plain"), Ok(false));
    assert_eq!(set_header_in(&mut m, "CONTENT-TYPE", "text/html"), Ok(true));
    assert_eq!(get_header_in(&m, "Content-Type"), Some("text/html"));
    assert_eq!(m.len(), 1);
}

#[test]
fn adding_headers_keeps_earlier_values() {
    let mut m = HeaderMap::new();
    assert_eq!(add_header_in(&mut m, "x-a", "1"), Ok(()));
    assert_eq!(add_header_in(&mut m, "X-A", "2"), Ok(()));
    assert_eq!(get_header_in(&m, "x-a"), Some("1"));
    let all: Vec<_> = m.get_all("x-a").iter().map(|v| v.to_str().unwrap().to_string()).collect();
    assert_eq!(all, vec!["1", "2"]);
    assert_eq!(set_header_in(&mut m, "x-a", "3"), Ok(true));
    assert_eq!(m.get_all("x-a").iter().count(), 1);
}

#[test]
fn invalid_headers_are_refused() {
    let mut m = HeaderMap::new();
    assert_eq!(set_header_in(&mut m, "bad name", "v"), Err(HeaderError::InvalidName));
    assert_eq!(set_header_in(&mut m, "", "v"), Err(HeaderError::InvalidName));
    assert_eq!(set_header_in(&mut m, "x", "a\nb"), Err(HeaderError::InvalidValue));
    assert_eq!(add_header_in(&mut m, "x(y)", "v"), Err(HeaderError::InvalidName));
    assert_eq!(add_header_in(&mut m, "x", "a\u{7f}"), Err(HeaderError::InvalidValue));
    assert!(m.is_empty());
}

#[test]
fn values_that_are_not_text_do_not_read_as_text() {
    let mut m = HeaderMap::new();
    assert_eq!(set_header_in(&mut m, "x-name", "é"), Ok(true));
    assert_eq!(get_header_in(&m, "x-name"), None);
    assert_eq!(get_header_in(&m, "x-missing"), None);
    assert_eq!(get_header_in(&m, "bad name"), None);
}

fn upgrade_request() -> hyper::HeaderMap {
    let mut m = HeaderMap::new();
    set_header_in(&mut m, "Connection", "keep-alive, Upgrade").unwrap();
    set_header_in(&mut m, "Upgrade", "WebSocket").unwrap();
    set_header_in(&mut m, "Sec-WebSocket-Version", "13").unwrap();
    set_header_in(&mut m, "Sec-WebSocket-Key", "dGhlIHNhbXBsZSBub25jZQ==").unwrap();
    m
}

#[test]
fn websocket_upgrade_requests() {
    let m = upgrade_request();
    assert!(is_websocket_request(true, &m));
    assert!(!is_websocket_request(false, &m));

    let mut no_key = upgrade_request();
    no_key.remove("sec-websocket-key");
    assert!(!is_websocket_request(true, &no_key));

    let mut old_version = upgrade_request();
    set_header_in(&mut old_version, "sec-websocket-version", "12").unwrap();
    assert!(!is_websocket_request(true, &old_version));

    let mut no_token = upgrade_request();
    set_header_in(&mut no_token, "connection", "keep-alive, upgraded").unwrap();
    assert!(!is_websocket_request(true, &no_token));

    let mut other_protocol = upgrade_request();
    set_header_in(&mut other_protocol, "upgrade", "h2c").unwrap();
    assert!(!is_websocket_request(true, &other_protocol));
}

#[test]
fn websocket_accept_key() {
    let m = upgrade_request();
    assert_eq!(websocket_accept(&m), Some("s3pPLMBiTxaQ9kYGzzhZRbK+xOo=".to_string()));
    assert_eq!(websocket_accept(&HeaderMap::new()), None);
}

#[test]
fn real_ip_behind_proxies() {
    let mut m = HeaderMap::new();
    assert_eq!(real_ip_candidates(&m), (None, None));
    set_header_in(&mut m, "X-Forwarded-For", " 10.0.0.1 , 10.0.0.2").unwrap();
    set_header_in(&mut m, "X-Real-IP", "\t10.0.0.3 ").unwrap();
    assert_eq!(
        real_ip_candidates(&m),
        (Some("10.0.0.1".to_string()), Some("10.0.0.3".to_string()))
    );

    let peer = SocketAddress { ip: IpAddress::V4(0x7f00_0001), port: 4000 };
    let a = IpAddress::V4(0x0a00_0001);
    let b = IpAddress::V4(0x0a00_0003);
    assert_eq!(choose_real_ip(Some(a), Some(b), peer), SocketAddress { ip: a, port: 4000 });
    assert_eq!(choose_real_ip(None, Some(b), peer), SocketAddress { ip: b, port: 4000 });
    assert_eq!(choose_real_ip(None, None, peer), peer);
}

#[test]
fn upgrade_response_carries_handshake_headers() {
    let mut m = HeaderMap::new();
    set_header_in(&mut m, "x-custom", "1").unwrap();
    set_header_in(&mut m, "access-control-allow-origin", "https://a.example").unwrap();
    assert_eq!(upgrade_response_headers(&mut m, Some("s3pPLMBiTxaQ9kYGzzhZRbK+xOo=")), Ok(()));
    assert_eq!(get_header_in(&m, "connection"), Some("Upgrade"));
    assert_eq!(get_header_in(&m, "upgrade"), Some("websocket"));
    assert_eq!(get_header_in(&m, "sec-websocket-accept"), Some("s3pPLMBiTxaQ9kYGzzhZRbK+xOo="));
    assert_eq!(get_header_in(&m, "access-control-allow-origin"), Some("*"));
    assert_eq!(m.get_all("access-control-allow-origin").iter().count(), 1);
    assert_eq!(get_header_in(&m, "x-custom"), Some("1"));

    let mut plain = HeaderMap::new();
    assert_eq!(upgrade_response_headers(&mut plain, None), Ok(()));
    assert_eq!(get_header_in(&plain, "sec-websocket-accept"), None);
    assert_eq!(plain.len(), 3);

    let mut bad = HeaderMap::new();
    assert_eq!(upgrade_response_headers(&mut bad, Some("a\nb")), Err(HeaderError::InvalidValue));
}

#[test]
fn setting_a_header_overwrites_all_its_values() {
    let mut m = HeaderMap::new();
    assert_eq!(add_header_in(&mut m, "x-a", "1"), Ok(()));
    assert_eq!(add_header_in(&mut m, "x-a", "1"), Ok(()));
    assert_eq!(set_header_in(&mut m, "x-a", "1"), Ok(true));
    assert_eq!(m.get_all("x-a").iter().count(), 1);
    assert_eq!(set_header_in(&mut m, "x-a", "1"), Ok(false));
    assert_eq!(add_header_in(&mut m, "x-a", "2"), Ok(()));
    assert_eq!(set_header_in(&mut m, "x-a", "1"), Ok(true));
    let all: Vec<_> = m.get_all("x-a").iter().map(|v| v.to_str().unwrap().to_string()).collect();
    assert_eq!(all, vec!["1"]);
}

#[test]
fn writes_to_a_fresh_map_touch_only_their_name() {
    let mut m = empty_headers();
    assert!(m.is_empty());
    assert_eq!(add_header_in(&mut m, "Accept", "a"), Ok(()));
    assert_eq!(add_header_in(&mut m, "X-List", "1"), Ok(()));
    assert_eq!(add_header_in(&mut m, "x-list", "2"), Ok(()));
    let list: Vec<&str> = m.get_all("x-list").iter().map(|v| v.to_str().unwrap()).collect();
    assert_eq!(list, vec!["1", "2"]);
    assert_eq!(set_header_in(&mut m, "X-List", "3"), Ok(true));
    let list: Vec<&str> = m.get_all("x-list").iter().map(|v| v.to_str().unwrap()).collect();
    assert_eq!(list, vec!["3"]);
    assert_eq!(set_header_in(&mut m, "X-List", "3"), Ok(false));
    assert_eq!(get_header_in(&m, "accept"), Some("a"));
    assert_eq!(m.keys_len(), 2);
}
