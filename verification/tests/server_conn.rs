use hyper::HeaderMap;
use edgy_s::net::{IpAddress, SocketAddress};
use edgy_s::server::conn::BaseConn;
use edgy_s::uri::UriParts;
use std::collections::HashMap;
use std::sync::Arc;
use tokio::sync::RwLock;

fn create_base_conn(uri: &str) -> BaseConn {
    BaseConn::new(
        UriParts::parse(uri).unwrap(),
        SocketAddress { ip: IpAddress::V4(0x7f00_0001), port: 8080 },
        HeaderMap::new(),
        Arc::new(RwLock::new(())),
    )
}

#[test]
fn test_path() {
    let conn = create_base_conn("/api/user");
    assert_eq!(conn.path(), "/api/user");

    let conn = create_base_conn("/api/user?id=123");
    assert_eq!(conn.path(), "/api/user");

    let conn = create_base_conn("/api/user?id=123&name=test");
    assert_eq!(conn.path(), "/api/user");
}

#[test]
fn test_query() {
    let conn = create_base_conn("/api/user");
    assert!(conn.query().is_none());

    let conn = create_base_conn("/api/user?id=123");
    assert_eq!(conn.query(), Some("id=123"));

    let conn = create_base_conn("/api/user?id=123&name=test");
    assert_eq!(conn.query(), Some("id=123&name=test"));
}

#[test]
fn test_get_argument() {
    let conn = create_base_conn("/api/user?id=123&name=test");
    assert_eq!(conn.get_argument("id"), Some("123".to_string()));
    assert_eq!(conn.get_argument("name"), Some("test".to_string()));
    assert_eq!(conn.get_argument("age"), None);
}

#[test]
fn test_get_argument_url_encoded() {
    let conn = create_base_conn("/search?q=hello%20world&tag=%E4%B8%AD%E6%96%87");
    assert_eq!(conn.get_argument("q"), Some("hello world".to_string()));
    assert_eq!(conn.get_argument("tag"), Some("中文".to_string()));
}

#[test]
fn test_get_argument_plus_as_space() {
    let conn = create_base_conn("/search?q=hello+world");
    assert_eq!(conn.get_argument("q"), Some("hello world".to_string()));
}

#[test]
fn test_get_arguments_multiple_values() {
    let conn = create_base_conn("/api?tag=foo&tag=bar&tag=baz");
    let values: Vec<_> = conn.get_arguments("tag");
    assert_eq!(values, vec!["foo", "bar", "baz"]);
}

#[test]
fn test_get_all_arguments() {
    let conn = create_base_conn("/api?id=123&name=hello%20world&flag");
    let args: HashMap<String, String> = conn.get_all_arguments().into_iter().collect();
    assert_eq!(args.get("id"), Some(&"123".to_string()));
    assert_eq!(args.get("name"), Some(&"hello world".to_string()));
    assert_eq!(args.get("flag"), Some(&String::new()));
}

#[test]
fn test_empty_values() {
    let conn = create_base_conn("/api?empty=&flag");
    assert_eq!(conn.get_argument("empty"), Some(String::new()));
    assert_eq!(conn.get_argument("flag"), Some(String::new()));
}

#[test]
fn test_special_characters_in_key() {
    let conn = create_base_conn("/api?%24key=value");
    assert_eq!(conn.get_argument("$key"), Some("value".to_string()));
}

#[test]
fn first_value_wins_in_all_arguments() {
    let conn = create_base_conn("/api?a=1&b=2&a=3&%zz=bad&=&x");
    let args = conn.get_all_arguments();
    assert_eq!(
        args,
        vec![
            ("a".to_string(), "1".to_string()),
            ("b".to_string(), "2".to_string()),
            ("%zz".to_string(), "bad".to_string()),
            ("".to_string(), "".to_string()),
            ("x".to_string(), "".to_string()),
        ]
    );
    assert_eq!(conn.get_argument("a"), Some("1".to_string()));
    assert_eq!(conn.get_arguments("a"), vec!["1", "3"]);
}

#[test]
fn undecodable_value_reads_as_none() {
    let conn = create_base_conn("/api?bad=%FF&ok=1");
    assert_eq!(conn.get_argument("bad"), None);
    assert_eq!(conn.get_argument("ok"), Some("1".to_string()));
    assert!(conn.get_arguments("bad").is_empty());
}

#[test]
fn no_query_has_no_arguments() {
    let conn = create_base_conn("/api/user");
    assert_eq!(conn.get_argument("id"), None);
    assert!(conn.get_arguments("id").is_empty());
    assert!(conn.get_all_arguments().is_empty());
}

#[test]
fn address_and_headers_of_connection() {
    let mut headers = HeaderMap::new();
    edgy_s::headers::set_header_in(&mut headers, "X-Token", "abc").unwrap();
    let conn = BaseConn::new(
        UriParts::parse("/ws").unwrap(),
        SocketAddress { ip: IpAddress::V6(1), port: 9000 },
        headers,
        Arc::new(RwLock::new(5u32)),
    );
    assert_eq!(conn.get_addr(), SocketAddress { ip: IpAddress::V6(1), port: 9000 });
    assert_eq!(conn.get_header("x-token"), Some("abc"));
    assert_eq!(conn.get_header("X-TOKEN"), Some("abc"));
    assert_eq!(conn.get_header("missing"), None);
    assert_eq!(conn.get_headers().len(), 1);
    assert_eq!(*conn.state().try_read().unwrap(), 5);
}

#[test]
fn all_arguments_agree_with_single_lookups() {
    let conn = create_base_conn("/api?a=1&b=x%20y&a=2&flag&c=");
    for (k, v) in conn.get_all_arguments() {
        assert_eq!(conn.get_argument(&k), Some(v));
    }
    assert_eq!(conn.get_argument("missing"), None);
}

#[test]
fn parameters_set_by_a_client_read_back_on_the_server() {
    let mut params: Vec<(String, String)> = Vec::new();
    edgy_s::params::set_argument_in(&mut params, "q", "a&b=c d+e");
    edgy_s::params::set_argument_in(&mut params, "名", "值%");
    edgy_s::params::set_argument_in(&mut params, "flag", "");
    let sent = edgy_s::uri::append_query_params(&UriParts::parse("/search").unwrap(), &params);
    let path_and_query = format!("{}?{}", sent.path(), sent.query().unwrap());
    let conn = create_base_conn(&path_and_query);
    assert_eq!(conn.get_all_arguments(), params);
    for (name, value) in &params {
        assert_eq!(conn.get_argument(name), Some(value.clone()));
    }
}

#[test]
fn single_lookup_is_first_of_all_values() {
    let conn = create_base_conn("/api?x=1&y=2&x=3&flag");
    for name in ["x", "y", "flag", "missing"] {
        assert_eq!(conn.get_argument(name), conn.get_arguments(name).first().cloned());
    }
    assert_eq!(conn.get_argument("x"), Some("1".to_string()));
    assert_eq!(conn.get_argument("missing"), None);
}

#[test]
fn empty_pairs_leave_all_arguments_in_agreement() {
    let conn = create_base_conn("/api?a=1&&b=x%2By&");
    let args = conn.get_all_arguments();
    assert_eq!(args, vec![("a".to_string(), "1".to_string()), ("b".to_string(), "x+y".to_string())]);
    for (k, v) in &args {
        assert_eq!(conn.get_argument(k), Some(v.clone()));
    }
    assert_eq!(conn.get_argument("c"), None);
    // An empty pair answers a lookup of the empty name, though it gives no entry.
    assert_eq!(conn.get_argument(""), Some(String::new()));
}
