use edgy_s::uri::{append_query_params, build_uri, encode_query_component, UriParts};
use edgy_s::utils::{get_path, url_decode};

#[test]
fn url_decode_examples() {
    assert_eq!(url_decode("hello%20world").unwrap(), "hello world");
    assert_eq!(url_decode("hello+world").unwrap(), "hello world");
    assert_eq!(url_decode("%E4%B8%AD%E6%96%87").unwrap(), "中文");
}

#[test]
fn url_decode_edge_cases() {
    assert_eq!(url_decode("").unwrap(), "");
    assert_eq!(url_decode("100%").unwrap(), "100%");
    assert_eq!(url_decode("%zz%4").unwrap(), "%zz%4");
    assert_eq!(url_decode("%2B+%2b").unwrap(), "+ +");
    assert!(url_decode("%FF").is_err());
    assert!(url_decode("%E4%B8").is_err());
}

#[test]
fn paths_of_type_names() {
    assert_eq!(get_path("basic_server::Hello"), "/Hello");
    assert_eq!(get_path("my_app::api::user_get"), "/api/user/get");
    assert_eq!(get_path("my_crate::MyHandler"), "/MyHandler");
    assert_eq!(get_path("my_crate::api::User"), "/api/User");
    assert_eq!(get_path("basic_server::api_add"), "/api/add");
    assert_eq!(get_path("basic_client::api_add"), "/api/add");
    assert_eq!(get_path("app::Wrapper<core::option::Option<u8>>"), "/Wrapper");
    assert_eq!(get_path("plain"), "/plain");
    assert_eq!(get_path("a::b::"), "/b/");
    assert_eq!(get_path(""), "/");
}

#[test]
fn uri_parts() {
    let u = UriParts::parse("https://example.com:8443/a/b?x=1&y=2").unwrap();
    assert_eq!(u.as_str(), "https://example.com:8443/a/b?x=1&y=2");
    assert_eq!(u.scheme_str(), Some("https"));
    assert_eq!(u.authority_str(), Some("example.com:8443"));
    assert_eq!(u.host(), Some("example.com"));
    assert_eq!(u.port_u16(), Some(8443));
    assert_eq!(u.path(), "/a/b");
    assert_eq!(u.query(), Some("x=1&y=2"));
    assert!(UriParts::parse("http://exa mple.com").is_err());
}

#[test]
fn route_uri_below_base() {
    let base = UriParts::parse("http://localhost:8080").unwrap();
    assert_eq!(build_uri(&base, "/hello", None).unwrap().as_str(), "http://localhost:8080/hello");

    let base = UriParts::parse("http://localhost").unwrap();
    assert_eq!(build_uri(&base, "/hello", Some("ws")).unwrap().as_str(), "ws://localhost:80/hello");

    let base = UriParts::parse("https://example.com/api//").unwrap();
    assert_eq!(build_uri(&base, "/x", Some("http")).unwrap().as_str(), "https://example.com:443/api/x");
    // `ws` ends in `s` already, so it is kept as it is.
    assert_eq!(build_uri(&base, "/x", Some("ws")).unwrap().as_str(), "ws://example.com:443/api/x");
    assert_eq!(build_uri(&base, "/x", Some("https")).unwrap().as_str(), "https://example.com:443/api/x");
    assert_eq!(build_uri(&base, "/x", None).unwrap().as_str(), "https://example.com:443/api/x");

    let base = UriParts::parse("http://h:1/p?k=v").unwrap();
    assert_eq!(build_uri(&base, "/q", Some("http")).unwrap().as_str(), "http://h:1/p/q?k=v");
}

#[test]
fn route_uri_that_does_not_parse() {
    let base = UriParts::parse("http://localhost:8080").unwrap();
    assert!(build_uri(&base, "/a b", None).is_err());
}

#[test]
fn query_components_are_percent_encoded() {
    let e: String = encode_query_component("a b&=~中").into_iter().collect();
    assert_eq!(e, "a%20b%26%3D%7E%E4%B8%AD");
    let e: String = encode_query_component("AZaz09-._!*'()").into_iter().collect();
    assert_eq!(e, "AZaz09-._!*'()");
    let e: String = encode_query_component("\"#$%+,/:;<>?@[\\]^`{|}").into_iter().collect();
    assert_eq!(e, "%22%23%24%25%2B%2C%2F%3A%3B%3C%3E%3F%40%5B%5C%5D%5E%60%7B%7C%7D");
}

#[test]
fn appending_query_parameters() {
    let uri = UriParts::parse("http://localhost:8080/path").unwrap();
    let params = vec![("a b".to_string(), "1&2".to_string()), ("k".to_string(), "中".to_string())];
    assert_eq!(
        append_query_params(&uri, &params).as_str(),
        "http://localhost:8080/path?a%20b=1%262&k=%E4%B8%AD"
    );

    let uri = UriParts::parse("ws://h:9/p?x=1").unwrap();
    let params = vec![("y".to_string(), "2".to_string())];
    assert_eq!(append_query_params(&uri, &params).as_str(), "ws://h:9/p?x=1&y=2");

    let uri = UriParts::parse("/only/path").unwrap();
    assert_eq!(append_query_params(&uri, &params).as_str(), "http://localhost/only/path?y=2");

    let uri = UriParts::parse("http://h/p?x=1").unwrap();
    assert_eq!(append_query_params(&uri, &Vec::new()).as_str(), "http://h/p?x=1");
}

#[test]
fn encoded_parameters_read_back() {
    let value = "x=1&y=2 +ü";
    let uri = UriParts::parse("http://h/p").unwrap();
    let with = append_query_params(&uri, &vec![("v".to_string(), value.to_string())]);
    let q = with.query().unwrap();
    let encoded = q.strip_prefix("v=").unwrap();
    assert_eq!(url_decode(encoded).unwrap(), value);
}

#[test]
fn appended_parameters_are_the_query_of_the_result() {
    let base = UriParts::parse("http://example.com:8080/api").unwrap();
    let params = vec![
        ("a b".to_string(), "1&2".to_string()),
        ("c".to_string(), "#x".to_string()),
    ];
    let r = append_query_params(&base, &params);
    assert_eq!(r.query(), Some("a%20b=1%262&c=%23x"));
    assert_eq!(r.path(), "/api");
    let again = UriParts::parse(r.as_str()).unwrap();
    assert_eq!(again.query(), r.query());
}
