use rwb_core::url::Url;

#[test]
fn test_valid_http_url() {
    let url = Url::new("http://example.com".to_string());
    assert!(url.is_ok());
    assert_eq!(url.unwrap().scheme(), "http");
}

#[test]
fn test_invalid_scheme() {
    let url = Url::new("https://example.com".to_string());
    assert!(url.is_err());
    assert_eq!(
        url.err().unwrap(),
        "Unsupported scheme: https. Only 'http' is allowed."
    );
}

#[test]
fn test_missing_scheme() {
    let url = Url::new("example.com".to_string());
    assert!(url.is_err());
    assert_eq!(
        url.err().unwrap(),
        "Unsupported scheme: . Only 'http' is allowed."
    );
}

#[test]
fn test_url_host_port() {
    let url = Url::new("http://example.com:8080".to_string());
    assert!(url.is_ok());
    let url = url.unwrap();
    assert_eq!(url.host(), "example.com");
    assert_eq!(url.port(), 8080);
}

#[test]
fn test_url_host_port_path() {
    let url = Url::new("http://example.com:8080/path".to_string());
    assert!(url.is_ok());
    let url = url.unwrap();
    assert_eq!(url.host(), "example.com");
    assert_eq!(url.port(), 8080);
    assert_eq!(url.path(), "/path");
}

#[test]
fn test_url_host_port_path_query() {
    let url = Url::new("http://example.com:8080/path?a=123&b=456".to_string());
    assert!(url.is_ok());
    let url = url.unwrap();
    assert_eq!(url.host(), "example.com");
    assert_eq!(url.port(), 8080);
    assert_eq!(url.path(), "/path");
    assert_eq!(url.query().unwrap(), "a=123&b=456");
}

#[test]
fn test_bare_host_gets_defaults() {
    let url = Url::new("http://example.com".to_string()).unwrap();
    assert_eq!(url.scheme(), "http");
    assert_eq!(url.host(), "example.com");
    assert_eq!(url.port(), 80);
    assert_eq!(url.path(), "/");
    assert!(url.query().is_none());
}

#[test]
fn test_default_path_with_port() {
    let url = Url::new("http://host:8080".to_string()).unwrap();
    assert_eq!(url.host(), "host");
    assert_eq!(url.port(), 8080);
    assert_eq!(url.path(), "/");
}

#[test]
fn test_port_zero_accepted() {
    let url = Url::new("http://host:0".to_string()).unwrap();
    assert_eq!(url.port(), 0);
}

#[test]
fn test_port_out_of_range_defaults() {
    let url = Url::new("http://host:99999/x".to_string()).unwrap();
    assert_eq!(url.host(), "host");
    assert_eq!(url.port(), 80);
    assert_eq!(url.path(), "/x");
}

#[test]
fn test_port_not_numeric_defaults() {
    let url = Url::new("http://host:8a/x".to_string()).unwrap();
    assert_eq!(url.port(), 80);
}

#[test]
fn test_port_empty_defaults() {
    let url = Url::new("http://host:/x".to_string()).unwrap();
    assert_eq!(url.host(), "host");
    assert_eq!(url.port(), 80);
    assert_eq!(url.path(), "/x");
}

#[test]
fn test_query_absent_vs_present_empty() {
    let absent = Url::new("http://host/path".to_string()).unwrap();
    assert!(absent.query().is_none());
    assert_eq!(absent.path(), "/path");

    let present = Url::new("http://host/path?".to_string()).unwrap();
    assert_eq!(present.query().unwrap(), "");
    assert_eq!(present.path(), "/path");
}

#[test]
fn test_query_keeps_later_question_marks() {
    let url = Url::new("http://h/p?a?b".to_string()).unwrap();
    assert_eq!(url.path(), "/p");
    assert_eq!(url.query().unwrap(), "a?b");
}

#[test]
fn test_scheme_is_case_sensitive() {
    let url = Url::new("HTTP://example.com".to_string());
    assert_eq!(
        url.err().unwrap(),
        "Unsupported scheme: HTTP. Only 'http' is allowed."
    );
}

#[test]
fn test_empty_input() {
    let url = Url::new(String::new());
    assert_eq!(
        url.err().unwrap(),
        "Unsupported scheme: . Only 'http' is allowed."
    );
}

#[test]
fn test_empty_authority() {
    let url = Url::new("http://".to_string()).unwrap();
    assert_eq!(url.host(), "");
    assert_eq!(url.port(), 80);
    assert_eq!(url.path(), "/");
    assert!(url.query().is_none());
}

#[test]
fn test_host_cut_at_first_colon_even_after_slash() {
    let url = Url::new("http://a/b:c".to_string()).unwrap();
    assert_eq!(url.host(), "a/b");
    assert_eq!(url.port(), 80);
    assert_eq!(url.path(), "/b:c");
}

#[test]
fn test_reparse_canonical_reconstruction() {
    let url = Url::new("http://example.com:8080/path?a=123&b=456".to_string()).unwrap();
    let rebuilt = match url.query() {
        Some(q) => format!("http://{}:{}{}?{}", url.host(), url.port(), url.path(), q),
        None => format!("http://{}:{}{}", url.host(), url.port(), url.path()),
    };
    let again = Url::new(rebuilt).unwrap();
    assert_eq!(again.host(), url.host());
    assert_eq!(again.port(), url.port());
    assert_eq!(again.path(), url.path());
    assert_eq!(again.query(), url.query());
}

#[test]
fn test_reparse_canonical_reconstruction_no_query() {
    let url = Url::new("http://example.com/dir/file".to_string()).unwrap();
    let rebuilt = format!("http://{}:{}{}", url.host(), url.port(), url.path());
    let again = Url::new(rebuilt).unwrap();
    assert_eq!(again.host(), "example.com");
    assert_eq!(again.port(), 80);
    assert_eq!(again.path(), "/dir/file");
    assert!(again.query().is_none());
}

#[test]
fn test_port_max_accepted() {
    let url = Url::new("http://host:65535".to_string()).unwrap();
    assert_eq!(url.port(), 65535);
}

#[test]
fn test_port_just_above_max_defaults() {
    let url = Url::new("http://host:65536".to_string()).unwrap();
    assert_eq!(url.port(), 80);
}

#[test]
fn test_query_before_any_slash() {
    let url = Url::new("http://host?q=1".to_string()).unwrap();
    assert_eq!(url.host(), "host?q=1");
    assert_eq!(url.path(), "/");
    assert_eq!(url.query().unwrap(), "q=1");
}

#[test]
fn test_port_ends_at_question_mark() {
    let url = Url::new("http://host:8080?q".to_string()).unwrap();
    assert_eq!(url.host(), "host");
    assert_eq!(url.port(), 8080);
    assert_eq!(url.path(), "/");
    assert_eq!(url.query().unwrap(), "q");
}
