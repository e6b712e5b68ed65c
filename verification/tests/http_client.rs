use mik_sdk::constants::status_title;
use mik_sdk::http_client::ssrf::{is_private_address, validate_authority, validate_percent_encoding};
use mik_sdk::http_client::{get, post, request, ClientRequest, Error, Method, Scheme};

#[test]
fn test_builder_fields() {
    let req = post("https://api.example.com/users")
        .header("Accept", "application/json")
        .json(b"{\"name\":\"Alice\"}")
        .timeout_ms(1500);
    assert_eq!(req.method(), Method::Post);
    assert_eq!(req.url(), "https://api.example.com/users");
    assert_eq!(
        req.headers().to_vec(),
        vec![
            ("Accept".to_string(), "application/json".to_string()),
            ("Content-Type".to_string(), "application/json".to_string()),
        ]
    );
    assert_eq!(req.get_body(), Some(&b"{\"name\":\"Alice\"}"[..]));
    assert_eq!(req.timeout(), Some(1_500_000_000));
    assert!(!req.denies_private_ips());
    assert!(req.deny_private_ips().is_private_ips_denied());
}

#[test]
fn test_timeout_saturates() {
    let req = get("http://x").timeout_ms(u64::MAX);
    assert_eq!(req.timeout(), Some(u64::MAX));
    let req = get("http://x").timeout_ns(7);
    assert_eq!(req.timeout(), Some(7));
}

#[test]
fn test_trace_id() {
    let req = get("http://x").with_trace_id(Some("abc"));
    assert_eq!(req.headers().to_vec(), vec![("X-Trace-Id".to_string(), "abc".to_string())]);
    let req = get("http://x").with_trace_id(None);
    assert!(req.headers().is_empty());
}

#[test]
fn test_parse_url_parts() {
    let (s, a, p) = get("https://api.example.com:8443/v1/items?q=1").parse_url().unwrap();
    assert_eq!(s, Scheme::Https);
    assert_eq!(a, "api.example.com:8443");
    assert_eq!(p, "/v1/items?q=1");
    let (s, a, p) = request(Method::Get, "http://example.com").parse_url().unwrap();
    assert_eq!(s, Scheme::Http);
    assert_eq!(a, "example.com");
    assert_eq!(p, "/");
}

#[test]
fn test_parse_url_errors() {
    assert_eq!(
        get("ftp://example.com").parse_url(),
        Err(Error::InvalidUrl("URL must start with http:// or https://: ftp://example.com".to_string()))
    );
    assert_eq!(get("http:///path").parse_url(), Err(Error::InvalidUrl("Missing host in URL".to_string())));
    assert_eq!(
        get("http://exa mple.com/").parse_url(),
        Err(Error::InvalidUrl("Invalid host in URL: exa mple.com".to_string()))
    );
    assert_eq!(
        get("http://example.com:99999/").parse_url(),
        Err(Error::InvalidUrl("Invalid port in URL: example.com:99999".to_string()))
    );
    assert_eq!(
        get("http://example.com/a%zz").parse_url(),
        Err(Error::InvalidUrl("Invalid percent-encoding in path: /a%zz".to_string()))
    );
}

#[test]
fn test_private_addresses() {
    for a in ["localhost", "LOCALHOST:80", "127.0.0.1", "10.1.2.3:8080", "172.16.0.1", "172.31.255.255", "192.168.1.1", "169.254.169.254", "[::1]", "[fe80::1]:80"] {
        assert!(is_private_address(a), "{a}");
    }
    for a in ["example.com", "172.15.0.1", "172.32.0.1", "8.8.8.8", "[2001:db8::1]", "1.2.3", "256.0.0.1"] {
        assert!(!is_private_address(a), "{a}");
    }
    let req = get("http://127.0.0.1/admin").deny_private_ips();
    assert_eq!(
        req.parse_url(),
        Err(Error::InvalidUrl("Request to private/internal address denied: 127.0.0.1".to_string()))
    );
    assert!(get("http://127.0.0.1/admin").parse_url().is_ok());
}

#[test]
fn test_authority_and_percent_checks() {
    assert!(validate_authority("example.com:8080").is_ok());
    assert!(validate_authority("[::1]:8080").is_ok());
    assert!(validate_authority("host:0").is_err());
    assert!(validate_authority("host:").is_err());
    assert!(validate_authority("user@host").is_err());
    assert!(validate_percent_encoding("/a%20b%2F").is_ok());
    assert!(validate_percent_encoding("/a%2").is_err());
}

#[test]
fn test_send_with() {
    let r: Result<u32, Error> = get("https://example.com/x").send_with(|req: &ClientRequest| {
        assert_eq!(req.url(), "https://example.com/x");
        Ok(7)
    });
    assert_eq!(r, Ok(7));
    let r: Result<u32, Error> = get("nope").send_with(|_req: &ClientRequest| Ok(7));
    assert!(r.is_err());
}

#[test]
fn test_status_titles() {
    assert_eq!(status_title(200), "OK");
    assert_eq!(status_title(404), "Not Found");
    assert_eq!(status_title(422), "Unprocessable Entity");
    assert_eq!(status_title(504), "Gateway Timeout");
    assert_eq!(status_title(299), "Error");
}

#[test]
fn test_deny_only_refuses_more() {
    let open = get("https://example.com/a%20b").parse_url();
    let denied = get("https://example.com/a%20b").deny_private_ips().parse_url();
    assert!(open.is_ok());
    assert_eq!(open, denied);
    let bad = get("http://10.0.0.1/%zz").parse_url();
    let bad_denied = get("http://10.0.0.1/%zz").deny_private_ips().parse_url();
    assert!(bad.is_err());
    assert_eq!(
        bad_denied,
        Err(Error::InvalidUrl("Request to private/internal address denied: 10.0.0.1".to_string()))
    );
}

#[test]
fn test_timeout_ms_boundary() {
    let max_ok = u64::MAX / 1_000_000;
    assert_eq!(get("http://x").timeout_ms(max_ok).timeout(), Some(max_ok * 1_000_000));
    assert_eq!(get("http://x").timeout_ms(max_ok + 1).timeout(), Some(u64::MAX));
}

#[test]
fn test_builder_chain_keeps_method_and_url_and_deny_flag() {
    let plain = request(Method::Put, "https://example.com/a")
        .header("X-A", "1")
        .with_trace_id(Some("t"))
        .body(b"x")
        .timeout_ns(5)
        .json(b"{}")
        .timeout_ms(2);
    assert_eq!(plain.method(), Method::Put);
    assert_eq!(plain.url(), "https://example.com/a");
    assert!(!plain.denies_private_ips());
    assert!(!plain.is_private_ips_denied());
    let denied = ClientRequest::new(Method::Get, "http://10.0.0.1/")
        .deny_private_ips()
        .header("X-B", "2")
        .with_trace_id(None);
    assert_eq!(denied.method(), Method::Get);
    assert_eq!(denied.url(), "http://10.0.0.1/");
    assert!(denied.denies_private_ips());
    assert!(denied.is_private_ips_denied());
}
