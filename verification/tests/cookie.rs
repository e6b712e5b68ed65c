use mik_sdk::request::cookie::{parse_cookie_header, SameSite, SetCookie};

#[test]
fn test_set_cookie_basic() {
    let cookie = SetCookie::new("session", "abc123").build();
    assert_eq!(cookie, "session=abc123");
}

#[test]
fn test_set_cookie_http_only() {
    let cookie = SetCookie::new("session", "abc123").http_only().build();
    assert_eq!(cookie, "session=abc123; HttpOnly");
}

#[test]
fn test_set_cookie_secure() {
    let cookie = SetCookie::new("session", "abc123").secure().build();
    assert_eq!(cookie, "session=abc123; Secure");
}

#[test]
fn test_set_cookie_same_site_strict() {
    let cookie = SetCookie::new("session", "abc123")
        .same_site_strict()
        .build();
    assert_eq!(cookie, "session=abc123; SameSite=Strict");
}

#[test]
fn test_set_cookie_same_site_lax() {
    let cookie = SetCookie::new("session", "abc123").same_site_lax().build();
    assert_eq!(cookie, "session=abc123; SameSite=Lax");
}

#[test]
fn test_set_cookie_same_site_none() {
    let cookie = SetCookie::new("session", "abc123")
        .same_site_none()
        .secure()
        .build();
    assert!(cookie.contains("SameSite=None"));
    assert!(cookie.contains("Secure"));
}

#[test]
fn test_set_cookie_max_age() {
    let cookie = SetCookie::new("session", "abc123").max_age(3600).build();
    assert_eq!(cookie, "session=abc123; Max-Age=3600");
}

#[test]
fn test_set_cookie_path() {
    let cookie = SetCookie::new("session", "abc123").path("/api").build();
    assert_eq!(cookie, "session=abc123; Path=/api");
}

#[test]
fn test_set_cookie_domain() {
    let cookie = SetCookie::new("session", "abc123")
        .domain("example.com")
        .build();
    assert_eq!(cookie, "session=abc123; Domain=example.com");
}

#[test]
fn test_set_cookie_full() {
    let cookie = SetCookie::new("session", "abc123")
        .http_only()
        .secure()
        .same_site_strict()
        .max_age(3600)
        .path("/")
        .build();

    assert!(cookie.starts_with("session=abc123"));
    assert!(cookie.contains("HttpOnly"));
    assert!(cookie.contains("Secure"));
    assert!(cookie.contains("SameSite=Strict"));
    assert!(cookie.contains("Max-Age=3600"));
    assert!(cookie.contains("Path=/"));
}

#[test]
fn test_parse_cookie_header_basic() {
    let cookies = parse_cookie_header("session=abc123");
    assert_eq!(cookies, vec![("session", "abc123")]);
}

#[test]
fn test_parse_cookie_header_multiple() {
    let cookies = parse_cookie_header("session=abc123; user=john; theme=dark");
    assert_eq!(
        cookies,
        vec![("session", "abc123"), ("user", "john"), ("theme", "dark")]
    );
}

#[test]
fn test_parse_cookie_header_with_spaces() {
    let cookies = parse_cookie_header("  session = abc123 ;  user=john  ");
    assert_eq!(cookies, vec![("session", "abc123"), ("user", "john")]);
}

#[test]
fn test_parse_cookie_header_empty() {
    let cookies = parse_cookie_header("");
    assert!(cookies.is_empty());
}

#[test]
fn test_parse_cookie_header_invalid_pairs() {
    let cookies = parse_cookie_header("valid=value; invalid; also_valid=123");
    assert_eq!(cookies, vec![("valid", "value"), ("also_valid", "123")]);
}

#[test]
fn test_parse_cookie_header_empty_value() {
    let cookies = parse_cookie_header("empty=; normal=value");
    assert_eq!(cookies, vec![("empty", ""), ("normal", "value")]);
}

#[test]
fn test_parse_cookie_header_value_with_equals() {
    let cookies = parse_cookie_header("data=a=b=c");
    assert_eq!(cookies, vec![("data", "a=b=c")]);
}

#[test]
fn test_set_cookie_expires_and_attribute_order() {
    let cookie = SetCookie::new("id", "7")
        .domain("example.com")
        .path("/x")
        .expires("Wed, 21 Oct 2026 07:28:00 GMT")
        .max_age(0)
        .same_site_lax()
        .secure()
        .http_only()
        .build();
    assert_eq!(
        cookie,
        "id=7; HttpOnly; Secure; SameSite=Lax; Max-Age=0; Expires=Wed, 21 Oct 2026 07:28:00 GMT; Path=/x; Domain=example.com"
    );
}

#[test]
fn test_same_site_text() {
    assert_eq!(SameSite::Strict.as_str(), "Strict");
    assert_eq!(SameSite::Lax.as_str(), "Lax");
    assert_eq!(SameSite::Unrestricted.as_str(), "None");
}

#[test]
fn test_built_cookie_parses_back() {
    let cookie = SetCookie::new("token", "x=y").build();
    assert_eq!(parse_cookie_header(&cookie), vec![("token", "x=y")]);
}

#[test]
fn test_parse_cookie_header_empty_name_and_separators() {
    assert_eq!(parse_cookie_header("=v; ;;a=1"), vec![("", "v"), ("a", "1")]);
}

#[test]
fn test_cookie_chain_last_call_wins_and_order_is_fixed() {
    let a = SetCookie::new("id", "7")
        .domain("a.example")
        .max_age(10)
        .secure()
        .same_site_strict()
        .path("/x")
        .max_age(20)
        .same_site_lax()
        .http_only()
        .domain("b.example")
        .build();
    let b = SetCookie::new("id", "7")
        .http_only()
        .same_site_lax()
        .path("/x")
        .secure()
        .max_age(20)
        .domain("b.example")
        .build();
    assert_eq!(a, "id=7; HttpOnly; Secure; SameSite=Lax; Max-Age=20; Path=/x; Domain=b.example");
    assert_eq!(a, b);
}
