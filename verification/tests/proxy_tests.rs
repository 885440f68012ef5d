use tiny_proxy::config::net::{IpAddress, Ipv4Octets, ListenAddr};
use tiny_proxy::config::{Config, Directive, HeaderDirective, SiteConfig, TlsConfig};
use tiny_proxy::proxy::access_log::{ensure_request_id, final_request_id};
use tiny_proxy::proxy::directives::{
    apply_header_up, handle_header, handle_method, handle_redirect, handle_respond, handle_reverse_proxy,
    handle_strip_prefix, handle_uri_replace,
};
use tiny_proxy::proxy::handler::{find_site, match_pattern, process_directives};
use tiny_proxy::proxy::limits::{default_max_concurrency, max_concurrency_for};
use tiny_proxy::proxy::listeners::{plan_listeners, site_addr_matches, tls_sites_for, Listener};
use tiny_proxy::proxy::request::{EnvVars, Headers, RequestHead};
use tiny_proxy::proxy::response::{
    error_response, no_site_reply, prepare_upstream, read_timeout_secs, redirect_reply,
    respond_reply, upstream_target,
};
use tiny_proxy::ActionResult;

fn make_request(method: &str) -> RequestHead {
    RequestHead { method: method.to_string(), headers: Headers::new() }
}

fn header_text(req: &RequestHead, name: &str) -> Option<String> {
    req.headers.get_text(name)
}

fn v4(a: u8, b: u8, c: u8, d: u8, port: u16) -> ListenAddr {
    ListenAddr::V4 { ip: Ipv4Octets(a, b, c, d), port }
}

fn site(address: &str, directives: Vec<Directive>, tls: Option<TlsConfig>) -> SiteConfig {
    SiteConfig { address: address.to_string(), directives, tls }
}

fn tls(cert: &str, key: &str) -> Option<TlsConfig> {
    Some(TlsConfig { cert_path: cert.to_string(), key_path: key.to_string() })
}

// ---------------------------------------------------------------------------
// match_pattern
// ---------------------------------------------------------------------------

#[test]
fn test_match_pattern_exact() {
    let result = match_pattern("/api/users", "/api/users");
    assert_eq!(result, Some("/".to_string()));
}

#[test]
fn test_match_pattern_wildcard() {
    let result = match_pattern("/api/*", "/api/users/123");
    assert_eq!(result, Some("/users/123".to_string()));
}

#[test]
fn test_match_pattern_wildcard_nested() {
    let result = match_pattern("/api/v1/*", "/api/v1/users/123");
    assert_eq!(result, Some("/users/123".to_string()));
}

#[test]
fn test_match_pattern_no_match() {
    let result = match_pattern("/api/*", "/users/123");
    assert_eq!(result, None);
}

#[test]
fn test_match_pattern_wildcard_root() {
    let result = match_pattern("/api/*", "/api/");
    assert_eq!(result, Some("/".to_string()));
}

#[test]
fn test_match_pattern_exact_mismatch() {
    assert_eq!(match_pattern("/api/users", "/api/users/1"), None);
}

// ---------------------------------------------------------------------------
// process_directives
// ---------------------------------------------------------------------------

#[test]
fn test_process_directives_reverse_proxy() {
    let mut req = make_request("GET");
    let directives = vec![Directive::ReverseProxy {
        to: "backend:3000".to_string(),
        connect_timeout: None,
        read_timeout: None,
        header_up: vec![],
    }];
    let result = process_directives(&directives, &mut req, "/test/path", &EnvVars::new());
    assert!(result.is_ok());
    match result.unwrap() {
        ActionResult::ReverseProxy { backend_url, path_to_send, .. } => {
            assert_eq!(backend_url, "backend:3000");
            assert_eq!(path_to_send, "/test/path");
        }
        _ => panic!("Expected ReverseProxy action"),
    }
}

#[test]
fn test_process_directives_respond() {
    let mut req = make_request("GET");
    let directives = vec![Directive::Respond { status: 200, body: "OK".to_string() }];
    let result = process_directives(&directives, &mut req, "/health", &EnvVars::new());
    assert!(result.is_ok());
    match result.unwrap() {
        ActionResult::Respond { status, body } => {
            assert_eq!(status, 200);
            assert_eq!(body, "OK");
        }
        _ => panic!("Expected Respond action"),
    }
}

#[test]
fn test_process_directives_uri_replace() {
    let mut req = make_request("GET");
    let directives = vec![
        Directive::UriReplace { find: "/api".to_string(), replace: "".to_string() },
        Directive::ReverseProxy {
            to: "backend:3000".to_string(),
            connect_timeout: None,
            read_timeout: None,
            header_up: vec![],
        },
    ];
    let result = process_directives(&directives, &mut req, "/api/users", &EnvVars::new());
    assert!(result.is_ok());
    match result.unwrap() {
        ActionResult::ReverseProxy { backend_url, path_to_send, .. } => {
            assert_eq!(backend_url, "backend:3000");
            assert_eq!(path_to_send, "/users");
        }
        _ => panic!("Expected ReverseProxy action with replaced path"),
    }
}

#[test]
fn test_process_directives_handle_path() {
    let mut req = make_request("GET");
    let directives = vec![Directive::HandlePath {
        pattern: "/api/*".to_string(),
        directives: vec![Directive::ReverseProxy {
            to: "api:8081".to_string(),
            connect_timeout: None,
            read_timeout: None,
            header_up: vec![],
        }],
    }];
    let result = process_directives(&directives, &mut req, "/api/users", &EnvVars::new());
    assert!(result.is_ok());
    match result.unwrap() {
        ActionResult::ReverseProxy { backend_url, path_to_send, .. } => {
            assert_eq!(backend_url, "api:8081");
            assert_eq!(path_to_send, "/users");
        }
        _ => panic!("Expected ReverseProxy action"),
    }
}

#[test]
fn test_process_directives_method() {
    let mut req = make_request("GET");
    let directives = vec![Directive::Method {
        methods: vec!["GET".to_string(), "HEAD".to_string()],
        directives: vec![Directive::Respond { status: 200, body: "OK".to_string() }],
    }];
    let result = process_directives(&directives, &mut req, "/health", &EnvVars::new());
    assert!(result.is_ok());
    match result.unwrap() {
        ActionResult::Respond { status, body } => {
            assert_eq!(status, 200);
            assert_eq!(body, "OK");
        }
        _ => panic!("Expected Respond action"),
    }
}

#[test]
fn test_process_directives_method_no_match() {
    let mut req = make_request("POST");
    let directives = vec![
        Directive::Method {
            methods: vec!["GET".to_string(), "HEAD".to_string()],
            directives: vec![Directive::Respond { status: 200, body: "OK".to_string() }],
        },
        Directive::ReverseProxy {
            to: "backend:3000".to_string(),
            connect_timeout: None,
            read_timeout: None,
            header_up: vec![],
        },
    ];
    let result = process_directives(&directives, &mut req, "/health", &EnvVars::new());
    assert!(result.is_ok());
    match result.unwrap() {
        ActionResult::ReverseProxy { backend_url, path_to_send, .. } => {
            assert_eq!(backend_url, "backend:3000");
            assert_eq!(path_to_send, "/health");
        }
        _ => panic!("Expected ReverseProxy action (method didn't match)"),
    }
}

#[test]
fn test_process_directives_nested_handle_path() {
    let mut req = make_request("GET");
    let directives = vec![Directive::HandlePath {
        pattern: "/api/v1/*".to_string(),
        directives: vec![Directive::HandlePath {
            pattern: "/users/*".to_string(),
            directives: vec![Directive::ReverseProxy {
                to: "user-service:8001".to_string(),
                connect_timeout: None,
                read_timeout: None,
                header_up: vec![],
            }],
        }],
    }];
    let result = process_directives(&directives, &mut req, "/api/v1/users/123", &EnvVars::new());
    assert!(result.is_ok());
    match result.unwrap() {
        ActionResult::ReverseProxy { backend_url, path_to_send, .. } => {
            assert_eq!(backend_url, "user-service:8001");
            assert_eq!(path_to_send, "/123");
        }
        _ => panic!("Expected ReverseProxy action with nested handle_path"),
    }
}

#[test]
fn test_process_directives_no_action() {
    let mut req = make_request("GET");
    let directives =
        vec![Directive::UriReplace { find: "/test".to_string(), replace: "/modified".to_string() }];
    let result = process_directives(&directives, &mut req, "/test", &EnvVars::new());
    assert!(result.is_err());
}

#[test]
fn test_process_directives_no_action_message() {
    let mut req = make_request("GET");
    let directives =
        vec![Directive::UriReplace { find: "/test".to_string(), replace: "/modified".to_string() }];
    let result = process_directives(&directives, &mut req, "/test", &EnvVars::new());
    assert_eq!(
        result.unwrap_err(),
        "No action directive (respond or reverse_proxy) found in configuration for path: /test"
    );
}

#[test]
fn test_process_directives_multiple_headers() {
    let mut req = make_request("GET");
    let directives = vec![
        Directive::Header { name: "X-Custom-1".to_string(), value: Some("value1".to_string()) },
        Directive::Header { name: "X-Custom-2".to_string(), value: Some("value2".to_string()) },
        Directive::ReverseProxy {
            to: "backend:3000".to_string(),
            connect_timeout: None,
            read_timeout: None,
            header_up: vec![],
        },
    ];
    let result = process_directives(&directives, &mut req, "/api/test", &EnvVars::new());
    assert!(result.is_ok());
    match result.unwrap() {
        ActionResult::ReverseProxy { .. } => {
            assert_eq!(header_text(&req, "X-Custom-1").unwrap(), "value1");
            assert_eq!(header_text(&req, "X-Custom-2").unwrap(), "value2");
        }
        _ => panic!("Expected ReverseProxy action"),
    }
}

#[test]
fn test_process_directives_strip_prefix_and_timeouts() {
    let mut req = make_request("GET");
    let directives = vec![
        Directive::StripPrefix { prefix: "/api".to_string() },
        Directive::ReverseProxy {
            to: "http://llm:8000".to_string(),
            connect_timeout: Some(10),
            read_timeout: Some(600),
            header_up: vec![],
        },
    ];
    match process_directives(&directives, &mut req, "/api/chat", &EnvVars::new()).unwrap() {
        ActionResult::ReverseProxy { backend_url, path_to_send, connect_timeout, read_timeout, .. } => {
            assert_eq!(backend_url, "http://llm:8000");
            assert_eq!(path_to_send, "/chat");
            assert_eq!(connect_timeout, Some(10));
            assert_eq!(read_timeout, Some(600));
        }
        _ => panic!("Expected ReverseProxy action"),
    }
}

#[test]
fn test_process_directives_redirect_stops_processing() {
    let mut req = make_request("GET");
    let directives = vec![
        Directive::Redirect { status: 302, url: "/maintenance".to_string() },
        Directive::Respond { status: 200, body: "never".to_string() },
    ];
    match process_directives(&directives, &mut req, "/", &EnvVars::new()).unwrap() {
        ActionResult::Redirect { status, url } => {
            assert_eq!(status, 302);
            assert_eq!(url, "/maintenance");
        }
        _ => panic!("Expected Redirect action"),
    }
}

#[test]
fn test_process_directives_failed_header_is_skipped() {
    let mut req = make_request("GET");
    let directives = vec![
        Directive::Header { name: "Bad Name".to_string(), value: Some("x".to_string()) },
        Directive::Header { name: "X-Open".to_string(), value: Some("{header.Foo".to_string()) },
        Directive::Respond { status: 204, body: String::new() },
    ];
    let result = process_directives(&directives, &mut req, "/", &EnvVars::new());
    assert!(result.is_ok());
    assert_eq!(req.headers.len(), 0);
}

#[test]
fn test_process_directives_header_removal() {
    let mut req = make_request("GET");
    assert!(req.headers.append("Authorization", b"Bearer t"));
    let directives = vec![
        Directive::Header { name: "Authorization".to_string(), value: None },
        Directive::Respond { status: 200, body: "ok".to_string() },
    ];
    process_directives(&directives, &mut req, "/", &EnvVars::new()).unwrap();
    assert!(header_text(&req, "Authorization").is_none());
}

// ---------------------------------------------------------------------------
// Directive handlers
// ---------------------------------------------------------------------------

#[test]
fn test_handle_strip_prefix_basic() {
    let mut path = "/api/users/123".to_string();
    handle_strip_prefix("/api", &mut path);
    assert_eq!(path, "/users/123");
}

#[test]
fn test_handle_strip_prefix_exact_match() {
    let mut path = "/api".to_string();
    handle_strip_prefix("/api", &mut path);
    assert_eq!(path, "/", "Exact match should result in root path");
}

#[test]
fn test_handle_strip_prefix_no_match() {
    let mut path = "/users/123".to_string();
    handle_strip_prefix("/api", &mut path);
    assert_eq!(path, "/users/123", "Should remain unchanged when prefix doesn't match");
}

#[test]
fn test_handle_strip_prefix_trailing_slash() {
    let mut path = "/api/v2/users".to_string();
    handle_strip_prefix("/api/v2", &mut path);
    assert_eq!(path, "/users");
}

#[test]
fn test_handle_strip_prefix_adds_root() {
    let mut path = "/apiary".to_string();
    handle_strip_prefix("/api", &mut path);
    assert_eq!(path, "/ary");
}

#[test]
fn test_handle_redirect_301() {
    let result = handle_redirect(&301, "https://example.com/new");
    match result {
        ActionResult::Redirect { status, url } => {
            assert_eq!(status, 301);
            assert_eq!(url, "https://example.com/new");
        }
        _ => panic!("Expected Redirect action"),
    }
}

#[test]
fn test_handle_redirect_302() {
    let result = handle_redirect(&302, "/temporary");
    match result {
        ActionResult::Redirect { status, url } => {
            assert_eq!(status, 302);
            assert_eq!(url, "/temporary");
        }
        _ => panic!("Expected Redirect action"),
    }
}

#[test]
fn test_handle_respond_and_reverse_proxy() {
    match handle_respond(&503, "down") {
        ActionResult::Respond { status, body } => {
            assert_eq!(status, 503);
            assert_eq!(body, "down");
        }
        _ => panic!("Expected Respond action"),
    }
    let ops = vec![
        HeaderDirective { name: "Host".to_string(), value: Some("api.example.com".to_string()) },
        HeaderDirective { name: "Accept-Encoding".to_string(), value: None },
    ];
    match handle_reverse_proxy("b:1", "/p", None, Some(5), ops) {
        ActionResult::ReverseProxy { header_up, .. } => {
            assert_eq!(header_up.len(), 2);
            assert_eq!(header_up[0].name, "Host");
            assert_eq!(header_up[0].value.as_deref(), Some("api.example.com"));
            assert_eq!(header_up[1].name, "Accept-Encoding");
            assert!(header_up[1].value.is_none());
        }
        _ => panic!("Expected ReverseProxy action"),
    }
    match handle_reverse_proxy("b:1", "/p", None, Some(5), vec![]) {
        ActionResult::ReverseProxy { backend_url, path_to_send, connect_timeout, read_timeout, .. } => {
            assert_eq!(backend_url, "b:1");
            assert_eq!(path_to_send, "/p");
            assert_eq!(connect_timeout, None);
            assert_eq!(read_timeout, Some(5));
        }
        _ => panic!("Expected ReverseProxy action"),
    }
}

#[test]
fn test_handle_uri_replace_all_occurrences() {
    let mut path = "/a/b/a".to_string();
    handle_uri_replace("a", "x", &mut path);
    assert_eq!(path, "/x/b/x");
}

#[test]
fn test_handle_method_ignores_case() {
    let methods = vec!["get".to_string(), "HEAD".to_string()];
    assert!(handle_method(&methods, "GET"));
    assert!(handle_method(&methods, "head"));
    assert!(!handle_method(&methods, "POST"));
}

fn authorized_request() -> RequestHead {
    let mut req = make_request("GET");
    assert!(req.headers.append("Authorization", b"Bearer secret-token"));
    req
}

#[test]
fn test_handle_header_static_value() {
    let mut req = authorized_request();
    handle_header("X-Static", Some("hello-world"), &mut req, &EnvVars::new()).unwrap();
    assert_eq!(header_text(&req, "X-Static").unwrap(), "hello-world");
}

#[test]
fn test_handle_header_uuid_placeholder() {
    let mut req = authorized_request();
    handle_header("X-Request-ID", Some("{uuid}"), &mut req, &EnvVars::new()).unwrap();
    let value = header_text(&req, "X-Request-ID").unwrap();
    assert_ne!(value, "{uuid}", "Should not be literal placeholder");
    assert!(value.contains("-"), "UUID should contain dashes");
    assert_eq!(value.len(), 36, "UUID should be 36 characters");
}

#[test]
fn test_handle_header_header_placeholder() {
    let mut req = authorized_request();
    handle_header("X-Client-Auth", Some("{header.Authorization}"), &mut req, &EnvVars::new())
        .unwrap();
    assert_eq!(
        header_text(&req, "X-Client-Auth").unwrap(),
        "Bearer secret-token",
        "Should extract value from Authorization header"
    );
}

#[test]
fn test_handle_header_env_placeholder() {
    let mut env = EnvVars::new();
    env.add("TEST_PROXY_VAR".to_string(), "test-value-123".to_string());
    let mut req = authorized_request();
    handle_header("X-Env-Test", Some("{env.TEST_PROXY_VAR}"), &mut req, &env).unwrap();
    assert_eq!(
        header_text(&req, "X-Env-Test").unwrap(),
        "test-value-123",
        "Should substitute environment variable"
    );
}

#[test]
fn test_handle_header_remove() {
    let mut req = authorized_request();
    assert!(
        header_text(&req, "Authorization").is_some(),
        "Authorization header should exist before removal"
    );
    handle_header("Authorization", None, &mut req, &EnvVars::new()).unwrap();
    assert!(header_text(&req, "Authorization").is_none(), "Authorization header should be removed");
}

#[test]
fn test_handle_header_remove_nonexistent() {
    let mut req = authorized_request();
    handle_header("X-Nonexistent", None, &mut req, &EnvVars::new()).unwrap();
}

#[test]
fn test_handle_header_error_messages() {
    let mut req = authorized_request();
    let e = handle_header("Bad Name", Some("x"), &mut req, &EnvVars::new()).unwrap_err();
    assert_eq!(e.message(), "HTTP error: invalid HTTP header name");
    let e = handle_header("X-Bad", Some("a\nb"), &mut req, &EnvVars::new()).unwrap_err();
    assert_eq!(e.message(), "HTTP error: failed to parse header value");
    assert!(header_text(&req, "X-Bad").is_none());
}

#[test]
fn test_handle_header_errors() {
    let mut req = authorized_request();
    assert!(handle_header("Bad Name", Some("v"), &mut req, &EnvVars::new()).is_err());
    assert!(handle_header("X-Ctl", Some("a\u{7f}b"), &mut req, &EnvVars::new()).is_err());
    assert!(header_text(&req, "X-Ctl").is_none());
}

#[test]
fn test_handle_header_replaces_all_values() {
    let mut req = make_request("GET");
    assert!(req.headers.append("X-Multi", b"one"));
    assert!(req.headers.append("x-multi", b"two"));
    handle_header("X-Multi", Some("three"), &mut req, &EnvVars::new()).unwrap();
    assert_eq!(req.headers.len(), 1);
    assert_eq!(header_text(&req, "x-MULTI").unwrap(), "three");
}

// ---------------------------------------------------------------------------
// Request ids
// ---------------------------------------------------------------------------

#[test]
fn test_ensure_request_id_generates_when_missing() {
    let mut req = make_request("GET");
    assert!(req.headers.get("X-Request-ID").is_none());
    let id = ensure_request_id(&mut req);
    assert!(!id.is_empty());
    assert_eq!(id.len(), 36, "Should be a UUID");
    assert!(req.headers.get("X-Request-ID").is_some());
}

#[test]
fn test_ensure_request_id_reuses_existing() {
    let mut req = make_request("GET");
    assert!(req.headers.append("X-Request-ID", b"my-custom-id"));
    let id = ensure_request_id(&mut req);
    assert_eq!(id, "my-custom-id");
}

#[test]
fn test_final_request_id_after_directive_change() {
    let mut req = make_request("GET");
    let first_id = ensure_request_id(&mut req);
    let directives = vec![
        Directive::Header { name: "X-Request-ID".to_string(), value: Some("directive-id".to_string()) },
        Directive::Respond { status: 200, body: String::new() },
    ];
    process_directives(&directives, &mut req, "/", &EnvVars::new()).unwrap();
    let final_id = final_request_id(&req.headers, &first_id);
    assert_eq!(final_id, "directive-id");
}

#[test]
fn test_final_request_id_fallback_when_no_header() {
    let req = make_request("GET");
    let final_id = final_request_id(&req.headers, "fallback-id");
    assert_eq!(final_id, "fallback-id");
}

#[test]
fn test_request_id_read_back() {
    let mut req = make_request("GET");
    let id = ensure_request_id(&mut req);
    assert_eq!(final_request_id(&req.headers, "other"), id);
}

// ---------------------------------------------------------------------------
// Sites and answers
// ---------------------------------------------------------------------------

#[test]
fn test_find_site_tls_port_normalization() {
    let mut config = Config::new();
    config.insert_site(site("example.com:443", vec![], tls("/fake/cert.pem", "/fake/key.pem")));

    let exact = find_site(&config, "example.com:443", true);
    assert!(exact.is_some());

    let no_port = find_site(&config, "example.com", true);
    assert!(no_port.is_some(), "Should find example.com:443 when Host='example.com' and is_tls=true");

    let wrong_proto = find_site(&config, "example.com", false);
    assert!(
        wrong_proto.is_none(),
        "Should NOT find :443 site when is_tls=false (would try :80)"
    );
}

#[test]
fn test_find_site_plain_port_80() {
    let mut config = Config::new();
    config.insert_site(site("example.com:80", vec![], None));
    assert_eq!(find_site(&config, "example.com", false).unwrap().address, "example.com:80");
    assert!(find_site(&config, "example.com:8080", false).is_none());
}

#[test]
fn test_respond_reply_status_fallback() {
    let ok = respond_reply(201, "made");
    assert_eq!(ok.status, 201);
    assert_eq!(ok.body, "made");
    assert_eq!(respond_reply(42, "x").status, 200);
    assert_eq!(respond_reply(1000, "x").status, 200);
}

#[test]
fn test_redirect_reply() {
    let r = redirect_reply(308, "https://new/");
    assert_eq!(r.status, 308);
    assert_eq!(r.location.as_deref(), Some("https://new/"));
    assert_eq!(redirect_reply(7, "/x").status, 301);
}

#[test]
fn test_error_response_page() {
    let r = error_response(502, "Backend service unavailable");
    assert_eq!(r.status, 502);
    assert_eq!(r.content_type.as_deref(), Some("text/html; charset=utf-8"));
    assert!(r.body.contains("<title>502 Bad Gateway</title>"));
    assert!(r.body.contains("<p>Backend service unavailable</p>"));
    assert!(r.body.starts_with("<!DOCTYPE html>\n        <html>"));
}

#[test]
fn test_no_site_reply() {
    let r = no_site_reply("nowhere:1");
    assert_eq!(r.status, 404);
    assert!(r.body.contains("No configuration found for host: nowhere:1"));
    assert!(r.body.contains("404 Not Found"));
}

#[test]
fn test_upstream_target_adds_scheme() {
    assert_eq!(upstream_target("backend:3000", "/x"), "http://backend:3000/x");
    assert_eq!(upstream_target("https://b", "/y"), "https://b/y");
    assert_eq!(upstream_target("http://b:1", "/"), "http://b:1/");
}

#[test]
fn test_prepare_upstream_sets_host_and_proto() {
    let mut req = make_request("GET");
    assert!(req.headers.append("Host", b"front.example"));
    let url = prepare_upstream("backend:3000", "/api?q=1", &mut req, true).unwrap();
    assert_eq!(url, "http://backend:3000/api?q=1");
    assert_eq!(header_text(&req, "Host").unwrap(), "backend:3000");
    assert_eq!(header_text(&req, "X-Forwarded-Proto").unwrap(), "https");
}

#[test]
fn test_prepare_upstream_invalid_uri() {
    let mut req = make_request("GET");
    let r = prepare_upstream("bad host", "/", &mut req, false);
    let reply = r.unwrap_err();
    assert_eq!(reply.status, 500);
    assert!(reply.body.contains("Invalid proxy URI"));
}

#[test]
fn test_read_timeout_default() {
    assert_eq!(read_timeout_secs(None), 30);
    assert_eq!(read_timeout_secs(Some(600)), 600);
}

// ---------------------------------------------------------------------------
// Listeners
// ---------------------------------------------------------------------------

#[test]
fn test_site_addr_matches_localhost() {
    assert!(site_addr_matches("localhost:8080", &v4(127, 0, 0, 1, 8080)));
}

#[test]
fn test_site_addr_matches_ip() {
    assert!(site_addr_matches("0.0.0.0:443", &v4(0, 0, 0, 0, 443)));
}

#[test]
fn test_site_addr_matches_hostname_by_port() {
    assert!(site_addr_matches("example.com:443", &v4(0, 0, 0, 0, 443)));
}

#[test]
fn test_site_addr_matches_port_mismatch() {
    assert!(!site_addr_matches("example.com:8443", &v4(0, 0, 0, 0, 443)));
}

#[test]
fn test_site_addr_matches_wildcard_host() {
    assert!(site_addr_matches(":9090", &v4(0, 0, 0, 0, 9090)));
}

#[test]
fn test_site_addr_matches_other_ip() {
    assert!(!site_addr_matches("10.0.0.1:80", &v4(10, 0, 0, 2, 80)));
    assert!(!site_addr_matches("localhost:80", &v4(0, 0, 0, 0, 80)));
    assert!(!site_addr_matches("noport", &v4(0, 0, 0, 0, 80)));
}

#[test]
fn test_tls_sites_for_listener() {
    let mut config = Config::new();
    config.insert_site(site("a.local:8443", vec![], tls("ca", "ka")));
    config.insert_site(site("b.local:8443", vec![], tls("cb", "kb")));
    config.insert_site(site("plain:8080", vec![], None));
    let entries = tls_sites_for(&config, &v4(127, 0, 0, 1, 8443));
    assert_eq!(entries, vec![("a.local".to_string(), 0), ("b.local".to_string(), 1)]);
    assert!(tls_sites_for(&config, &v4(127, 0, 0, 1, 8080)).is_empty());
}

#[test]
fn test_plan_listeners_groups_sites() {
    let mut config = Config::new();
    config.insert_site(site("alpha.local:8443", vec![], tls("cert-a", "key-a")));
    config.insert_site(site("beta.local:8443", vec![], tls("cert-b", "key-b")));
    config.insert_site(site("localhost:8080", vec![], None));
    let plan = plan_listeners(&config).unwrap();
    assert_eq!(plan.listeners.len(), 2);
    match &plan.listeners[0] {
        Listener::Https { addr, sites } => {
            assert_eq!(*addr, v4(0, 0, 0, 0, 8443));
            assert_eq!(sites, &vec![("alpha.local".to_string(), 0), ("beta.local".to_string(), 1)]);
        }
        _ => panic!("Expected an HTTPS listener"),
    }
    match &plan.listeners[1] {
        Listener::Http { addr } => assert_eq!(*addr, v4(0, 0, 0, 0, 8080)),
        _ => panic!("Expected an HTTP listener"),
    }
    assert_eq!(plan.redirects, vec![(v4(0, 0, 0, 0, 8080), 8443)]);
}

#[test]
fn test_plan_listeners_rejects_mixed() {
    let mut config = Config::new();
    config.insert_site(site("a.local:443", vec![], tls("c", "k")));
    config.insert_site(site("0.0.0.0:443", vec![], None));
    let err = plan_listeners(&config).unwrap_err();
    assert_eq!(err, "Mixed TLS and non-TLS sites on the same listen address 0.0.0.0:443 is not supported");
}

#[test]
fn test_plan_listeners_rejects_bad_address() {
    let mut config = Config::new();
    config.insert_site(site("nowhere:port", vec![], None));
    assert_eq!(plan_listeners(&config).unwrap_err(), "Cannot parse address: nowhere:port");
}

#[test]
fn test_plan_listeners_sites_without_ports() {
    let mut config = Config::new();
    config.insert_site(site("api.example.com", vec![], None));
    config.insert_site(site("secure.example.com", vec![], tls("c", "k")));
    let plan = plan_listeners(&config).unwrap();
    assert_eq!(plan.listeners.len(), 2);
    match &plan.listeners[0] {
        Listener::Http { addr } => assert_eq!(*addr, v4(0, 0, 0, 0, 80)),
        _ => panic!("Expected an HTTP listener"),
    }
    match &plan.listeners[1] {
        Listener::Https { addr, sites } => {
            assert_eq!(*addr, v4(0, 0, 0, 0, 443));
            assert_eq!(sites, &vec![("secure.example.com".to_string(), 1)]);
        }
        _ => panic!("Expected an HTTPS listener"),
    }
    assert_eq!(tls_sites_for(&config, &v4(0, 0, 0, 0, 443)), vec![("secure.example.com".to_string(), 1)]);
}

#[test]
fn test_max_concurrency_for() {
    assert_eq!(max_concurrency_for(Some("64"), 4), 64);
    assert_eq!(max_concurrency_for(Some("lots"), 4), 1024);
    assert_eq!(max_concurrency_for(None, 2), 512);
    let n = default_max_concurrency(None).unwrap();
    assert!(n >= 256 && n % 256 == 0);
    assert_eq!(default_max_concurrency(Some("7")), Some(7));
}

#[test]
fn test_listen_addr_ip() {
    assert_eq!(v4(1, 2, 3, 4, 5).ip(), IpAddress::V4(Ipv4Octets(1, 2, 3, 4)));
}

// ---------------------------------------------------------------------------
// Whole-request decisions
// ---------------------------------------------------------------------------

use tiny_proxy::proxy::pipeline::{plan_request, RequestPlan};

fn request_for(host: &str, method: &str) -> RequestHead {
    let mut req = make_request(method);
    assert!(req.headers.append("Host", host.as_bytes()));
    req
}

#[test]
fn test_plan_request_unknown_host() {
    let config = Config::new();
    let mut req = request_for("nowhere:9", "GET");
    let d = plan_request(&config, &mut req, "/", "/", "10.0.0.1", false, &EnvVars::new());
    assert_eq!(d.host, "nowhere:9");
    assert_eq!(d.request_id.len(), 36);
    match d.outcome.unwrap() {
        RequestPlan::Answer(r) => assert_eq!(r.status, 404),
        _ => panic!("Expected an answer"),
    }
}

#[test]
fn test_plan_request_forward() {
    let mut config = Config::new();
    config.insert_site(site(
        "localhost:8080",
        vec![
            Directive::Header { name: "X-Request-ID".to_string(), value: Some("fixed".to_string()) },
            Directive::HandlePath {
                pattern: "/api/*".to_string(),
                directives: vec![Directive::ReverseProxy {
                    to: "backend:3000".to_string(),
                    connect_timeout: None,
                    read_timeout: Some(600),
                    header_up: vec![],
                }],
            },
        ],
        None,
    ));
    let mut req = request_for("localhost:8080", "GET");
    let d = plan_request(&config, &mut req, "/api/users", "/api/users", "10.0.0.1", false, &EnvVars::new());
    assert_eq!(d.request_id, "fixed");
    match d.outcome.unwrap() {
        RequestPlan::Forward { url, connect_timeout, read_timeout_secs } => {
            assert_eq!(url, "http://backend:3000/users");
            assert_eq!(connect_timeout, None);
            assert_eq!(read_timeout_secs, 600);
        }
        _ => panic!("Expected a forward"),
    }
    assert_eq!(req.headers.get_text("Host").unwrap(), "backend:3000");
}

#[test]
fn test_plan_request_default_port_and_respond() {
    let mut config = Config::new();
    config.insert_site(site(
        "example.com:443",
        vec![Directive::Respond { status: 200, body: "TLS OK".to_string() }],
        tls("cert", "key"),
    ));
    let mut req = request_for("example.com", "GET");
    assert!(req.headers.append("X-Request-ID", b"abc"));
    let d = plan_request(&config, &mut req, "/", "/", "10.0.0.1", true, &EnvVars::new());
    assert_eq!(d.request_id, "abc");
    match d.outcome.unwrap() {
        RequestPlan::Answer(r) => {
            assert_eq!(r.status, 200);
            assert_eq!(r.body, "TLS OK");
        }
        _ => panic!("Expected an answer"),
    }
}

#[test]
fn test_plan_request_no_action_is_error() {
    let mut config = Config::new();
    config.insert_site(site("localhost:8080", vec![], None));
    let mut req = request_for("localhost:8080", "GET");
    let d = plan_request(&config, &mut req, "/x", "/x", "10.0.0.1", false, &EnvVars::new());
    assert_eq!(
        d.outcome.unwrap_err(),
        "No action directive (respond or reverse_proxy) found in configuration for path: /x"
    );
}

#[test]
fn test_process_directives_carries_header_up() {
    let mut req = make_request("GET");
    let directives = vec![Directive::ReverseProxy {
        to: "http://backend:1".to_string(),
        connect_timeout: None,
        read_timeout: None,
        header_up: vec![
            HeaderDirective { name: "X-Original-Uri".to_string(), value: Some("{request.uri}".to_string()) },
            HeaderDirective { name: "Accept-Encoding".to_string(), value: None },
        ],
    }];
    match process_directives(&directives, &mut req, "/x", &EnvVars::new()).unwrap() {
        ActionResult::ReverseProxy { header_up, .. } => {
            assert_eq!(header_up.len(), 2);
            assert_eq!(header_up[0].name, "X-Original-Uri");
            assert_eq!(header_up[0].value.as_deref(), Some("{request.uri}"));
            assert_eq!(header_up[1].name, "Accept-Encoding");
            assert!(header_up[1].value.is_none());
        }
        _ => panic!("Expected ReverseProxy action"),
    }
}

#[test]
fn test_apply_header_up_set_and_remove() {
    let mut req = make_request("GET");
    assert!(req.headers.append("Accept-Encoding", b"gzip"));

    let directives = vec![
        HeaderDirective { name: "Host".to_string(), value: Some("{upstream_host}".to_string()) },
        HeaderDirective { name: "X-Original-Uri".to_string(), value: Some("{request.uri}".to_string()) },
        HeaderDirective { name: "Accept-Encoding".to_string(), value: None },
    ];

    apply_header_up(&directives, &mut req, "api.example.com:443", "/api/test?q=1", "10.0.0.1", &EnvVars::new());

    assert_eq!(header_text(&req, "Host").unwrap(), "api.example.com:443");
    assert_eq!(header_text(&req, "X-Original-Uri").unwrap(), "/api/test?q=1");
    assert!(header_text(&req, "Accept-Encoding").is_none());
}

#[test]
fn test_apply_header_up_remote_ip_and_failures() {
    let mut req = make_request("GET");
    let directives = vec![
        HeaderDirective { name: "X-Client".to_string(), value: Some("{remote_ip}".to_string()) },
        HeaderDirective { name: "Bad Name".to_string(), value: Some("x".to_string()) },
        HeaderDirective { name: "X-Broken".to_string(), value: Some("{header.Host".to_string()) },
    ];
    apply_header_up(&directives, &mut req, "b:1", "/", "10.0.0.7", &EnvVars::new());
    assert_eq!(header_text(&req, "X-Client").unwrap(), "10.0.0.7");
    assert!(header_text(&req, "X-Broken").is_none());
}

#[test]
fn test_plan_request_applies_header_up() {
    let mut config = Config::new();
    config.insert_site(site(
        "127.0.0.1:8080",
        vec![Directive::ReverseProxy {
            to: "http://127.0.0.1:9001".to_string(),
            connect_timeout: None,
            read_timeout: None,
            header_up: vec![
                HeaderDirective { name: "Host".to_string(), value: Some("api.example.com".to_string()) },
                HeaderDirective { name: "X-Original-Uri".to_string(), value: Some("{request.uri}".to_string()) },
                HeaderDirective { name: "Accept-Encoding".to_string(), value: None },
            ],
        }],
        None,
    ));
    let mut req = request_for("127.0.0.1:8080", "GET");
    assert!(req.headers.append("Accept-Encoding", b"gzip"));
    let d = plan_request(&config, &mut req, "/items", "/items?limit=3", "10.0.0.1", false, &EnvVars::new());
    match d.outcome.unwrap() {
        RequestPlan::Forward { url, .. } => assert_eq!(url, "http://127.0.0.1:9001/items"),
        _ => panic!("Expected a forward"),
    }
    assert_eq!(header_text(&req, "Host").unwrap(), "api.example.com");
    assert_eq!(header_text(&req, "X-Original-Uri").unwrap(), "/items?limit=3");
    assert!(header_text(&req, "Accept-Encoding").is_none());
}

#[test]
fn test_generated_request_id_is_version_4() {
    let config = Config::new();
    let mut req = request_for("nowhere:9", "GET");
    let d = plan_request(&config, &mut req, "/", "/", "10.0.0.1", false, &EnvVars::new());
    let id: Vec<char> = d.request_id.chars().collect();
    assert_eq!(id.len(), 36);
    assert_eq!(id[14], '4');
    assert!(matches!(id[19], '8' | '9' | 'a' | 'b'));
}

#[test]
fn test_config_is_wf() {
    let mut config = Config::new();
    config.insert_site(site("a:1", vec![], None));
    config.insert_site(site("b:1", vec![], None));
    assert!(config.is_wf());
    config.sites.push(site("a:1", vec![], None));
    assert!(!config.is_wf());
}
