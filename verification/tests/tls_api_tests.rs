use tiny_proxy::api::{
    api_route, auth_middleware, config_updated_reply, logging_middleware, not_found_reply,
    unauthorized_response, ApiRoute,
};
use tiny_proxy::cli::Cli;
use tiny_proxy::metrics::{record_request, tls_handshake, MetricsGuard};
use tiny_proxy::proxy::request::Headers;
use tiny_proxy::proxy::tls::{hostname_from_host_header, https_redirect, SniTable};

fn hosts(names: &[&str]) -> Vec<String> {
    names.iter().map(|s| s.to_string()).collect()
}

#[test]
fn test_hostname_from_host_header_ipv6() {
    assert_eq!(hostname_from_host_header("[::1]:8080"), "::1");
    assert_eq!(hostname_from_host_header("example.com:8080"), "example.com");
    assert_eq!(hostname_from_host_header("example.com"), "example.com");
}

#[test]
fn test_build_tls_acceptor_empty_sites() {
    let result = SniTable::build(&[], None);
    assert!(result.is_err());
}

#[test]
fn test_sni_table_resolves_names() {
    let t = SniTable::build(&hosts(&["beta.local", "Alpha.local"]), None).ok().unwrap();
    assert_eq!(t.resolve(Some("beta.local")), Some(0));
    assert_eq!(t.resolve(Some("ALPHA.LOCAL")), Some(1));
    // No SNI, or an unknown name: the smallest host name's site.
    assert_eq!(t.resolve(None), Some(1));
    assert_eq!(t.resolve(Some("other.local")), Some(1));
}

#[test]
fn test_sni_table_named_default() {
    let t = SniTable::build(&hosts(&["a.local", "b.local"]), Some("B.LOCAL")).ok().unwrap();
    assert_eq!(t.resolve(None), Some(1));
    let u = SniTable::build(&hosts(&["a.local", "b.local"]), Some("c.local")).ok().unwrap();
    assert_eq!(u.resolve(None), Some(0));
}

#[test]
fn test_https_redirect_location() {
    let r = https_redirect(Some("redirect.local:8080"), 8443, Some("/hello?x=1"));
    assert_eq!(r.status, 301);
    assert_eq!(r.location.as_deref(), Some("https://redirect.local:8443/hello?x=1"));
    assert!(r.body.contains("<a href=\"https://redirect.local:8443/hello?x=1\">here</a>"));
    let d = https_redirect(None, 443, None);
    assert_eq!(d.location.as_deref(), Some("https://localhost/"));
}

#[test]
fn test_api_routes() {
    assert_eq!(api_route("GET", "/config"), ApiRoute::GetConfig);
    assert_eq!(api_route("POST", "/config"), ApiRoute::PostConfig);
    assert_eq!(api_route("GET", "/health"), ApiRoute::Health);
    assert_eq!(api_route("DELETE", "/config"), ApiRoute::NotFound);
    assert_eq!(not_found_reply().status, 404);
}

#[test]
fn test_auth_middleware_valid_key() {
    let mut req = Headers::new();
    assert!(req.append("X-API-Key", b"secret-key-123"));
    let api_key = "secret-key-123";
    let result = auth_middleware(&req, api_key);
    assert!(result.is_ok());
}

#[test]
fn test_auth_middleware_invalid_key() {
    let mut req = Headers::new();
    assert!(req.append("X-API-Key", b"wrong-key"));
    let api_key = "secret-key-123";
    let result = auth_middleware(&req, api_key);
    assert!(result.is_err());
    assert!(result.unwrap_err().body.contains("Invalid API key"));
}

#[test]
fn test_auth_middleware_missing_key() {
    let req = Headers::new();
    let api_key = "secret-key-123";
    let result = auth_middleware(&req, api_key);
    assert!(result.is_err());
    assert!(result.unwrap_err().body.contains("Missing API key"));
}

#[test]
fn test_logging_middleware() {
    let mut req = Headers::new();
    assert!(req.append("X-Real-IP", b"192.168.1.1"));
    assert_eq!(logging_middleware(&req), "192.168.1.1");
    assert_eq!(logging_middleware(&Headers::new()), "unknown");
}

#[test]
fn test_unauthorized_response() {
    let response = unauthorized_response("Test error");
    assert_eq!(response.status, 401);
    assert_eq!(response.content_type.as_deref(), Some("application/json"));
    assert_eq!(response.body, r#"{"error": "Unauthorized", "message": "Test error"}"#);
}

#[test]
fn test_config_updated_reply() {
    let r = config_updated_reply();
    assert_eq!(r.status, 200);
    assert_eq!(r.body, r#"{"status": "success", "message": "Configuration updated"}"#);
}

#[test]
fn test_metrics_labels() {
    let l = record_request("GET", 200, "localhost:8080");
    assert_eq!(l.method, "GET");
    assert_eq!(l.status, "200");
    assert_eq!(l.site, "localhost:8080");
    let mut g = MetricsGuard::new("POST".to_string(), "api".to_string());
    let r = g.record(503);
    assert_eq!(r.status, "503");
    assert_eq!(r.method, "POST");
    assert_eq!(tls_handshake("fail"), "fail");
}

#[test]
fn test_cli_concurrency_override() {
    let mut cli = Cli {
        config: "./file.conf".to_string(),
        addr: None,
        max_concurrency: 0,
        enable_api: false,
        api_addr: "127.0.0.1:8081".to_string(),
        metrics_addr: None,
    };
    assert_eq!(cli.concurrency_override(), None);
    cli.max_concurrency = 12;
    assert_eq!(cli.concurrency_override(), Some(12));
}
