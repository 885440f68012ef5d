use tiny_proxy::auth::headers::{extract_remote_ip, substitute_with};
use tiny_proxy::auth::process_header_substitution;
use tiny_proxy::auth::validator::validate_token_with_header;
use tiny_proxy::auth::validate_token;
use tiny_proxy::error::ProxyError;
use tiny_proxy::proxy::request::{EnvVars, Headers};

fn make_request() -> Headers {
    Headers::new()
}

fn make_request_with_header(name: &str, value: &str) -> Headers {
    let mut h = Headers::new();
    assert!(h.append(name, value.as_bytes()));
    h
}

#[test]
fn test_process_header_substitution_header() {
    let req = make_request_with_header("X-User-ID", "12345");
    let result = process_header_substitution("User: {header.X-User-ID}", &req, &EnvVars::new()).unwrap();
    assert_eq!(result, "User: 12345");
}

#[test]
fn test_process_header_substitution_env() {
    let mut env = EnvVars::new();
    env.add("TEST_VAR".to_string(), "test-value".to_string());
    let req = make_request();
    let result = process_header_substitution("Value: {env.TEST_VAR}", &req, &env).unwrap();
    assert_eq!(result, "Value: test-value");
}

#[test]
fn test_process_header_substitution_uuid() {
    let req = make_request();
    let result = process_header_substitution("ID: {uuid}", &req, &EnvVars::new()).unwrap();
    assert!(result.starts_with("ID: "));
    assert!(result.len() > 5);
}

#[test]
fn test_process_header_substitution_missing_header() {
    let req = make_request();
    let result = process_header_substitution("Value: {header.Missing}", &req, &EnvVars::new()).unwrap();
    assert_eq!(result, "Value: ");
}

#[test]
fn test_substitution_one_uuid_for_all_marks() {
    let req = make_request();
    let result = process_header_substitution("{uuid}/{uuid}", &req, &EnvVars::new()).unwrap();
    let parts: Vec<&str> = result.split('/').collect();
    assert_eq!(parts.len(), 2);
    assert_eq!(parts[0], parts[1]);
    assert_eq!(parts[0].len(), 36);
}

#[test]
fn test_substitute_with_given_uuid() {
    let req = make_request_with_header("Host", "h.example");
    let mut env = EnvVars::new();
    env.add("ZONE".to_string(), "eu".to_string());
    let r = substitute_with("{header.host}-{env.ZONE}-{uuid}-{env.NONE}", &req, &env, "U").unwrap();
    assert_eq!(r, "h.example-eu-U-");
}

#[test]
fn test_substitution_unclosed_header() {
    let req = make_request();
    match process_header_substitution("ab{header.X", &req, &EnvVars::new()) {
        Err(ProxyError::Directive(m)) => assert_eq!(m, "Unclosed header substitution at position 2"),
        other => panic!("unexpected {:?}", other),
    }
}

#[test]
fn test_substitution_unclosed_env_counts_bytes() {
    let req = make_request();
    match process_header_substitution("é{env.X", &req, &EnvVars::new()) {
        Err(ProxyError::Directive(m)) => {
            assert_eq!(m, "Unclosed environment variable substitution at position 2")
        }
        other => panic!("unexpected {:?}", other),
    }
}

#[test]
fn test_substitution_plain_text_unchanged() {
    let req = make_request_with_header("A", "1");
    let r = process_header_substitution("plain text", &req, &EnvVars::new()).unwrap();
    assert_eq!(r, "plain text");
}

#[test]
fn test_extract_remote_ip_xff() {
    let req = make_request_with_header("X-Forwarded-For", "192.168.1.1, 10.0.0.1");
    let ip = extract_remote_ip(&req);
    assert_eq!(ip, Some("192.168.1.1".to_string()));
}

#[test]
fn test_extract_remote_ip_xri() {
    let req = make_request_with_header("X-Real-IP", "192.168.1.2");
    let ip = extract_remote_ip(&req);
    assert_eq!(ip, Some("192.168.1.2".to_string()));
}

#[test]
fn test_extract_remote_ip_none() {
    let req = make_request();
    let ip = extract_remote_ip(&req);
    assert!(ip.is_none());
}

#[test]
fn test_extract_remote_ip_prefers_forwarded_for() {
    let mut req = make_request_with_header("X-Real-IP", "10.9.9.9");
    assert!(req.append("X-Forwarded-For", b"  172.16.0.5  "));
    assert_eq!(extract_remote_ip(&req), Some("172.16.0.5".to_string()));
}

#[test]
fn test_validate_token_missing_header() {
    let req = make_request();
    let validator_url = "http://auth-service:8080/validate";
    match validate_token(&req, validator_url) {
        Err(ProxyError::Http(m)) => assert_eq!(m, "Missing Authorization header"),
        other => panic!("unexpected {:?}", other),
    }
}

#[test]
fn test_validate_token_with_custom_header() {
    let req = make_request_with_header("X-Auth-Token", "test-token-123");
    let validator_url = "http://auth-service:8080/validate";
    let header_name = "X-Auth-Token";
    assert_eq!(validate_token_with_header(&req, validator_url, header_name).unwrap(), true);
    match validate_token_with_header(&make_request(), validator_url, header_name) {
        Err(ProxyError::Http(m)) => assert_eq!(m, "Missing X-Auth-Token header"),
        other => panic!("unexpected {:?}", other),
    }
}

#[test]
fn test_headers_set_get_remove() {
    let mut h = Headers::new();
    assert!(h.append("Accept", b"a"));
    assert!(!h.append("bad name", b"x"));
    assert!(!h.append("X-Ctl", b"\x00"));
    assert_eq!(h.len(), 1);
    assert_eq!(h.get_text("accept"), Some("a".to_string()));
    h.remove("ACCEPT");
    assert!(h.get("Accept").is_none());
    assert!(h.append("X-Bin", &[0xe9]));
    assert_eq!(h.get("x-bin"), Some(vec![0xe9]));
    assert_eq!(h.get_text("x-bin"), None);
}

#[test]
fn test_substitution_searches_inserted_text_again() {
    let mut headers = make_request_with_header("X-A", "{header.X-B}/{env.ZONE}/{uuid}");
    assert!(headers.append("X-B", b"b"));
    let mut env = EnvVars::new();
    env.add("ZONE".to_string(), "z".to_string());
    let r = substitute_with("<{header.X-A}>", &headers, &env, "U").unwrap();
    assert_eq!(r, "<b/z/U>");
}

#[test]
fn test_substitution_unclosed_env_before_header() {
    let headers = make_request_with_header("X-A", "a");
    match process_header_substitution("{env.X {header.X-A}", &headers, &EnvVars::new()) {
        Err(ProxyError::Directive(m)) => {
            assert_eq!(m, "Unclosed environment variable substitution at position 0")
        }
        other => panic!("Expected an unclosed env error, got {:?}", other.map(|_| ())),
    }
}
