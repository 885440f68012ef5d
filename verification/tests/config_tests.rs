use tiny_proxy::config::net::{IpAddress, Ipv4Octets, ListenAddr};
use tiny_proxy::config::{
    extract_hostname, parse_duration, resolve_listen_addr, tls_redirect_port, Config, Directive,
};
use tiny_proxy::config::address::resolve_site_addr;
use tiny_proxy::error::ProxyError;

#[test]
fn test_resolve_listen_addr_ip_port() {
    let addr = resolve_listen_addr("0.0.0.0:8443").unwrap();
    assert_eq!(addr, ListenAddr::V4 { ip: Ipv4Octets(0, 0, 0, 0), port: 8443 });
}

#[test]
fn test_resolve_listen_addr_hostname_port() {
    let addr = resolve_listen_addr("example.com:443").unwrap();
    assert_eq!(addr.port(), 443);
    assert_eq!(addr.ip(), IpAddress::V4(Ipv4Octets(0, 0, 0, 0)));
}

#[test]
fn test_resolve_listen_addr_localhost() {
    let addr = resolve_listen_addr("localhost:8080").unwrap();
    assert_eq!(addr.port(), 8080);
}

#[test]
fn test_resolve_listen_addr_invalid() {
    assert!(resolve_listen_addr("no-port-here").is_err());
}

#[test]
fn test_resolve_listen_addr_error_text() {
    let e = resolve_listen_addr("no-port-here").unwrap_err();
    assert_eq!(e, "Cannot parse address: no-port-here");
}

#[test]
fn test_extract_hostname_ipv4() {
    assert_eq!(extract_hostname("example.com:443"), "example.com");
}

#[test]
fn test_extract_hostname_ipv6() {
    assert_eq!(extract_hostname("[::1]:443"), "::1");
}

#[test]
fn test_extract_hostname_ip() {
    assert_eq!(extract_hostname("0.0.0.0:9090"), "0.0.0.0");
}

#[test]
fn test_extract_hostname_localhost() {
    assert_eq!(extract_hostname("localhost:8080"), "localhost");
}

#[test]
fn test_tls_redirect_port() {
    assert_eq!(tls_redirect_port(443), 80);
    assert_eq!(tls_redirect_port(8443), 8080);
    assert_eq!(tls_redirect_port(44300), 43937);
}

#[test]
fn test_tls_redirect_port_saturates() {
    assert_eq!(tls_redirect_port(80), 80);
    assert_eq!(tls_redirect_port(65535), 65172);
}

#[test]
fn test_parse_duration_seconds() {
    assert_eq!(parse_duration("30").unwrap(), 30);
    assert_eq!(parse_duration("30s").unwrap(), 30);
}

#[test]
fn test_parse_duration_minutes() {
    assert_eq!(parse_duration("5m").unwrap(), 300);
}

#[test]
fn test_parse_duration_hours() {
    assert_eq!(parse_duration("2h").unwrap(), 7200);
}

#[test]
fn test_parse_duration_days() {
    assert_eq!(parse_duration("1d").unwrap(), 86400);
}

#[test]
fn test_parse_duration_invalid() {
    assert!(parse_duration("").is_err());
    assert!(parse_duration("abc").is_err());
    assert!(parse_duration("10x").is_err());
}

#[test]
fn test_parse_duration_error_is_parse_error() {
    match parse_duration("10x") {
        Err(ProxyError::Parse(_)) => {}
        other => panic!("expected a parse error, got {:?}", other),
    }
}

#[test]
fn test_parse_reverse_proxy_simple() {
    let config = "localhost:8080 {\n    reverse_proxy http://backend:9001\n}";
    let result = Config::from_str(config).unwrap();
    let site = result.get_site("localhost:8080").unwrap();

    assert_eq!(site.directives.len(), 1);
    match &site.directives[0] {
        Directive::ReverseProxy { to, connect_timeout, read_timeout, .. } => {
            assert_eq!(to, "http://backend:9001");
            assert_eq!(*connect_timeout, None);
            assert_eq!(*read_timeout, None);
        }
        _ => panic!("Expected ReverseProxy directive"),
    }
}

#[test]
fn test_parse_reverse_proxy_with_timeouts() {
    let config = r#"localhost:8080 {
    reverse_proxy http://backend:9001 {
        connect_timeout 10s
        read_timeout 5m
    }
}"#;
    let result = Config::from_str(config).unwrap();
    let site = result.get_site("localhost:8080").unwrap();

    assert_eq!(site.directives.len(), 1);
    match &site.directives[0] {
        Directive::ReverseProxy { to, connect_timeout, read_timeout, .. } => {
            assert_eq!(to, "http://backend:9001");
            assert_eq!(*connect_timeout, Some(10));
            assert_eq!(*read_timeout, Some(300));
        }
        _ => panic!("Expected ReverseProxy directive"),
    }
}

#[test]
fn test_parse_reverse_proxy_with_connect_timeout_only() {
    let config = r#"localhost:8080 {
    reverse_proxy http://backend:9001 {
        connect_timeout 5s
    }
}"#;
    let result = Config::from_str(config).unwrap();
    let site = result.get_site("localhost:8080").unwrap();

    match &site.directives[0] {
        Directive::ReverseProxy { connect_timeout, read_timeout, .. } => {
            assert_eq!(*connect_timeout, Some(5));
            assert_eq!(*read_timeout, None);
        }
        _ => panic!("Expected ReverseProxy directive"),
    }
}

#[test]
fn test_parse_reverse_proxy_block_rejects_unknown_directive() {
    let config = r#"localhost:8080 {
    reverse_proxy http://backend:9001 {
        unknown_setting 42
    }
}"#;
    let result = Config::from_str(config);
    assert!(result.is_err());
    let err_msg = result.unwrap_err().message();
    assert!(err_msg.contains("Unexpected directive"), "{}", err_msg);
}

#[test]
fn test_parse_tls_directive() {
    let config = r#"example.com:443 {
    tls /etc/ssl/cert.pem /etc/ssl/key.pem
    reverse_proxy backend:8080
}"#;
    let result = Config::from_str(config).unwrap();
    let site = result.get_site("example.com:443").unwrap();

    assert!(site.tls.is_some());
    let tls = site.tls.as_ref().unwrap();
    assert_eq!(tls.cert_path, "/etc/ssl/cert.pem");
    assert_eq!(tls.key_path, "/etc/ssl/key.pem");

    assert_eq!(site.directives.len(), 1);
    match &site.directives[0] {
        Directive::ReverseProxy { to, .. } => {
            assert_eq!(to, "backend:8080");
        }
        _ => panic!("Expected ReverseProxy directive"),
    }
}

#[test]
fn test_parse_tls_missing_cert_path() {
    let config = "example.com:443 {\n    tls\n}";
    let result = Config::from_str(config);
    assert!(result.is_err());
    let err_msg = result.unwrap_err().message();
    assert!(err_msg.contains("Missing cert path"), "{}", err_msg);
}

#[test]
fn test_parse_tls_missing_key_path() {
    let config = "example.com:443 {\n    tls /etc/ssl/cert.pem\n}";
    let result = Config::from_str(config);
    assert!(result.is_err());
    let err_msg = result.unwrap_err().message();
    assert!(err_msg.contains("Missing key path"), "{}", err_msg);
}

#[test]
fn test_parse_tls_duplicate_rejected() {
    let config = r#"example.com:443 {
    tls /a/cert.pem /a/key.pem
    tls /b/cert.pem /b/key.pem
    reverse_proxy backend:8080
}"#;
    let result = Config::from_str(config);
    assert!(result.is_err());
    let err_msg = result.unwrap_err().message();
    assert!(err_msg.contains("Duplicate tls"), "{}", err_msg);
}

#[test]
fn test_parse_mixed_tls_and_non_tls_sites() {
    let config = r#"localhost:8080 {
    reverse_proxy backend:3000
}
example.com:443 {
    tls /etc/ssl/cert.pem /etc/ssl/key.pem
    reverse_proxy backend:8080
}"#;
    let result = Config::from_str(config).unwrap();

    let http_site = result.get_site("localhost:8080").unwrap();
    assert!(http_site.tls.is_none());

    let https_site = result.get_site("example.com:443").unwrap();
    assert!(https_site.tls.is_some());
}

#[test]
fn test_parse_duplicate_address_rejected() {
    let config = r#"example.com:443 {
    tls /a/cert.pem /a/key.pem
    reverse_proxy backend:8080
}
example.com:443 {
    reverse_proxy backend:9000
}"#;
    let result = Config::from_str(config);
    assert!(result.is_err());
    let err_msg = result.unwrap_err().message();
    assert!(
        err_msg.contains("Duplicate site address"),
        "Expected 'Duplicate site address' error, got: {}",
        err_msg
    );
}

#[test]
fn test_parse_mixed_tls_on_same_listen_socket_rejected() {
    let config = r#"example.com:443 {
    tls /etc/ssl/cert.pem /etc/ssl/key.pem
    reverse_proxy backend:8080
}
0.0.0.0:443 {
    reverse_proxy backend:3000
}"#;
    let result = Config::from_str(config);
    assert!(result.is_err());
    let err_msg = result.unwrap_err().message();
    assert!(err_msg.contains("Mixed TLS and non-TLS"), "got: {}", err_msg);
}

#[test]
fn test_parse_duplicate_sni_on_same_listen_socket_rejected() {
    let config = r#"Example.com:8443 {
    tls /a/cert.pem /a/key.pem
    respond 200 "A"
}
example.com:8443 {
    tls /b/cert.pem /b/key.pem
    respond 200 "B"
}"#;
    let result = Config::from_str(config);
    assert!(result.is_err());
    let err_msg = result.unwrap_err().message();
    assert!(err_msg.contains("Duplicate SNI hostname"), "got: {}", err_msg);
}

#[test]
fn test_parse_simple_reverse_proxy() {
    let config_str = r#"
localhost:8080 {
    reverse_proxy backend:3000
}
"#;
    let config = Config::from_str(config_str).expect("Failed to parse config");
    assert_eq!(config.site_count(), 1);
    let site_config = config.get_site("localhost:8080").expect("Site not found");
    assert_eq!(site_config.address, "localhost:8080");
    assert_eq!(site_config.directives.len(), 1);
    match &site_config.directives[0] {
        Directive::ReverseProxy { to, .. } => {
            assert_eq!(to, "backend:3000");
        }
        _ => panic!("Expected ReverseProxy directive"),
    }
}

#[test]
fn test_parse_handle_path() {
    let config_str = r#"
localhost:8080 {
    handle_path /api/* {
        reverse_proxy api:8081
    }
    reverse_proxy backend:3000
}
"#;
    let config = Config::from_str(config_str).expect("Failed to parse config");
    assert_eq!(config.site_count(), 1);
    let site_config = config.get_site("localhost:8080").expect("Site not found");
    assert_eq!(site_config.directives.len(), 2);
    match &site_config.directives[0] {
        Directive::HandlePath { pattern, directives } => {
            assert_eq!(pattern, "/api/*");
            assert_eq!(directives.len(), 1);
            match &directives[0] {
                Directive::ReverseProxy { to, .. } => {
                    assert_eq!(to, "api:8081");
                }
                _ => panic!("Expected nested ReverseProxy directive"),
            }
        }
        _ => panic!("Expected HandlePath directive"),
    }
}

#[test]
fn test_parse_method_directive() {
    let config_str = r#"
localhost:8080 {
    method GET HEAD {
        respond 200 "Hello World"
    }
    reverse_proxy backend:3000
}
"#;

    let config = Config::from_str(config_str).expect("Failed to parse config");

    let site_config = config.get_site("localhost:8080").expect("Site not found");
    assert_eq!(site_config.directives.len(), 2);

    match &site_config.directives[0] {
        Directive::Method { methods, directives } => {
            assert_eq!(methods.len(), 2);
            assert!(methods.contains(&"GET".to_string()));
            assert!(methods.contains(&"HEAD".to_string()));

            assert_eq!(directives.len(), 1);

            match &directives[0] {
                Directive::Respond { status, body } => {
                    assert_eq!(*status, 200);
                    assert_eq!(body, "Hello World");
                }
                _ => panic!("Expected nested Respond directive"),
            }
        }
        _ => panic!("Expected Method directive"),
    }
}

#[test]
fn test_parse_respond_directive() {
    let config_str = r#"
localhost:8080 {
    respond 200 "Service Unavailable"
}
"#;

    let config = Config::from_str(config_str).expect("Failed to parse config");

    let site_config = config.get_site("localhost:8080").expect("Site not found");
    assert_eq!(site_config.directives.len(), 1);

    match &site_config.directives[0] {
        Directive::Respond { status, body } => {
            assert_eq!(*status, 200);
            assert_eq!(body, "Service Unavailable");
        }
        _ => panic!("Expected Respond directive"),
    }
}

#[test]
fn test_parse_quoted_words() {
    let config_str = "a.local:80 {\n    header X-Note \"two words\"\n    respond 200 \"unclosed body\n}";
    let config = Config::from_str(config_str).expect("Failed to parse config");
    let site = config.get_site("a.local:80").expect("Site not found");
    match &site.directives[0] {
        Directive::Header { name, value } => {
            assert_eq!(name, "X-Note");
            assert_eq!(value.as_deref(), Some("two words"));
        }
        _ => panic!("Expected Header directive"),
    }
    match &site.directives[1] {
        Directive::Respond { status, body } => {
            assert_eq!(*status, 200);
            assert_eq!(body, "unclosed body");
        }
        _ => panic!("Expected Respond directive"),
    }
}

#[test]
fn test_parse_header_directive() {
    let config_str = r#"
localhost:8080 {
    reverse_proxy backend:3000
    header X-Forwarded-For {remote_ip}
}
"#;
    let config = Config::from_str(config_str).expect("Failed to parse config");
    let site_config = config.get_site("localhost:8080").expect("Site not found");
    assert_eq!(site_config.directives.len(), 2);
    match &site_config.directives[1] {
        Directive::Header { name, value } => {
            assert_eq!(name, "X-Forwarded-For");
            assert_eq!(value.as_deref(), Some("{remote_ip}"));
        }
        _ => panic!("Expected Header directive"),
    }
}

#[test]
fn test_parse_uri_replace() {
    let config_str = r#"
localhost:8080 {
    uri_replace /api /
    reverse_proxy backend:3000
}
"#;
    let config = Config::from_str(config_str).expect("Failed to parse config");
    let site_config = config.get_site("localhost:8080").expect("Site not found");
    assert_eq!(site_config.directives.len(), 2);
    match &site_config.directives[0] {
        Directive::UriReplace { find, replace } => {
            assert_eq!(find, "/api");
            assert_eq!(replace, "/");
        }
        _ => panic!("Expected UriReplace directive"),
    }
}

#[test]
fn test_parse_multiple_sites() {
    let config_str = r#"
localhost:8080 {
    reverse_proxy backend:3000
}

localhost:8081 {
    reverse_proxy backend:3001
}
"#;
    let config = Config::from_str(config_str).expect("Failed to parse config");
    assert_eq!(config.site_count(), 2);
    assert!(config.contains_site("localhost:8080"));
    assert!(config.contains_site("localhost:8081"));
}

#[test]
fn test_parse_invalid_config() {
    let config_str = r#"
localhost:8080 {
    invalid_directive
}
"#;
    let result = Config::from_str(config_str);
    assert!(result.is_err(), "Expected parse error for invalid directive");
}

#[test]
fn test_parse_empty_config() {
    let config = Config::from_str("").expect("Failed to parse empty config");
    assert_eq!(config.site_count(), 0);
}

#[test]
fn test_parse_nested_handle_path() {
    let config_str = r#"
localhost:8080 {
    handle_path /api/v1/* {
        handle_path /users/* {
            reverse_proxy user-service:8001
        }
        reverse_proxy api-service:8000
    }
}
"#;
    let config = Config::from_str(config_str).expect("Failed to parse config");
    let site_config = config.get_site("localhost:8080").expect("Site not found");
    assert_eq!(site_config.directives.len(), 1);
    match &site_config.directives[0] {
        Directive::HandlePath { pattern, directives } => {
            assert_eq!(pattern, "/api/v1/*");
            assert_eq!(directives.len(), 2);
            match &directives[0] {
                Directive::HandlePath { pattern, directives } => {
                    assert_eq!(pattern, "/users/*");
                    assert_eq!(directives.len(), 1);
                    match &directives[0] {
                        Directive::ReverseProxy { to, .. } => {
                            assert_eq!(to, "user-service:8001");
                        }
                        _ => panic!("Expected nested ReverseProxy directive"),
                    }
                }
                _ => panic!("Expected nested HandlePath directive"),
            }
        }
        _ => panic!("Expected HandlePath directive"),
    }
}

#[test]
fn test_parse_multiple_headers() {
    let config_str = r#"
localhost:8080 {
    header X-Custom-Header custom-value
    header X-Another-Header another-value
    reverse_proxy backend:3000
}
"#;
    let config = Config::from_str(config_str).expect("Failed to parse config");
    let site_config = config.get_site("localhost:8080").expect("Site not found");
    assert_eq!(site_config.directives.len(), 3);
    match &site_config.directives[0] {
        Directive::Header { name, value } => {
            assert_eq!(name, "X-Custom-Header");
            assert_eq!(value.as_deref(), Some("custom-value"));
        }
        _ => panic!("Expected Header directive"),
    }
    match &site_config.directives[1] {
        Directive::Header { name, value } => {
            assert_eq!(name, "X-Another-Header");
            assert_eq!(value.as_deref(), Some("another-value"));
        }
        _ => panic!("Expected Header directive"),
    }
}

#[test]
fn test_parse_with_comments_and_whitespace() {
    let config_str = r#"
# Configuration for main site
localhost:8080 {
    # Forward to backend
    reverse_proxy backend:3000

    # Add custom headers
    header X-Proxy tiny-proxy

    # Replace URI prefix
    uri_replace /old-path /new-path
}
"#;
    let config = Config::from_str(config_str).expect("Failed to parse config");
    assert_eq!(config.site_count(), 1);
    let site_config = config.get_site("localhost:8080").expect("Site not found");
    assert_eq!(site_config.directives.len(), 3);
}

#[test]
fn test_parse_header_removal_and_respond_body() {
    let config_str = "localhost:8080 {\n    header -Authorization\n    respond 503 busy\n}";
    let config = Config::from_str(config_str).unwrap();
    let site = config.get_site("localhost:8080").unwrap();
    match &site.directives[0] {
        Directive::Header { name, value } => {
            assert_eq!(name, "Authorization");
            assert!(value.is_none());
        }
        _ => panic!("Expected Header directive"),
    }
    match &site.directives[1] {
        Directive::Respond { status, body } => {
            assert_eq!(*status, 503);
            assert_eq!(body, "busy");
        }
        _ => panic!("Expected Respond directive"),
    }
}

#[test]
fn test_error_display() {
    let err = ProxyError::Config("Test error".to_string());
    assert_eq!(err.message(), "Configuration error: Test error");
}

#[test]
fn test_result_type_alias() {
    let result: tiny_proxy::Result<String> = Ok("test".to_string());
    assert!(result.is_ok());

    let result: tiny_proxy::Result<String> = Err(ProxyError::Config("error".to_string()));
    assert!(result.is_err());
}

fn parse_error_text(config: &str) -> String {
    match Config::from_str(config) {
        Err(ProxyError::Parse(m)) => m,
        Err(e) => panic!("Expected a parse error, got {}", e.message()),
        Ok(_) => panic!("Expected a parse error"),
    }
}

#[test]
fn test_parse_unknown_directive_message() {
    let config = "localhost:8080 {\n    bogus 1\n}";
    assert_eq!(parse_error_text(config), "Unknown directive 'bogus' on line 2");
}

#[test]
fn test_parse_invalid_read_timeout_message() {
    let config = "localhost:8080 {\n  reverse_proxy http://b:1 {\n    read_timeout 5x\n  }\n}";
    assert_eq!(
        parse_error_text(config),
        "Invalid read_timeout on line 3: Parse error: Invalid duration '5x'. Use a plain number or Ns/Nm/Nh/Nd"
    );
}

#[test]
fn test_parse_unexpected_in_reverse_proxy_message() {
    let config = "localhost:8080 {\n    reverse_proxy http://b:1 {\n        retries 3\n    }\n}";
    assert_eq!(
        parse_error_text(config),
        "Unexpected directive 'retries' inside reverse_proxy block on line 3. Only connect_timeout and read_timeout are allowed."
    );
}

#[test]
fn test_parse_duplicate_tls_message() {
    let config = "a.local:443 {\n tls c k\n tls c2 k2\n}";
    assert_eq!(parse_error_text(config), "Duplicate tls directive on line 3. Only one tls per site is allowed.");
}

#[test]
fn test_parse_mixed_socket_message() {
    let config = "example.com:443 {\n tls c k\n}\n0.0.0.0:443 {\n respond 200\n}";
    assert_eq!(
        parse_error_text(config),
        "Mixed TLS and non-TLS sites on the same listen address 0.0.0.0:443 is not supported. Site '0.0.0.0:443' is plain HTTP but conflicts with another site on this socket."
    );
}

#[test]
fn test_parse_duplicate_sni_message() {
    let config = "Example.com:8443 {\n tls a k\n}\nexample.com:8443 {\n tls b k\n}";
    assert_eq!(
        parse_error_text(config),
        "Duplicate SNI hostname 'example.com' on listen address 0.0.0.0:8443 (sites 'Example.com:8443' and 'example.com:8443')"
    );
}

#[test]
fn test_parse_duplicate_site_message() {
    let config = "a.local:80 {\n}\na.local:80 {\n}";
    assert_eq!(
        parse_error_text(config),
        "Duplicate site address 'a.local:80'. Each address may appear only once in the configuration."
    );
}

#[test]
fn test_parse_unknown_block_message() {
    let config = "a.local:80 {\n  route /x {\n  }\n}";
    assert_eq!(parse_error_text(config), "Unknown block type: route");
}

#[test]
fn test_parse_multi_site_without_ports() {
    let config_str = "api.example.com {\n    reverse_proxy http://api-service:8000\n}\n\nstatic.example.com {\n    reverse_proxy http://static-service:8001\n}\n";
    let config = Config::from_str(config_str).expect("Failed to parse config");
    assert_eq!(config.site_count(), 2);
    assert!(config.get_site("api.example.com").is_some());
    assert!(config.get_site("static.example.com").is_some());
}

#[test]
fn test_resolve_site_addr_default_ports() {
    assert_eq!(
        resolve_site_addr("api.example.com", false).unwrap(),
        ListenAddr::V4 { ip: Ipv4Octets(0, 0, 0, 0), port: 80 }
    );
    assert_eq!(
        resolve_site_addr("api.example.com", true).unwrap(),
        ListenAddr::V4 { ip: Ipv4Octets(0, 0, 0, 0), port: 443 }
    );
    assert_eq!(
        resolve_site_addr("example.com:8443", true).unwrap(),
        ListenAddr::V4 { ip: Ipv4Octets(0, 0, 0, 0), port: 8443 }
    );
    assert_eq!(resolve_site_addr("bad:port", false).unwrap_err(), "Cannot parse address: bad:port");
}
