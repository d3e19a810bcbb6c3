use nginxlint::parser::parse;
use nginxlint::rules::lint;

#[test]
fn detects_missing_both_security_headers() {
    let items = parse("server { listen 80; server_name example.com; }");
    let findings = lint(&items);
    let rules: Vec<&str> = findings.iter().map(|f| f.rule).collect();
    assert_eq!(
        rules
            .iter()
            .filter(|r| **r == "missing-security-header")
            .count(),
        2
    );
}

#[test]
fn present_headers_suppress_the_finding() {
    let items = parse(
        r#"server {
            listen 80;
            add_header X-Frame-Options DENY;
            add_header X-Content-Type-Options nosniff;
        }"#,
    );
    let findings = lint(&items);
    assert!(!findings.iter().any(|f| f.rule == "missing-security-header"));
}

#[test]
fn headers_in_nested_location_still_count() {
    let items = parse(
        r#"server {
            listen 80;
            location / {
                add_header X-Frame-Options DENY;
                add_header X-Content-Type-Options nosniff;
            }
        }"#,
    );
    let findings = lint(&items);
    assert!(!findings.iter().any(|f| f.rule == "missing-security-header"));
}

#[test]
fn server_tokens_on_is_flagged() {
    let items = parse("http { server_tokens on; server { listen 80; } }");
    let findings = lint(&items);
    assert!(findings.iter().any(|f| f.rule == "server-tokens-on"));
}

#[test]
fn server_tokens_off_is_not_flagged() {
    let items = parse("http { server_tokens off; server { listen 80; } }");
    let findings = lint(&items);
    assert!(!findings.iter().any(|f| f.rule == "server-tokens-on"));
}

#[test]
fn missing_ssl_protocols_flagged_when_cert_present() {
    let items = parse(
        r#"server {
            listen 443 ssl;
            server_name example.com;
            ssl_certificate /etc/ssl/cert.pem;
            ssl_certificate_key /etc/ssl/key.pem;
        }"#,
    );
    let findings = lint(&items);
    assert!(findings.iter().any(|f| f.rule == "missing-ssl-protocols"));
}

#[test]
fn weak_ssl_protocol_flagged() {
    let items = parse(
        r#"server {
            listen 443 ssl;
            ssl_certificate /etc/ssl/cert.pem;
            ssl_protocols TLSv1 TLSv1.1 TLSv1.2;
        }"#,
    );
    let findings = lint(&items);
    let f = findings
        .iter()
        .find(|f| f.rule == "weak-ssl-protocol")
        .unwrap();
    assert!(f.message.contains("TLSv1"));
    assert!(f.message.contains("TLSv1.1"));
}

#[test]
fn modern_ssl_protocols_not_flagged() {
    let items = parse(
        r#"server {
            listen 443 ssl;
            ssl_certificate /etc/ssl/cert.pem;
            ssl_protocols TLSv1.2 TLSv1.3;
        }"#,
    );
    let findings = lint(&items);
    assert!(!findings
        .iter()
        .any(|f| f.rule == "weak-ssl-protocol" || f.rule == "missing-ssl-protocols"));
}

#[test]
fn no_cert_means_no_ssl_protocol_findings_at_all() {
    let items = parse("server { listen 80; }");
    let findings = lint(&items);
    assert!(!findings.iter().any(|f| f.rule.contains("ssl-protocol")));
}

#[test]
fn proxy_location_without_body_size_is_flagged() {
    let items = parse(
        r#"server {
            listen 80;
            location /upload {
                proxy_pass http://backend;
            }
        }"#,
    );
    let findings = lint(&items);
    assert!(findings
        .iter()
        .any(|f| f.rule == "missing-client-max-body-size"));
}

#[test]
fn body_size_set_on_location_suppresses_finding() {
    let items = parse(
        r#"server {
            listen 80;
            location /upload {
                client_max_body_size 50m;
                proxy_pass http://backend;
            }
        }"#,
    );
    let findings = lint(&items);
    assert!(!findings
        .iter()
        .any(|f| f.rule == "missing-client-max-body-size"));
}

#[test]
fn body_size_set_on_server_suppresses_all_locations() {
    let items = parse(
        r#"server {
            listen 80;
            client_max_body_size 50m;
            location /upload {
                proxy_pass http://backend;
            }
            location /api {
                fastcgi_pass unix:/run/php.sock;
            }
        }"#,
    );
    let findings = lint(&items);
    assert!(!findings
        .iter()
        .any(|f| f.rule == "missing-client-max-body-size"));
}

#[test]
fn static_only_location_is_not_flagged_for_body_size() {
    let items = parse(
        r#"server {
            listen 80;
            location / {
                root /var/www;
            }
        }"#,
    );
    let findings = lint(&items);
    assert!(!findings
        .iter()
        .any(|f| f.rule == "missing-client-max-body-size"));
}

#[test]
fn wildcard_server_name_with_ssl_is_flagged() {
    let items = parse(
        r#"server {
            listen 443 ssl;
            server_name *.example.com;
            ssl_certificate /etc/ssl/cert.pem;
            ssl_protocols TLSv1.2 TLSv1.3;
        }"#,
    );
    let findings = lint(&items);
    assert!(findings
        .iter()
        .any(|f| f.rule == "wildcard-server-name-with-ssl"));
}

#[test]
fn wildcard_server_name_without_ssl_is_not_flagged() {
    let items = parse(
        r#"server {
            listen 80;
            server_name *.example.com;
        }"#,
    );
    let findings = lint(&items);
    assert!(!findings
        .iter()
        .any(|f| f.rule == "wildcard-server-name-with-ssl"));
}

#[test]
fn exact_server_name_with_ssl_is_not_flagged() {
    let items = parse(
        r#"server {
            listen 443 ssl;
            server_name example.com;
            ssl_certificate /etc/ssl/cert.pem;
            ssl_protocols TLSv1.2 TLSv1.3;
        }"#,
    );
    let findings = lint(&items);
    assert!(!findings
        .iter()
        .any(|f| f.rule == "wildcard-server-name-with-ssl"));
}

#[test]
fn fully_clean_server_produces_no_findings() {
    let items = parse(
        r#"http {
            server_tokens off;
            server {
                listen 443 ssl;
                server_name example.com;
                ssl_certificate /etc/ssl/cert.pem;
                ssl_certificate_key /etc/ssl/key.pem;
                ssl_protocols TLSv1.2 TLSv1.3;
                client_max_body_size 10m;
                add_header X-Frame-Options DENY;
                add_header X-Content-Type-Options nosniff;
                location / {
                    proxy_pass http://backend;
                }
            }
        }"#,
    );
    let findings = lint(&items);
    assert!(
        findings.is_empty(),
        "expected no findings, got {findings:?}"
    );
}

#[test]
fn multiple_servers_are_each_checked_independently() {
    let items = parse(
        r#"http {
            server {
                listen 80;
                server_name a.example.com;
            }
            server {
                listen 443 ssl;
                server_name *.b.example.com;
                ssl_certificate /etc/ssl/cert.pem;
            }
        }"#,
    );
    let findings = lint(&items);
    // The first server: 2 missing headers. The second: 2 missing
    // headers + missing ssl_protocols + wildcard-with-ssl.
    assert_eq!(
        findings
            .iter()
            .filter(|f| f.rule == "missing-security-header")
            .count(),
        4
    );
    assert!(findings
        .iter()
        .any(|f| f.rule == "wildcard-server-name-with-ssl"));
    assert!(findings.iter().any(|f| f.rule == "missing-ssl-protocols"));
}
