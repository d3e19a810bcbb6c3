use nginxlint::parser::{find_blocks_recursive, find_directives_direct, find_directives_recursive, parse, parse_items, tokenize, Item};
use nginxlint::rules::{
    check_missing_body_size_limit, check_missing_security_headers, check_server_tokens, check_ssl_protocols,
    check_wildcard_server_name_with_ssl, lint, server_context, server_listens_ssl, server_names, Finding, Severity,
};
use nginxlint::text::{chars_lt, chars_of, is_whitespace, push_decimal, str_eq, to_ascii_lowercase};
use nginxlint::{exit_code, render};

fn texts(input: &str) -> Vec<String> {
    tokenize(input).into_iter().map(|t| t.text).collect()
}

fn server_body(cfg: &str) -> Vec<Item> {
    let items = parse(cfg);
    match items.into_iter().next() {
        Some(Item::Block(b)) => b.body,
        _ => panic!("expected a block"),
    }
}

fn finding(rule: &'static str, severity: Severity, line: usize) -> Finding {
    Finding { rule, severity, line, context: "ctx".to_string(), message: "msg".to_string() }
}

#[test]
fn tokenize_tracks_lines_of_tokens() {
    let toks = tokenize("a;\n\n  b \"x\ny\" c;\n# end");
    let lines: Vec<usize> = toks.iter().map(|t| t.line).collect();
    let text: Vec<&str> = toks.iter().map(|t| t.text.as_str()).collect();
    assert_eq!(text, vec!["a", ";", "b", "x\ny", "c", ";"]);
    assert_eq!(lines, vec![1, 1, 3, 3, 4, 4]);
}

#[test]
fn tokenize_single_quotes_and_unterminated_quote() {
    assert_eq!(texts("a 'b c' \"d"), vec!["a", "b c", "d"]);
}

#[test]
fn tokenize_words_stop_at_punctuation_and_comments() {
    assert_eq!(texts("a{b}c;d#e\nf"), vec!["a", "{", "b", "}", "c", ";", "d", "f"]);
}

#[test]
fn tokenize_words_keep_quotes_inside() {
    assert_eq!(texts("a\"b c\";"), vec!["a\"b", "c\"", ";"]);
}

#[test]
fn tokenize_treats_unicode_whitespace_as_separator() {
    assert_eq!(texts("a\u{3000}b\u{a0}c\td"), vec!["a", "b", "c", "d"]);
}

#[test]
fn tokenize_comment_without_newline_ends_input() {
    assert_eq!(texts("a; # trailing"), vec!["a", ";"]);
}

#[test]
fn whitespace_classification_matches_std() {
    for code in 0u32..=0x10FFFF {
        if let Some(c) = char::from_u32(code) {
            assert_eq!(is_whitespace(c), c.is_whitespace(), "{code:x}");
        }
    }
}

#[test]
fn token_lines_never_decrease() {
    let toks = tokenize("a\nb 'c\n\nd' e\n{ f; }\n");
    assert!(toks.iter().all(|t| t.line >= 1));
    assert!(toks.windows(2).all(|w| w[0].line <= w[1].line));
}

#[test]
fn parse_skips_empty_statements_and_reads_nameless_blocks() {
    let items = parse(";; { listen 80; }");
    assert_eq!(items.len(), 1);
    match &items[0] {
        Item::Block(b) => {
            assert_eq!(b.name, "");
            assert!(b.args.is_empty());
            assert_eq!(b.line, 1);
            assert_eq!(b.body.len(), 1);
        }
        _ => panic!("expected a block"),
    }
}

#[test]
fn parse_stray_closing_brace_ends_top_level() {
    let items = parse("a 1; } b 2;");
    assert_eq!(items.len(), 1);
}

#[test]
fn parse_quoted_brace_closes_block() {
    let items = parse("server { \"}\" listen 80; }");
    match &items[0] {
        Item::Block(b) => assert!(b.body.is_empty()),
        _ => panic!("expected a block"),
    }
    assert_eq!(items.len(), 2);
}

#[test]
fn parse_directive_args_and_line() {
    let items = parse("\n\nlisten 443 ssl http2;");
    match &items[0] {
        Item::Directive(d) => {
            assert_eq!(d.name, "listen");
            assert_eq!(d.args, vec!["443".to_string(), "ssl".to_string(), "http2".to_string()]);
            assert_eq!(d.line, 3);
        }
        _ => panic!("expected a directive"),
    }
}

#[test]
fn direct_results_are_among_recursive_results() {
    let items = parse("a 1; b { a 2; } a 3;");
    let direct = find_directives_direct(&items, "a");
    let recursive = find_directives_recursive(&items, "a");
    assert_eq!(direct.len(), 2);
    assert_eq!(recursive.len(), 3);
    for d in direct {
        assert!(recursive.iter().any(|r| std::ptr::eq(*r, d)));
    }
    assert!(recursive.iter().all(|d| d.name == "a"));
    let args: Vec<&str> = recursive.iter().map(|d| d.args[0].as_str()).collect();
    assert_eq!(args, vec!["1", "2", "3"]);
}

#[test]
fn blocks_are_found_before_their_nested_blocks() {
    let items = parse("location /a { location /b { } } location /c { }");
    let found = find_blocks_recursive(&items, "location");
    let args: Vec<&str> = found.iter().map(|b| b.args[0].as_str()).collect();
    assert_eq!(args, vec!["/a", "/b", "/c"]);
    assert!(found.iter().all(|b| b.name == "location"));
}

#[test]
fn security_header_names_match_without_case() {
    let body = server_body("server { add_header x-FRAME-options DENY; add_header X-Content-Type-Options nosniff; }");
    assert!(check_missing_security_headers(&body, 1).is_empty());
}

#[test]
fn security_header_finding_text() {
    let body = server_body("server { server_name a.test b.test; add_header X-Frame-Options DENY; }");
    let found = check_missing_security_headers(&body, 7);
    assert_eq!(found.len(), 1);
    assert_eq!(found[0].rule, "missing-security-header");
    assert_eq!(found[0].severity, Severity::Warning);
    assert_eq!(found[0].line, 7);
    assert_eq!(found[0].context, "server a.test b.test (line 7)");
    assert_eq!(
        found[0].message,
        "no `add_header X-Content-Type-Options` found anywhere in this server block or its locations"
    );
}

#[test]
fn server_context_without_names() {
    let body = server_body("server { listen 80; }");
    let found = check_missing_security_headers(&body, 12);
    assert_eq!(found[0].context, "server (line 12, no server_name)");
}

#[test]
fn server_tokens_is_case_insensitive_and_reports_each() {
    let items = parse("server_tokens ON;\nhttp {\n server_tokens on;\n server_tokens off;\n server_tokens;\n}");
    let found = check_server_tokens(&items);
    let lines: Vec<usize> = found.iter().map(|f| f.line).collect();
    assert_eq!(lines, vec![1, 3]);
    assert_eq!(found[1].context, "server_tokens (line 3)");
    assert_eq!(
        found[0].message,
        "server_tokens on leaks the nginx version in error pages and the Server header — set it to off"
    );
}

#[test]
fn weak_ssl_protocol_finding_text() {
    let body = server_body("server {\n ssl_certificate c;\n ssl_protocols TLSv1 TLSv1.2 SSLv3;\n ssl_protocols TLSv1.3;\n}");
    let found = check_ssl_protocols(&body, 1);
    assert_eq!(found.len(), 1);
    assert_eq!(found[0].rule, "weak-ssl-protocol");
    assert_eq!(found[0].severity, Severity::Error);
    assert_eq!(found[0].line, 3);
    assert_eq!(found[0].message, "ssl_protocols enables deprecated version(s): TLSv1, SSLv3");
}

#[test]
fn missing_ssl_protocols_finding_text() {
    let body = server_body("server { ssl_certificate c; }");
    let found = check_ssl_protocols(&body, 4);
    assert_eq!(found.len(), 1);
    assert_eq!(found[0].rule, "missing-ssl-protocols");
    assert_eq!(found[0].line, 4);
    assert_eq!(
        found[0].message,
        "ssl_certificate is set but ssl_protocols is not — falls back to nginx's compiled-in default, which may allow old TLS versions"
    );
}

#[test]
fn ssl_certificate_in_location_does_not_count() {
    let body = server_body("server { location / { ssl_certificate c; } }");
    assert!(check_ssl_protocols(&body, 1).is_empty());
}

#[test]
fn body_size_finding_text_for_nested_location() {
    let body = server_body(
        "server {\n server_name x.test;\n location /outer {\n  location /inner {\n   uwsgi_pass u;\n  }\n }\n}",
    );
    let found = check_missing_body_size_limit(&body, 1);
    assert_eq!(found.len(), 1);
    assert_eq!(found[0].line, 4);
    assert_eq!(found[0].context, "server x.test (line 1) / location /inner (line 4)");
    assert_eq!(found[0].severity, Severity::Warning);
}

#[test]
fn body_size_location_without_args() {
    let body = server_body("server { location { fastcgi_pass f; } }");
    let found = check_missing_body_size_limit(&body, 1);
    assert_eq!(found[0].context, "server (line 1, no server_name) / location  (line 1)");
}

#[test]
fn wildcard_finding_lists_only_wildcards() {
    let body = server_body("server { listen 443 ssl; server_name a.test *.b.test c.*; }");
    let found = check_wildcard_server_name_with_ssl(&body, 2);
    assert_eq!(found.len(), 1);
    assert_eq!(found[0].severity, Severity::Error);
    assert_eq!(found[0].context, "server a.test *.b.test c.* (line 2)");
    assert_eq!(
        found[0].message,
        "server_name *.b.test c.* is a wildcard but this server terminates SSL — the certificate almost certainly won't match every host this could receive"
    );
}

#[test]
fn wildcard_with_certificate_but_plain_listen_is_flagged() {
    let body = server_body("server { listen 80; server_name *.a.test; ssl_certificate c; }");
    assert_eq!(check_wildcard_server_name_with_ssl(&body, 1).len(), 1);
}

#[test]
fn lint_sorts_by_line_then_rule() {
    let items = parse(
        "server {\n listen 443 ssl;\n server_name *.example.com www.example.com;\n ssl_certificate c.pem;\n ssl_protocols TLSv1 TLSv1.2 SSLv3;\n}\nserver_tokens on;",
    );
    let findings = lint(&items);
    let summary: Vec<(usize, &str)> = findings.iter().map(|f| (f.line, f.rule)).collect();
    assert_eq!(
        summary,
        vec![
            (1, "missing-security-header"),
            (1, "missing-security-header"),
            (1, "wildcard-server-name-with-ssl"),
            (5, "weak-ssl-protocol"),
            (7, "server-tokens-on"),
        ]
    );
    assert!(findings[0].message.contains("X-Frame-Options"));
    assert!(findings[1].message.contains("X-Content-Type-Options"));
    assert!(findings.windows(2).all(|w| (w[0].line, w[0].rule) <= (w[1].line, w[1].rule)));
}

#[test]
fn lint_severity_follows_rule() {
    let items = parse(
        "http { server_tokens on; server { listen 443 ssl; server_name *.a; ssl_certificate c; location / { proxy_pass p; } } server { ssl_certificate c; ssl_protocols SSLv2; } }",
    );
    let findings = lint(&items);
    assert_eq!(findings.len(), 9);
    for f in &findings {
        let expected = match f.rule {
            "missing-ssl-protocols" | "weak-ssl-protocol" | "wildcard-server-name-with-ssl" => Severity::Error,
            _ => Severity::Warning,
        };
        assert_eq!(f.severity, expected);
    }
}

#[test]
fn render_exact_report() {
    let findings = vec![finding("r1", Severity::Error, 1), finding("r2", Severity::Warning, 12)];
    let out = render(&findings, "a.conf");
    assert_eq!(
        out,
        "a.conf: 2 finding(s)\n\n[error] r1 — ctx (1)\n    msg\n[warning] r2 — ctx (12)\n    msg\n\n1 error(s), 1 warning(s)\n"
    );
}

#[test]
fn render_exact_clean_report() {
    assert_eq!(render(&[], "<stdin>"), "<stdin>: clean, no findings\n");
}

#[test]
fn exit_code_follows_the_worst_severity() {
    let warn = vec![finding("r", Severity::Warning, 1)];
    let err = vec![finding("r", Severity::Warning, 1), finding("r", Severity::Error, 2)];
    assert_eq!(exit_code(&[], false), 0);
    assert_eq!(exit_code(&warn, false), 1);
    assert_eq!(exit_code(&err, false), 2);
    assert_eq!(exit_code(&err, true), 0);
}

#[test]
fn severity_words() {
    assert_eq!(Severity::Warning.to_string(), "warning");
    assert_eq!(Severity::Error.to_string(), "error");
}

#[test]
fn text_helpers() {
    let mut s = String::from("n=");
    push_decimal(&mut s, 0);
    push_decimal(&mut s, 10907);
    assert_eq!(s, "n=010907");
    for sample in ["AbC-Ü", "X-Frame-Options", "", "ÀZ@[`{"] {
        assert_eq!(to_ascii_lowercase(sample), sample.to_ascii_lowercase());
    }
    assert!(str_eq("añb", "añb"));
    assert!(!str_eq("ab", "abc"));
    assert_eq!(chars_of("añb"), vec!['a', 'ñ', 'b']);
    assert!(chars_lt(&['a'], &['a', 'b']));
    assert!(chars_lt(&['a', 'b'], &['b']));
    assert!(!chars_lt(&['b'], &['a', 'z']));
    assert!(!chars_lt(&['a'], &['a']));
}

#[test]
fn cloned_items_are_equal() {
    let items = parse("http { server { listen 443 ssl; location /a { proxy_pass p; } } }");
    let copy: Vec<Item> = items.iter().map(|i| i.clone()).collect();
    assert_eq!(copy, items);
}

#[test]
fn report_counts_warnings_as_non_errors() {
    let findings = vec![
        finding("a", Severity::Warning, 1),
        finding("b", Severity::Warning, 2),
        finding("c", Severity::Error, 3),
    ];
    assert!(render(&findings, "x").ends_with("\n1 error(s), 2 warning(s)\n"));
}

#[test]
fn token_line_is_one_plus_newlines_before_its_start() {
    let input = "a\n'b\nc' d\n\n# x\n{ e";
    let toks = tokenize(input);
    let chars: Vec<char> = input.chars().collect();
    let starts = [0usize, 2, 8, 16, 18];
    assert_eq!(toks.len(), starts.len());
    for (t, &st) in toks.iter().zip(starts.iter()) {
        let before = chars[..st].iter().filter(|c| **c == '\n').count();
        assert_eq!(t.line, 1 + before);
    }
}

#[test]
fn plain_text_tokenizes_to_its_pieces() {
    let input = " listen 80;server{a b}  ;;x";
    let expected = vec!["listen", "80", ";", "server", "{", "a", "b", "}", ";", ";", "x"];
    assert_eq!(texts(input), expected);
    assert!(texts(input).iter().all(|t| !t.is_empty() && !t.chars().any(char::is_whitespace)));
}

fn preorder(items: &[Item], out: &mut Vec<usize>) {
    for item in items {
        match item {
            Item::Directive(d) => out.push(d.line),
            Item::Block(b) => {
                out.push(b.line);
                preorder(&b.body, out);
            }
        }
    }
}

#[test]
fn parsed_lines_never_decrease_in_preorder() {
    let input = "a;\nhttp {\n server { listen 80;\n }\n b 'x\ny';\n}\nc;\n";
    let items = parse(input);
    let mut lines = Vec::new();
    preorder(&items, &mut lines);
    assert_eq!(lines, vec![1, 2, 3, 3, 5, 8]);
    let max = 1 + input.matches('\n').count();
    assert!(lines.iter().all(|l| *l >= 1 && *l <= max));
}

#[test]
fn direct_matches_keep_their_order_among_recursive_ones() {
    let items = parse("a 1; b { a 2; } a 3; c { a 4; } a 5;");
    let direct: Vec<&str> = find_directives_direct(&items, "a").iter().map(|d| d.args[0].as_str()).collect();
    let recursive: Vec<&str> = find_directives_recursive(&items, "a").iter().map(|d| d.args[0].as_str()).collect();
    assert_eq!(direct, vec!["1", "3", "5"]);
    assert_eq!(recursive, vec!["1", "2", "3", "4", "5"]);
    let flat = parse("a 1; x 0; a 2;");
    let d: Vec<&str> = find_directives_direct(&flat, "a").iter().map(|d| d.args[0].as_str()).collect();
    let r: Vec<&str> = find_directives_recursive(&flat, "a").iter().map(|d| d.args[0].as_str()).collect();
    assert_eq!(d, r);
}

#[test]
fn parse_items_moves_the_position() {
    let toks = tokenize("a; } b;");
    let mut pos = 0;
    let items = parse_items(&toks, &mut pos);
    assert_eq!(items.len(), 1);
    assert_eq!(pos, 3);
    let rest = parse_items(&toks, &mut pos);
    assert_eq!(rest.len(), 1);
    assert_eq!(pos, 5);
    let none = parse_items(&toks, &mut pos);
    assert!(none.is_empty());
    assert_eq!(pos, 5);
}

#[test]
fn server_helpers_look_at_the_top_level_only() {
    let body = server_body("server { server_name a b; location / { server_name c; listen 443 ssl; } server_name d; listen 80; }");
    assert_eq!(server_names(&body), vec!["a".to_string(), "b".to_string(), "d".to_string()]);
    assert!(!server_listens_ssl(&body));
    assert_eq!(server_context(&server_names(&body), 9), "server a b d (line 9)");
    let tls = server_body("server { listen 443 ssl; }");
    assert!(server_listens_ssl(&tls));
    let cert = server_body("server { ssl_certificate c; }");
    assert!(server_listens_ssl(&cert));
    let almost = server_body("server { listen 443 SSL; listen sslx; }");
    assert!(!server_listens_ssl(&almost));
}
