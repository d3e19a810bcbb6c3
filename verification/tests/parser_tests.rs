use nginxlint::parser::{find_blocks_recursive, find_directives_direct, find_directives_recursive, parse, tokenize, Item};

#[test]
fn tokenize_skips_comments_and_whitespace() {
    let toks = tokenize("# comment\nfoo bar;\n");
    let text: Vec<&str> = toks.iter().map(|t| t.text.as_str()).collect();
    assert_eq!(text, vec!["foo", "bar", ";"]);
}

#[test]
fn tokenize_handles_quoted_strings_with_spaces() {
    let toks = tokenize(r#"add_header X-Test "hello world";"#);
    let text: Vec<&str> = toks.iter().map(|t| t.text.as_str()).collect();
    assert_eq!(text, vec!["add_header", "X-Test", "hello world", ";"]);
}

#[test]
fn parse_flat_directive() {
    let items = parse("worker_processes auto;");
    assert_eq!(items.len(), 1);
    match &items[0] {
        Item::Directive(d) => {
            assert_eq!(d.name, "worker_processes");
            assert_eq!(d.args, vec!["auto".to_string()]);
        }
        _ => panic!("expected a directive"),
    }
}

#[test]
fn parse_nested_blocks() {
    let cfg = r#"
        http {
            server {
                listen 80;
                location / {
                    proxy_pass http://backend;
                }
            }
        }
    "#;
    let items = parse(cfg);
    let http = match &items[0] {
        Item::Block(b) => b,
        _ => panic!("expected http block"),
    };
    assert_eq!(http.name, "http");
    let server = match &http.body[0] {
        Item::Block(b) => b,
        _ => panic!("expected server block"),
    };
    assert_eq!(server.name, "server");
    assert_eq!(server.body.len(), 2);
}

#[test]
fn parse_block_with_args() {
    let items = parse("location /api { proxy_pass http://backend; }");
    match &items[0] {
        Item::Block(b) => {
            assert_eq!(b.name, "location");
            assert_eq!(b.args, vec!["/api".to_string()]);
        }
        _ => panic!("expected a block"),
    }
}

#[test]
fn line_numbers_track_across_multiple_lines() {
    let cfg = "server {\n  listen 80;\n  server_name example.com;\n}";
    let items = parse(cfg);
    let server = match &items[0] {
        Item::Block(b) => b,
        _ => panic!("expected server block"),
    };
    assert_eq!(server.line, 1);
    match &server.body[0] {
        Item::Directive(d) => assert_eq!(d.line, 2),
        _ => panic!("expected directive"),
    }
    match &server.body[1] {
        Item::Directive(d) => assert_eq!(d.line, 3),
        _ => panic!("expected directive"),
    }
}

#[test]
fn find_directives_recursive_descends_into_locations() {
    let cfg = r#"
        server {
            location / {
                add_header X-Frame-Options DENY;
            }
        }
    "#;
    let items = parse(cfg);
    let server = match &items[0] {
        Item::Block(b) => b,
        _ => panic!(),
    };
    let found = find_directives_recursive(&server.body, "add_header");
    assert_eq!(found.len(), 1);
    assert_eq!(found[0].args[0], "X-Frame-Options");
}

#[test]
fn find_directives_direct_does_not_descend() {
    let cfg = r#"
        server {
            client_max_body_size 10m;
            location / {
                client_max_body_size 20m;
            }
        }
    "#;
    let items = parse(cfg);
    let server = match &items[0] {
        Item::Block(b) => b,
        _ => panic!(),
    };
    let found = find_directives_direct(&server.body, "client_max_body_size");
    assert_eq!(found.len(), 1);
    assert_eq!(found[0].args[0], "10m");
}

#[test]
fn find_blocks_recursive_finds_nested_servers() {
    let cfg = r#"
        http {
            server { listen 80; }
            server { listen 443 ssl; }
        }
    "#;
    let items = parse(cfg);
    let servers = find_blocks_recursive(&items, "server");
    assert_eq!(servers.len(), 2);
}

#[test]
fn empty_input_parses_to_empty_list() {
    let items = parse("");
    assert!(items.is_empty());
}

#[test]
fn unterminated_trailing_directive_is_dropped_not_fabricated() {
    // A config missing its final semicolon shouldn't panic or invent
    // a phantom directive.
    let items = parse("server { listen 80");
    let server = match &items[0] {
        Item::Block(b) => b,
        _ => panic!(),
    };
    assert!(server.body.is_empty());
}
