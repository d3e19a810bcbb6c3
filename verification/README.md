# nginxlint

Lints an nginx config file for the misconfigurations that bite in
production: missing security headers, `server_tokens on`, a TLS server
without (or with weak) `ssl_protocols`, a wildcard `server_name` on a TLS
server, and a proxying `location` with no `client_max_body_size`.

The library is written in Verus and verified:

- `src/text.rs` — character helpers: Unicode whitespace, ASCII lower case,
  decimal numbers, joining, lexicographic order.
- `src/parser.rs` — the tokenizer and the block/directive parser, each
  specified by a spec function over the input's characters, and the
  `find_*` queries over parsed items.
- `src/parser_laws.rs` — properties of the tokenizer and parser: where
  token lines come from, how plain text splits into tokens, line order in
  the parsed tree, and direct versus recursive directive queries.
- `src/rules.rs` — the five rules and `lint`, each specified over the
  parsed items' views; `lint` sorts by line and rule (a stable sort).
- `src/lib.rs` — the text report and the exit status.

The `law_*` proof functions state properties of the library as a whole:
`lint`'s output is sorted, a permutation of all rule findings, stable, and
carries each rule's severity; each rule is silent exactly on a correctly
configured server; a token's line is 1 plus the newlines before it, and
line numbers never decrease through tokens or through the parsed tree in
pre-order.

`app/main.rs` is the command line: it reads the file (or stdin), runs
`parse`, `lint` and `render`, prints the report and exits with
`exit_code`.

    nginxlint /etc/nginx/sites-enabled/app.conf
    cat app.conf | nginxlint
    nginxlint app.conf --no-fail
