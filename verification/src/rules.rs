//! The five lint rules, each operating on a single `server` block (plus
//! everything nested under it — `location`s, mostly), and `lint`, which
//! runs them all.

use vstd::prelude::*;
use crate::parser::{
    find_blocks_recursive, find_directives_direct, find_directives_recursive, Item, ItemView,
    BlockView, DirectiveView, block_refs_view, block_view, directive_refs_view, items_view,
    spec_blocks_recursive, spec_directives_direct, spec_directives_recursive, strings_view,
};
use crate::parser_laws::{
    has_top_level_directive, law_direct_nonempty_iff_top_level, law_direct_results_are_top_level,
    law_top_level_directive_found,
};
use crate::text::{
    chars_lt, chars_of, decimal, join, lex_lt, lemma_lex_lt_asymmetric, lemma_lex_lt_irreflexive,
    lemma_lex_lt_total, lemma_lex_lt_transitive, push_decimal, push_joined, spec_ascii_lower,
    str_eq, to_ascii_lowercase,
};

verus! {

/// How bad a finding is.
#[derive(Debug, Clone, Copy, PartialEq, Eq, PartialOrd, Ord, Structural)]
pub enum Severity {
    Warning,
    Error,
}

/// The word a report prints for a severity.
pub open spec fn severity_label(s: Severity) -> Seq<char> {
    match s {
        Severity::Warning => "warning"@,
        Severity::Error => "error"@,
    }
}

impl Severity {
    /// The word a report prints for this severity.
    pub fn to_string(&self) -> (res: String)
        ensures
            res@ == severity_label(*self),
    {
        match self {
            Severity::Warning => String::from_str("warning"),
            Severity::Error => String::from_str("error"),
        }
    }
}

/// One problem found in a config: the rule that found it, its severity,
/// the line it is on, where it is (`context`) and what is wrong.
#[derive(Debug, Clone, PartialEq, Eq)]
pub struct Finding {
    pub rule: &'static str,
    pub severity: Severity,
    pub line: usize,
    pub context: String,
    pub message: String,
}

/// A finding as values.
pub struct FindingView {
    pub rule: Seq<char>,
    pub severity: Severity,
    pub line: nat,
    pub context: Seq<char>,
    pub message: Seq<char>,
}

impl View for Finding {
    type V = FindingView;

    open spec fn view(&self) -> FindingView {
        FindingView {
            rule: self.rule@,
            severity: self.severity,
            line: self.line as nat,
            context: self.context@,
            message: self.message@,
        }
    }
}

/// Each finding as values, in order.
pub open spec fn findings_view(fs: Seq<Finding>) -> Seq<FindingView> {
    fs.map_values(|f: Finding| f@)
}

/// The arguments of the given directives, one after another.
pub open spec fn all_args(ds: Seq<DirectiveView>) -> Seq<Seq<char>>
    decreases ds.len(),
{
    if ds.len() == 0 {
        seq![]
    } else {
        all_args(ds.drop_last()) + ds.last().args
    }
}

/// Every name given by a `server_name` directive directly in `body`.
pub open spec fn spec_server_names(body: Seq<ItemView>) -> Seq<Seq<char>> {
    all_args(spec_directives_direct(body, "server_name"@))
}

/// How findings name the server block at `line` with the given names.
pub open spec fn spec_server_context(names: Seq<Seq<char>>, line: nat) -> Seq<char> {
    if names.len() == 0 {
        "server (line "@ + decimal(line) + ", no server_name)"@
    } else {
        "server "@ + join(names, " "@) + " (line "@ + decimal(line) + ")"@
    }
}

/// How findings name a server block: by its server names and line.
pub fn server_context(server_name_args: &Vec<String>, line: usize) -> (ctx: String)
    ensures
        ctx@ == spec_server_context(strings_view(server_name_args@), line as nat),
{
    let mut out = String::new();
    if server_name_args.len() == 0 {
        out.append("server (line ");
        push_decimal(&mut out, line);
        out.append(", no server_name)");
    } else {
        out.append("server ");
        push_joined(&mut out, server_name_args, " ");
        out.append(" (line ");
        push_decimal(&mut out, line);
        out.append(")");
    }
    proof {
        assert(out@ =~= spec_server_context(strings_view(server_name_args@), line as nat));
    }
    out
}

/// The arguments of every `server_name` directive directly in `body`, in
/// order; `server_name`s in nested blocks do not count.
pub fn server_names(body: &[Item]) -> (names: Vec<String>)
    ensures
        strings_view(names@) == spec_server_names(items_view(body@)),
{
    let ds = find_directives_direct(body, "server_name");
    let ghost dv = directive_refs_view(ds@);
    let mut names: Vec<String> = Vec::new();
    let mut i: usize = 0;
    while i < ds.len()
        invariant
            i <= ds.len(),
            dv == directive_refs_view(ds@),
            strings_view(names@) == all_args(dv.take(i as int)),
        decreases ds.len() - i,
    {
        let d = ds[i];
        let mut k: usize = 0;
        let ghost before = strings_view(names@);
        while k < d.args.len()
            invariant
                k <= d.args.len(),
                strings_view(names@) == before + strings_view(d.args@).take(k as int),
            decreases d.args.len() - k,
        {
            let ghost prev = names@;
            let a = d.args[k].clone();
            names.push(a);
            k += 1;
            assert(strings_view(names@) =~= strings_view(prev).push(d.args@[k - 1]@));
            assert(strings_view(names@) =~= before + strings_view(d.args@).take(k as int));
        }
        i += 1;
        assert(dv.take(i as int).drop_last() =~= dv.take(i - 1));
        assert(strings_view(d.args@).take(k as int) =~= strings_view(d.args@));
    }
    assert(dv.take(i as int) =~= dv);
    names
}

/// Whether a server block terminates TLS: a `listen ... ssl` or an
/// `ssl_certificate` directly in its body.
pub open spec fn spec_listens_ssl(body: Seq<ItemView>) -> bool {
    let listens = spec_directives_direct(body, "listen"@);
    (exists|i: int, j: int|
        0 <= i < listens.len() && 0 <= j < listens[i].args.len() && listens[i].args[j] == "ssl"@)
        || spec_directives_direct(body, "ssl_certificate"@).len() > 0
}

/// Whether a server block terminates TLS: a `listen` with an `ssl`
/// argument, or an `ssl_certificate`, directly in its body.
pub fn server_listens_ssl(body: &[Item]) -> (res: bool)
    ensures
        res == spec_listens_ssl(items_view(body@)),
{
    let listens = find_directives_direct(body, "listen");
    let ghost lv = directive_refs_view(listens@);
    let mut i: usize = 0;
    while i < listens.len()
        invariant
            i <= listens.len(),
            lv == directive_refs_view(listens@),
            lv == spec_directives_direct(items_view(body@), "listen"@),
            forall|a: int, b: int| 0 <= a < i && 0 <= b < lv[a].args.len() ==> lv[a].args[b] != "ssl"@,
        decreases listens.len() - i,
    {
        let d = listens[i];
        let mut k: usize = 0;
        while k < d.args.len()
            invariant
                k <= d.args.len(),
                i < listens.len(),
                lv.len() == listens.len(),
                lv[i as int] == d@,
                lv == spec_directives_direct(items_view(body@), "listen"@),
                forall|a: int, b: int| 0 <= a < i && 0 <= b < lv[a].args.len() ==> lv[a].args[b] != "ssl"@,
                forall|b: int| 0 <= b < k ==> lv[i as int].args[b] != "ssl"@,
            decreases d.args.len() - k,
        {
            if str_eq(d.args[k].as_str(), "ssl") {
                assert(lv[i as int].args[k as int] == "ssl"@);
                assert(0 <= i < lv.len() && 0 <= k < lv[i as int].args.len());
                return true;
            }
            k += 1;
        }
        i += 1;
    }
    let certs = find_directives_direct(body, "ssl_certificate");
    certs.len() > 0
}


/// The first argument of each given directive that has one, in ASCII lower
/// case.
pub open spec fn first_args_lower(ds: Seq<DirectiveView>) -> Seq<Seq<char>>
    decreases ds.len(),
{
    if ds.len() == 0 {
        seq![]
    } else {
        first_args_lower(ds.drop_last()) + if ds.last().args.len() > 0 {
            seq![spec_ascii_lower(ds.last().args[0])]
        } else {
            seq![]
        }
    }
}

/// Whether an `add_header` for `header` (given in lower case) stands
/// anywhere in `body`, nested blocks included; header names match without
/// regard to ASCII case.
pub open spec fn header_present(body: Seq<ItemView>, header: Seq<char>) -> bool {
    first_args_lower(spec_directives_recursive(body, "add_header"@)).contains(header)
}

pub open spec fn missing_header_finding(ctx: Seq<char>, line: nat, header: Seq<char>) -> FindingView {
    FindingView {
        rule: "missing-security-header"@,
        severity: Severity::Warning,
        line,
        context: ctx,
        message: "no `add_header "@ + header
            + "` found anywhere in this server block or its locations"@,
    }
}

/// Rule 1: one warning for each of `X-Frame-Options` and
/// `X-Content-Type-Options` that no `add_header` in the server block (or
/// the blocks nested in it) sets.
pub open spec fn spec_check_missing_security_headers(body: Seq<ItemView>, line: nat) -> Seq<FindingView> {
    let ctx = spec_server_context(spec_server_names(body), line);
    (if header_present(body, "x-frame-options"@) {
        seq![]
    } else {
        seq![missing_header_finding(ctx, line, "X-Frame-Options"@)]
    }) + (if header_present(body, "x-content-type-options"@) {
        seq![]
    } else {
        seq![missing_header_finding(ctx, line, "X-Content-Type-Options"@)]
    })
}

fn contains_string(v: &Vec<String>, s: &str) -> (res: bool)
    ensures
        res == strings_view(v@).contains(s@),
{
    let mut i: usize = 0;
    while i < v.len()
        invariant
            i <= v.len(),
            forall|k: int| 0 <= k < i ==> v@[k]@ != s@,
        decreases v.len() - i,
    {
        if str_eq(v[i].as_str(), s) {
            assert(strings_view(v@)[i as int] == s@);
            return true;
        }
        i += 1;
    }
    false
}

fn missing_header(ctx: &String, line: usize, header: &str) -> (f: Finding)
    ensures
        f@ == missing_header_finding(ctx@, line as nat, header@),
{
    let mut message = String::new();
    message.append("no `add_header ");
    message.append(header);
    message.append("` found anywhere in this server block or its locations");
    Finding {
        rule: "missing-security-header",
        severity: Severity::Warning,
        line,
        context: ctx.clone(),
        message,
    }
}

/// Rule 1: missing security-relevant `add_header` directives.
pub fn check_missing_security_headers(server_body: &[Item], line: usize) -> (findings: Vec<Finding>)
    ensures
        findings_view(findings@) == spec_check_missing_security_headers(items_view(server_body@), line as nat),
{
    let names = server_names(server_body);
    let ctx = server_context(&names, line);
    let ds = find_directives_recursive(server_body, "add_header");
    let ghost dv = directive_refs_view(ds@);
    let mut headers_present: Vec<String> = Vec::new();
    let mut i: usize = 0;
    while i < ds.len()
        invariant
            i <= ds.len(),
            dv == directive_refs_view(ds@),
            strings_view(headers_present@) == first_args_lower(dv.take(i as int)),
        decreases ds.len() - i,
    {
        let d = ds[i];
        let ghost prev = headers_present@;
        if d.args.len() > 0 {
            let lower = to_ascii_lowercase(d.args[0].as_str());
            headers_present.push(lower);
            assert(strings_view(headers_present@) =~= strings_view(prev).push(lower@));
        }
        i += 1;
        assert(dv.take(i as int).drop_last() =~= dv.take(i - 1));
        assert(strings_view(headers_present@) =~= first_args_lower(dv.take(i as int)));
    }
    assert(dv.take(i as int) =~= dv);
    let mut findings: Vec<Finding> = Vec::new();
    if !contains_string(&headers_present, "x-frame-options") {
        findings.push(missing_header(&ctx, line, "X-Frame-Options"));
    }
    if !contains_string(&headers_present, "x-content-type-options") {
        findings.push(missing_header(&ctx, line, "X-Content-Type-Options"));
    }
    assert(findings_view(findings@) =~= spec_check_missing_security_headers(
        items_view(server_body@),
        line as nat,
    ));
    findings
}


/// Whether a `server_tokens` directive turns the tokens on: its first
/// argument is `on`, without regard to ASCII case.
pub open spec fn turns_tokens_on(d: DirectiveView) -> bool {
    d.args.len() > 0 && spec_ascii_lower(d.args[0]) == spec_ascii_lower("on"@)
}

pub open spec fn server_tokens_finding(d: DirectiveView) -> FindingView {
    FindingView {
        rule: "server-tokens-on"@,
        severity: Severity::Warning,
        line: d.line,
        context: "server_tokens (line "@ + decimal(d.line) + ")"@,
        message: "server_tokens on leaks the nginx version in error pages and the Server header — set it to off"@,
    }
}

pub open spec fn server_tokens_findings(ds: Seq<DirectiveView>) -> Seq<FindingView>
    decreases ds.len(),
{
    if ds.len() == 0 {
        seq![]
    } else {
        server_tokens_findings(ds.drop_last()) + if turns_tokens_on(ds.last()) {
            seq![server_tokens_finding(ds.last())]
        } else {
            seq![]
        }
    }
}

/// Rule 2: one warning for each `server_tokens on` anywhere in the config.
pub open spec fn spec_check_server_tokens(items: Seq<ItemView>) -> Seq<FindingView> {
    server_tokens_findings(spec_directives_recursive(items, "server_tokens"@))
}

/// Rule 2: `server_tokens on;` (explicit), which leaks the nginx version
/// in error pages and the `Server` response header.
pub fn check_server_tokens(items: &[Item]) -> (findings: Vec<Finding>)
    ensures
        findings_view(findings@) == spec_check_server_tokens(items_view(items@)),
{
    let ds = find_directives_recursive(items, "server_tokens");
    let ghost dv = directive_refs_view(ds@);
    let on = to_ascii_lowercase("on");
    let mut findings: Vec<Finding> = Vec::new();
    let mut i: usize = 0;
    while i < ds.len()
        invariant
            i <= ds.len(),
            dv == directive_refs_view(ds@),
            on@ == spec_ascii_lower("on"@),
            findings_view(findings@) == server_tokens_findings(dv.take(i as int)),
        decreases ds.len() - i,
    {
        let d = ds[i];
        let ghost prev = findings@;
        if d.args.len() > 0 {
            let first = to_ascii_lowercase(d.args[0].as_str());
            if str_eq(first.as_str(), on.as_str()) {
                let mut context = String::new();
                context.append("server_tokens (line ");
                push_decimal(&mut context, d.line);
                context.append(")");
                let f = Finding {
                    rule: "server-tokens-on",
                    severity: Severity::Warning,
                    line: d.line,
                    context,
                    message: String::from_str(
                        "server_tokens on leaks the nginx version in error pages and the Server header — set it to off",
                    ),
                };
                findings.push(f);
                assert(findings_view(findings@) =~= findings_view(prev).push(server_tokens_finding(d@)));
            }
        }
        i += 1;
        assert(dv.take(i as int).drop_last() =~= dv.take(i - 1));
        assert(findings_view(findings@) =~= server_tokens_findings(dv.take(i as int)));
    }
    assert(dv.take(i as int) =~= dv);
    findings
}

/// A protocol version that `ssl_protocols` should no longer enable.
pub open spec fn is_old_tls_version(a: Seq<char>) -> bool {
    a == "SSLv2"@ || a == "SSLv3"@ || a == "TLSv1"@
}

pub open spec fn is_weak_tls_version(a: Seq<char>) -> bool {
    a == "SSLv2"@ || a == "SSLv3"@ || a == "TLSv1"@ || a == "TLSv1.1"@
}

pub open spec fn is_deprecated_version(a: Seq<char>) -> bool {
    is_old_tls_version(a) || is_weak_tls_version(a)
}

/// The deprecated versions among `args`, in order.
pub open spec fn deprecated_versions(args: Seq<Seq<char>>) -> Seq<Seq<char>>
    decreases args.len(),
{
    if args.len() == 0 {
        seq![]
    } else {
        deprecated_versions(args.drop_last()) + if is_deprecated_version(args.last()) {
            seq![args.last()]
        } else {
            seq![]
        }
    }
}

pub open spec fn missing_protocols_finding(ctx: Seq<char>, line: nat) -> FindingView {
    FindingView {
        rule: "missing-ssl-protocols"@,
        severity: Severity::Error,
        line,
        context: ctx,
        message: "ssl_certificate is set but ssl_protocols is not — falls back to nginx's compiled-in default, which may allow old TLS versions"@,
    }
}

pub open spec fn weak_protocol_findings(ds: Seq<DirectiveView>, ctx: Seq<char>) -> Seq<FindingView>
    decreases ds.len(),
{
    if ds.len() == 0 {
        seq![]
    } else {
        let d = ds.last();
        let weak = deprecated_versions(d.args);
        weak_protocol_findings(ds.drop_last(), ctx) + if weak.len() > 0 {
            seq![
                FindingView {
                    rule: "weak-ssl-protocol"@,
                    severity: Severity::Error,
                    line: d.line,
                    context: ctx,
                    message: "ssl_protocols enables deprecated version(s): "@ + join(weak, ", "@),
                },
            ]
        } else {
            seq![]
        }
    }
}

/// Rule 3: nothing for a server without `ssl_certificate`; otherwise an
/// error when it has no `ssl_protocols`, and else one error for each
/// `ssl_protocols` that enables a deprecated version.
pub open spec fn spec_check_ssl_protocols(body: Seq<ItemView>, line: nat) -> Seq<FindingView> {
    let ctx = spec_server_context(spec_server_names(body), line);
    let protocols = spec_directives_direct(body, "ssl_protocols"@);
    if spec_directives_direct(body, "ssl_certificate"@).len() == 0 {
        seq![]
    } else if protocols.len() == 0 {
        seq![missing_protocols_finding(ctx, line)]
    } else {
        weak_protocol_findings(protocols, ctx)
    }
}

fn is_old_tls_version_str(a: &str) -> (res: bool)
    ensures
        res == is_old_tls_version(a@),
{
    str_eq(a, "SSLv2") || str_eq(a, "SSLv3") || str_eq(a, "TLSv1")
}

fn is_weak_tls_version_str(a: &str) -> (res: bool)
    ensures
        res == is_weak_tls_version(a@),
{
    str_eq(a, "SSLv2") || str_eq(a, "SSLv3") || str_eq(a, "TLSv1") || str_eq(a, "TLSv1.1")
}

/// Rule 3: a server terminating TLS (`ssl_certificate` present) with no
/// `ssl_protocols` directive, or one that lists a deprecated version.
pub fn check_ssl_protocols(server_body: &[Item], line: usize) -> (findings: Vec<Finding>)
    ensures
        findings_view(findings@) == spec_check_ssl_protocols(items_view(server_body@), line as nat),
{
    let names = server_names(server_body);
    let ctx = server_context(&names, line);
    let certs = find_directives_direct(server_body, "ssl_certificate");
    if certs.len() == 0 {
        let none: Vec<Finding> = Vec::new();
        assert(findings_view(none@) =~= seq![]);
        return none;
    }
    let protocol_directives = find_directives_direct(server_body, "ssl_protocols");
    if protocol_directives.len() == 0 {
        let f = Finding {
            rule: "missing-ssl-protocols",
            severity: Severity::Error,
            line,
            context: ctx,
            message: String::from_str(
                "ssl_certificate is set but ssl_protocols is not — falls back to nginx's compiled-in default, which may allow old TLS versions",
            ),
        };
        let mut one: Vec<Finding> = Vec::new();
        one.push(f);
        assert(findings_view(one@) =~= seq![f@]);
        return one;
    }
    let ghost dv = directive_refs_view(protocol_directives@);
    let mut findings: Vec<Finding> = Vec::new();
    let mut i: usize = 0;
    while i < protocol_directives.len()
        invariant
            i <= protocol_directives.len(),
            dv == directive_refs_view(protocol_directives@),
            findings_view(findings@) == weak_protocol_findings(dv.take(i as int), ctx@),
        decreases protocol_directives.len() - i,
    {
        let d = protocol_directives[i];
        let ghost prev = findings@;
        let mut weak: Vec<String> = Vec::new();
        let mut k: usize = 0;
        while k < d.args.len()
            invariant
                k <= d.args.len(),
                strings_view(weak@) == deprecated_versions(strings_view(d.args@).take(k as int)),
            decreases d.args.len() - k,
        {
            let ghost wprev = weak@;
            if is_old_tls_version_str(d.args[k].as_str()) || is_weak_tls_version_str(d.args[k].as_str()) {
                let a = d.args[k].clone();
                weak.push(a);
                assert(strings_view(weak@) =~= strings_view(wprev).push(d.args@[k as int]@));
            }
            k += 1;
            assert(strings_view(d.args@).take(k as int).drop_last() =~= strings_view(d.args@).take(
                k - 1,
            ));
            assert(strings_view(weak@) =~= deprecated_versions(strings_view(d.args@).take(k as int)));
        }
        assert(strings_view(d.args@).take(k as int) =~= strings_view(d.args@));
        if weak.len() > 0 {
            let mut message = String::new();
            message.append("ssl_protocols enables deprecated version(s): ");
            push_joined(&mut message, &weak, ", ");
            let f = Finding {
                rule: "weak-ssl-protocol",
                severity: Severity::Error,
                line: d.line,
                context: ctx.clone(),
                message,
            };
            findings.push(f);
            assert(findings_view(findings@) =~= findings_view(prev).push(f@));
        }
        i += 1;
        assert(dv.take(i as int).drop_last() =~= dv.take(i - 1));
        assert(findings_view(findings@) =~= weak_protocol_findings(dv.take(i as int), ctx@));
    }
    assert(dv.take(i as int) =~= dv);
    findings
}


/// Whether a location hands requests to a backend that can receive a
/// request body.
pub open spec fn is_upload_capable(body: Seq<ItemView>) -> bool {
    spec_directives_direct(body, "proxy_pass"@).len() > 0 || spec_directives_direct(
        body,
        "fastcgi_pass"@,
    ).len() > 0 || spec_directives_direct(body, "uwsgi_pass"@).len() > 0
}

/// Whether `body` sets `client_max_body_size` directly.
pub open spec fn sets_body_size(body: Seq<ItemView>) -> bool {
    spec_directives_direct(body, "client_max_body_size"@).len() > 0
}

/// A location's first argument, or nothing.
pub open spec fn location_desc(loc: BlockView) -> Seq<char> {
    if loc.args.len() > 0 {
        loc.args[0]
    } else {
        seq![]
    }
}

pub open spec fn body_size_finding(ctx: Seq<char>, loc: BlockView) -> FindingView {
    FindingView {
        rule: "missing-client-max-body-size"@,
        severity: Severity::Warning,
        line: loc.line,
        context: ctx + " / location "@ + location_desc(loc) + " (line "@ + decimal(loc.line) + ")"@,
        message: "location proxies to a backend but sets no client_max_body_size (nor does the enclosing server) — falls back to nginx's 1m default, which will reject any larger upload"@,
    }
}

pub open spec fn body_size_findings(locs: Seq<BlockView>, ctx: Seq<char>) -> Seq<FindingView>
    decreases locs.len(),
{
    if locs.len() == 0 {
        seq![]
    } else {
        let loc = locs.last();
        body_size_findings(locs.drop_last(), ctx) + if is_upload_capable(loc.body) && !sets_body_size(
            loc.body,
        ) {
            seq![body_size_finding(ctx, loc)]
        } else {
            seq![]
        }
    }
}

/// Rule 4: nothing when the server sets `client_max_body_size`; otherwise a
/// warning for each location, at any depth, that passes requests to a
/// backend and sets no `client_max_body_size` itself.
pub open spec fn spec_check_missing_body_size_limit(body: Seq<ItemView>, line: nat) -> Seq<FindingView> {
    let ctx = spec_server_context(spec_server_names(body), line);
    if sets_body_size(body) {
        seq![]
    } else {
        body_size_findings(spec_blocks_recursive(body, "location"@), ctx)
    }
}

fn upload_capable(body: &[Item]) -> (res: bool)
    ensures
        res == is_upload_capable(items_view(body@)),
{
    find_directives_direct(body, "proxy_pass").len() > 0 || find_directives_direct(
        body,
        "fastcgi_pass",
    ).len() > 0 || find_directives_direct(body, "uwsgi_pass").len() > 0
}

/// Rule 4: a `location` handing requests off to a backend (`proxy_pass`,
/// `fastcgi_pass`, `uwsgi_pass`) with no `client_max_body_size` set in that
/// location or the enclosing server.
pub fn check_missing_body_size_limit(server_body: &[Item], server_line: usize) -> (findings: Vec<Finding>)
    ensures
        findings_view(findings@) == spec_check_missing_body_size_limit(
            items_view(server_body@),
            server_line as nat,
        ),
{
    let names = server_names(server_body);
    let ctx = server_context(&names, server_line);
    if find_directives_direct(server_body, "client_max_body_size").len() > 0 {
        let none: Vec<Finding> = Vec::new();
        assert(findings_view(none@) =~= seq![]);
        return none;
    }
    let locs = find_blocks_recursive(server_body, "location");
    let ghost lv = block_refs_view(locs@);
    let mut findings: Vec<Finding> = Vec::new();
    let mut i: usize = 0;
    while i < locs.len()
        invariant
            i <= locs.len(),
            lv == block_refs_view(locs@),
            findings_view(findings@) == body_size_findings(lv.take(i as int), ctx@),
        decreases locs.len() - i,
    {
        let loc = locs[i];
        let ghost prev = findings@;
        if upload_capable(&loc.body) && find_directives_direct(&loc.body, "client_max_body_size").len()
            == 0 {
            let mut context = ctx.clone();
            context.append(" / location ");
            if loc.args.len() > 0 {
                context.append(loc.args[0].as_str());
            }
            context.append(" (line ");
            push_decimal(&mut context, loc.line);
            context.append(")");
            let f = Finding {
                rule: "missing-client-max-body-size",
                severity: Severity::Warning,
                line: loc.line,
                context,
                message: String::from_str(
                    "location proxies to a backend but sets no client_max_body_size (nor does the enclosing server) — falls back to nginx's 1m default, which will reject any larger upload",
                ),
            };
            findings.push(f);
            assert(f@ == body_size_finding(ctx@, block_view(*loc)));
            assert(findings_view(findings@) =~= findings_view(prev).push(f@));
        }
        i += 1;
        assert(lv.take(i as int).drop_last() =~= lv.take(i - 1));
        assert(findings_view(findings@) =~= body_size_findings(lv.take(i as int), ctx@));
    }
    assert(lv.take(i as int) =~= lv);
    findings
}

/// The names that hold a `*`, in order.
pub open spec fn wildcard_names(names: Seq<Seq<char>>) -> Seq<Seq<char>>
    decreases names.len(),
{
    if names.len() == 0 {
        seq![]
    } else {
        wildcard_names(names.drop_last()) + if names.last().contains('*') {
            seq![names.last()]
        } else {
            seq![]
        }
    }
}

/// Rule 5: one error for a server that terminates TLS and has a wildcard
/// among its `server_name`s.
pub open spec fn spec_check_wildcard_server_name_with_ssl(body: Seq<ItemView>, line: nat) -> Seq<FindingView> {
    let names = spec_server_names(body);
    let ctx = spec_server_context(names, line);
    let wildcards = wildcard_names(names);
    if !spec_listens_ssl(body) || wildcards.len() == 0 {
        seq![]
    } else {
        seq![
            FindingView {
                rule: "wildcard-server-name-with-ssl"@,
                severity: Severity::Error,
                line,
                context: ctx,
                message: "server_name "@ + join(wildcards, " "@)
                    + " is a wildcard but this server terminates SSL — the certificate almost certainly won't match every host this could receive"@,
            },
        ]
    }
}

fn has_char(s: &str, c: char) -> (res: bool)
    ensures
        res == s@.contains(c),
{
    let cs = chars_of(s);
    let mut i: usize = 0;
    while i < cs.len()
        invariant
            i <= cs.len(),
            cs@ == s@,
            forall|k: int| 0 <= k < i ==> cs@[k] != c,
        decreases cs.len() - i,
    {
        if cs[i] == c {
            return true;
        }
        i += 1;
    }
    false
}

/// Rule 5: a wildcard `server_name` combined with SSL termination.
pub fn check_wildcard_server_name_with_ssl(server_body: &[Item], line: usize) -> (findings: Vec<Finding>)
    ensures
        findings_view(findings@) == spec_check_wildcard_server_name_with_ssl(
            items_view(server_body@),
            line as nat,
        ),
{
    let names = server_names(server_body);
    let ctx = server_context(&names, line);
    if !server_listens_ssl(server_body) {
        let none: Vec<Finding> = Vec::new();
        assert(findings_view(none@) =~= seq![]);
        return none;
    }
    let ghost nv = strings_view(names@);
    let mut wildcards: Vec<String> = Vec::new();
    let mut i: usize = 0;
    while i < names.len()
        invariant
            i <= names.len(),
            nv == strings_view(names@),
            strings_view(wildcards@) == wildcard_names(nv.take(i as int)),
        decreases names.len() - i,
    {
        let ghost prev = wildcards@;
        if has_char(names[i].as_str(), '*') {
            let n = names[i].clone();
            wildcards.push(n);
            assert(strings_view(wildcards@) =~= strings_view(prev).push(nv[i as int]));
        }
        i += 1;
        assert(nv.take(i as int).drop_last() =~= nv.take(i - 1));
        assert(strings_view(wildcards@) =~= wildcard_names(nv.take(i as int)));
    }
    assert(nv.take(i as int) =~= nv);
    if wildcards.len() == 0 {
        let none: Vec<Finding> = Vec::new();
        assert(findings_view(none@) =~= seq![]);
        return none;
    }
    let mut message = String::new();
    message.append("server_name ");
    push_joined(&mut message, &wildcards, " ");
    message.append(
        " is a wildcard but this server terminates SSL — the certificate almost certainly won't match every host this could receive",
    );
    let f = Finding { rule: "wildcard-server-name-with-ssl", severity: Severity::Error, line, context: ctx, message };
    let mut one: Vec<Finding> = Vec::new();
    one.push(f);
    assert(findings_view(one@) =~= seq![f@]);
    one
}


/// The order of a report: by line, then by rule name.
pub open spec fn finding_lt(a: FindingView, b: FindingView) -> bool {
    a.line < b.line || (a.line == b.line && lex_lt(a.rule, b.rule))
}

/// `x` inserted into `s` after every element that does not come after it.
pub open spec fn insert_sorted(s: Seq<FindingView>, x: FindingView) -> Seq<FindingView>
    decreases s.len(),
{
    if s.len() == 0 || !finding_lt(x, s.last()) {
        s.push(x)
    } else {
        insert_sorted(s.drop_last(), x).push(s.last())
    }
}

/// `s` sorted by line and rule; findings that compare equal keep their
/// order (a stable sort).
pub open spec fn sort_findings(s: Seq<FindingView>) -> Seq<FindingView>
    decreases s.len(),
{
    if s.len() == 0 {
        seq![]
    } else {
        insert_sorted(sort_findings(s.drop_last()), s.last())
    }
}

proof fn lemma_insert_sorted_at(s: Seq<FindingView>, x: FindingView, j: int)
    requires
        0 <= j <= s.len(),
        forall|k: int| j <= k < s.len() ==> finding_lt(x, #[trigger] s[k]),
        j == 0 || !finding_lt(x, s[j - 1]),
    ensures
        insert_sorted(s, x) == s.insert(j, x),
    decreases s.len(),
{
    if j == s.len() {
        assert(s.insert(j, x) =~= s.push(x));
    } else {
        lemma_insert_sorted_at(s.drop_last(), x, j);
        assert(s.insert(j, x) =~= s.drop_last().insert(j, x).push(s.last()));
    }
}

fn sort_by_line_and_rule(unsorted: Vec<Finding>) -> (sorted: Vec<Finding>)
    ensures
        findings_view(sorted@) == sort_findings(findings_view(unsorted@)),
{
    let ghost orig = findings_view(unsorted@);
    let mut input = unsorted;
    let mut out: Vec<Finding> = Vec::new();
    let mut out_rules: Vec<Vec<char>> = Vec::new();
    let ghost mut i: int = 0;
    while input.len() > 0
        invariant
            0 <= i <= orig.len(),
            findings_view(input@) == orig.skip(i),
            findings_view(out@) == sort_findings(orig.take(i)),
            out_rules@.len() == out@.len(),
            forall|k: int| 0 <= k < out@.len() ==> (#[trigger] out_rules@[k])@ == out@[k].rule@,
        decreases input.len(),
    {
        let ghost input_before = input@;
        assert(findings_view(input_before).len() == input_before.len());
        assert(i < orig.len());
        let f = input.remove(0);
        let fr = chars_of(f.rule);
        let ghost ov = findings_view(out@);
        proof {
            assert(findings_view(input_before)[0] == f@);
            assert(orig.skip(i)[0] == f@);
            assert(findings_view(input@) =~= findings_view(input_before).skip(1));
            assert(orig.take(i + 1).drop_last() =~= orig.take(i));
            assert(findings_view(input@) =~= orig.skip(i + 1));
        }
        let mut j = out.len();
        while j > 0 && (f.line < out[j - 1].line || (f.line == out[j - 1].line && chars_lt(
            fr.as_slice(),
            out_rules[j - 1].as_slice(),
        )))
            invariant
                j <= out@.len(),
                ov == findings_view(out@),
                out_rules@.len() == out@.len(),
                forall|k: int| 0 <= k < out@.len() ==> (#[trigger] out_rules@[k])@ == out@[k].rule@,
                fr@ == f.rule@,
                forall|k: int| j <= k < ov.len() ==> finding_lt(f@, #[trigger] ov[k]),
            decreases j,
        {
            j -= 1;
        }
        proof {
            lemma_insert_sorted_at(ov, f@, j as int);
        }
        let ghost rules_before = out_rules@;
        let ghost out_before = out@;
        out.insert(j, f);
        out_rules.insert(j, fr);
        proof {
            i = i + 1;
            assert(findings_view(out@) =~= ov.insert(j as int, f@));
            assert forall|k: int| 0 <= k < out@.len() implies (#[trigger] out_rules@[k])@ == out@[k].rule@ by {
                if k < j {
                    assert(out_rules@[k] == rules_before[k]);
                    assert(out@[k] == out_before[k]);
                } else if k > j {
                    assert(out_rules@[k] == rules_before[k - 1]);
                    assert(out@[k] == out_before[k - 1]);
                }
            }
        }
    }
    assert(orig.take(i) =~= orig);
    out
}

/// Whether no finding in `s` comes before one that precedes it.
pub open spec fn is_sorted_findings(s: Seq<FindingView>) -> bool {
    forall|i: int, j: int| 0 <= i < j < s.len() ==> !finding_lt(#[trigger] s[j], #[trigger] s[i])
}

/// `finding_lt` orders findings by their (line, rule) key: it is
/// irreflexive and asymmetric, and "before" followed by "not after" is
/// "before".
pub proof fn lemma_finding_lt_order(a: FindingView, b: FindingView, c: FindingView)
    ensures
        !finding_lt(a, a),
        finding_lt(a, b) ==> !finding_lt(b, a),
        finding_lt(a, b) && !finding_lt(c, b) ==> finding_lt(a, c),
{
    lemma_lex_lt_irreflexive(a.rule);
    if finding_lt(a, b) && a.line == b.line {
        lemma_lex_lt_asymmetric(a.rule, b.rule);
    }
    if finding_lt(a, b) && !finding_lt(c, b) && b.line == c.line && a.line == b.line {
        lemma_lex_lt_total(b.rule, c.rule);
        if b.rule != c.rule {
            lemma_lex_lt_transitive(a.rule, b.rule, c.rule);
        }
    }
}

proof fn lemma_insert_sorted_multiset(s: Seq<FindingView>, x: FindingView)
    ensures
        insert_sorted(s, x).to_multiset() == s.to_multiset().insert(x),
    decreases s.len(),
{
    broadcast use vstd::seq_lib::group_to_multiset_ensures;

    if s.len() == 0 || !finding_lt(x, s.last()) {
    } else {
        lemma_insert_sorted_multiset(s.drop_last(), x);
        assert(s =~= s.drop_last().push(s.last()));
        assert(insert_sorted(s, x).to_multiset() =~= s.drop_last().to_multiset().insert(x).insert(s.last()));
        assert(s.to_multiset() =~= s.drop_last().to_multiset().insert(s.last()));
    }
}

proof fn lemma_insert_sorted_sorted(s: Seq<FindingView>, x: FindingView)
    requires
        is_sorted_findings(s),
    ensures
        is_sorted_findings(insert_sorted(s, x)),
    decreases s.len(),
{
    broadcast use vstd::seq_lib::group_to_multiset_ensures;

    if s.len() == 0 || !finding_lt(x, s.last()) {
        let r = s.push(x);
        assert forall|i: int, j: int| 0 <= i < j < r.len() implies !finding_lt(#[trigger] r[j], #[trigger] r[i]) by {
            if j == s.len() {
                if i < s.len() - 1 {
                    assert(!finding_lt(s[s.len() - 1], s[i]));
                    lemma_finding_lt_order(x, s[i], s.last());
                }
            } else {
                assert(r[i] == s[i] && r[j] == s[j]);
            }
        }
    } else {
        let dl = s.drop_last();
        let inner = insert_sorted(dl, x);
        lemma_insert_sorted_sorted(dl, x);
        lemma_insert_sorted_multiset(dl, x);
        let r = inner.push(s.last());
        assert forall|i: int, j: int| 0 <= i < j < r.len() implies !finding_lt(#[trigger] r[j], #[trigger] r[i]) by {
            if j == inner.len() {
                let e = inner[i];
                assert(inner.contains(e));
                assert(inner.to_multiset().count(e) > 0);
                if e == x {
                    lemma_finding_lt_order(x, s.last(), s.last());
                } else {
                    assert(dl.to_multiset().count(e) > 0);
                    assert(dl.contains(e));
                    let k = choose|k: int| 0 <= k < dl.len() && dl[k] == e;
                    assert(s[k] == e);
                    assert(!finding_lt(s[s.len() - 1], s[k]));
                }
            } else {
                assert(r[i] == inner[i] && r[j] == inner[j]);
            }
        }
    }
}

/// `sort_findings` sorts: its result is ordered by line and rule, and holds
/// the same findings as its input, each as many times.
pub proof fn lemma_sort_findings(s: Seq<FindingView>)
    ensures
        is_sorted_findings(sort_findings(s)),
        sort_findings(s).to_multiset() == s.to_multiset(),
    decreases s.len(),
{
    broadcast use vstd::seq_lib::group_to_multiset_ensures;

    if s.len() > 0 {
        lemma_sort_findings(s.drop_last());
        lemma_insert_sorted_sorted(sort_findings(s.drop_last()), s.last());
        lemma_insert_sorted_multiset(sort_findings(s.drop_last()), s.last());
        assert(s =~= s.drop_last().push(s.last()));
    }
}

/// The findings of the four server-scoped rules for one server block.
pub open spec fn server_findings(server: BlockView) -> Seq<FindingView> {
    spec_check_missing_security_headers(server.body, server.line) + spec_check_ssl_protocols(
        server.body,
        server.line,
    ) + spec_check_missing_body_size_limit(server.body, server.line)
        + spec_check_wildcard_server_name_with_ssl(server.body, server.line)
}

pub open spec fn all_server_findings(servers: Seq<BlockView>) -> Seq<FindingView>
    decreases servers.len(),
{
    if servers.len() == 0 {
        seq![]
    } else {
        all_server_findings(servers.drop_last()) + server_findings(servers.last())
    }
}

/// Every finding of every rule, before sorting: the config-wide rule over
/// the whole tree, then the server rules for each `server` block in
/// document order.
pub open spec fn spec_lint_unsorted(items: Seq<ItemView>) -> Seq<FindingView> {
    spec_check_server_tokens(items) + all_server_findings(spec_blocks_recursive(items, "server"@))
}

/// What `lint` reports: every finding, sorted by line and then rule name.
pub open spec fn spec_lint(items: Seq<ItemView>) -> Seq<FindingView> {
    sort_findings(spec_lint_unsorted(items))
}

/// Runs every rule against every `server` block found anywhere in the
/// parsed config (server-scoped rules), plus the config-wide rule
/// (`server_tokens`) once over the whole tree, and sorts the findings by
/// line and rule.
pub fn lint(items: &[Item]) -> (findings: Vec<Finding>)
    ensures
        findings_view(findings@) == spec_lint(items_view(items@)),
{
    let mut findings = check_server_tokens(items);
    let servers = find_blocks_recursive(items, "server");
    let ghost sv = block_refs_view(servers@);
    let ghost start = findings_view(findings@);
    let mut i: usize = 0;
    while i < servers.len()
        invariant
            i <= servers.len(),
            sv == block_refs_view(servers@),
            findings_view(findings@) == start + all_server_findings(sv.take(i as int)),
        decreases servers.len() - i,
    {
        let server = servers[i];
        let ghost prev = findings_view(findings@);
        let mut a = check_missing_security_headers(&server.body, server.line);
        let mut b = check_ssl_protocols(&server.body, server.line);
        let mut c = check_missing_body_size_limit(&server.body, server.line);
        let mut d = check_wildcard_server_name_with_ssl(&server.body, server.line);
        let ghost (va, vb, vc, vd) = (findings_view(a@), findings_view(b@), findings_view(c@), findings_view(d@));
        findings.append(&mut a);
        findings.append(&mut b);
        findings.append(&mut c);
        findings.append(&mut d);
        i += 1;
        proof {
            assert(findings_view(findings@) =~= prev + va + vb + vc + vd);
            assert(sv.take(i as int).drop_last() =~= sv.take(i - 1));
            assert(sv[i - 1] == block_view(*server));
        }
        assert(findings_view(findings@) =~= start + all_server_findings(sv.take(i as int)));
    }
    assert(sv.take(i as int) =~= sv);
    sort_by_line_and_rule(findings)
}

} // verus!

verus! {

/// `lint` reports every finding of every rule exactly once, and in order:
/// no finding comes after one with a later line, or with the same line and
/// a later rule name.
pub proof fn law_lint_sorted_permutation(items: Seq<ItemView>)
    ensures
        is_sorted_findings(spec_lint(items)),
        spec_lint(items).to_multiset() == spec_lint_unsorted(items).to_multiset(),
        spec_lint(items).len() == spec_lint_unsorted(items).len(),
{
    broadcast use vstd::seq_lib::group_to_multiset_ensures;

    lemma_sort_findings(spec_lint_unsorted(items));
    assert(spec_lint(items).to_multiset().len() == spec_lint_unsorted(items).to_multiset().len());
}

/// The severity that each rule reports with.
pub open spec fn rule_severity(rule: Seq<char>) -> Severity {
    if rule == "missing-ssl-protocols"@ || rule == "weak-ssl-protocol"@ || rule
        == "wildcard-server-name-with-ssl"@ {
        Severity::Error
    } else {
        Severity::Warning
    }
}

pub open spec fn severities_follow_rules(fs: Seq<FindingView>) -> bool {
    forall|i: int| 0 <= i < fs.len() ==> (#[trigger] fs[i]).severity == rule_severity(fs[i].rule)
}

proof fn lemma_rule_names_distinct()
    ensures
        rule_severity("missing-security-header"@) == Severity::Warning,
        rule_severity("server-tokens-on"@) == Severity::Warning,
        rule_severity("missing-client-max-body-size"@) == Severity::Warning,
        rule_severity("missing-ssl-protocols"@) == Severity::Error,
        rule_severity("weak-ssl-protocol"@) == Severity::Error,
        rule_severity("wildcard-server-name-with-ssl"@) == Severity::Error,
{
    reveal_strlit("missing-security-header");
    reveal_strlit("server-tokens-on");
    reveal_strlit("missing-client-max-body-size");
    reveal_strlit("missing-ssl-protocols");
    reveal_strlit("weak-ssl-protocol");
    reveal_strlit("wildcard-server-name-with-ssl");
    assert("missing-security-header"@[0] != "weak-ssl-protocol"@[0]);
    assert("missing-security-header"@[9] != "missing-ssl-protocols"@[9]);
    assert("missing-security-header"@[0] != "wildcard-server-name-with-ssl"@[0]);
    assert("server-tokens-on"@[0] != "missing-ssl-protocols"@[0]);
    assert("server-tokens-on"@[0] != "weak-ssl-protocol"@[0]);
    assert("server-tokens-on"@[0] != "wildcard-server-name-with-ssl"@[0]);
    assert("missing-client-max-body-size"@[8] != "missing-ssl-protocols"@[8]);
    assert("missing-client-max-body-size"@[0] != "weak-ssl-protocol"@[0]);
    assert("missing-client-max-body-size"@[0] != "wildcard-server-name-with-ssl"@[0]);
}

proof fn lemma_severities_concat(a: Seq<FindingView>, b: Seq<FindingView>)
    requires
        severities_follow_rules(a),
        severities_follow_rules(b),
    ensures
        severities_follow_rules(a + b),
{
    assert forall|i: int| 0 <= i < (a + b).len() implies (#[trigger] (a + b)[i]).severity
        == rule_severity((a + b)[i].rule) by {
        if i < a.len() {
            assert((a + b)[i] == a[i]);
        } else {
            assert((a + b)[i] == b[i - a.len()]);
        }
    }
}

proof fn lemma_severities_server_tokens(ds: Seq<DirectiveView>)
    ensures
        severities_follow_rules(server_tokens_findings(ds)),
    decreases ds.len(),
{
    lemma_rule_names_distinct();
    if ds.len() > 0 {
        lemma_severities_server_tokens(ds.drop_last());
        let tail = if turns_tokens_on(ds.last()) {
            seq![server_tokens_finding(ds.last())]
        } else {
            seq![]
        };
        lemma_severities_concat(server_tokens_findings(ds.drop_last()), tail);
    }
}

proof fn lemma_severities_weak_protocols(ds: Seq<DirectiveView>, ctx: Seq<char>)
    ensures
        severities_follow_rules(weak_protocol_findings(ds, ctx)),
    decreases ds.len(),
{
    lemma_rule_names_distinct();
    if ds.len() > 0 {
        lemma_severities_weak_protocols(ds.drop_last(), ctx);
        let d = ds.last();
        let weak = deprecated_versions(d.args);
        let tail = if weak.len() > 0 {
            seq![
                FindingView {
                    rule: "weak-ssl-protocol"@,
                    severity: Severity::Error,
                    line: d.line,
                    context: ctx,
                    message: "ssl_protocols enables deprecated version(s): "@ + join(weak, ", "@),
                },
            ]
        } else {
            seq![]
        };
        lemma_severities_concat(weak_protocol_findings(ds.drop_last(), ctx), tail);
    }
}

proof fn lemma_severities_body_size(locs: Seq<BlockView>, ctx: Seq<char>)
    ensures
        severities_follow_rules(body_size_findings(locs, ctx)),
    decreases locs.len(),
{
    lemma_rule_names_distinct();
    if locs.len() > 0 {
        lemma_severities_body_size(locs.drop_last(), ctx);
        let loc = locs.last();
        let tail = if is_upload_capable(loc.body) && !sets_body_size(loc.body) {
            seq![body_size_finding(ctx, loc)]
        } else {
            seq![]
        };
        lemma_severities_concat(body_size_findings(locs.drop_last(), ctx), tail);
    }
}

proof fn lemma_severities_server(server: BlockView)
    ensures
        severities_follow_rules(server_findings(server)),
{
    lemma_rule_names_distinct();
    let body = server.body;
    let line = server.line;
    let ctx = spec_server_context(spec_server_names(body), line);
    lemma_severities_weak_protocols(spec_directives_direct(body, "ssl_protocols"@), ctx);
    lemma_severities_body_size(spec_blocks_recursive(body, "location"@), ctx);
    let a = spec_check_missing_security_headers(body, line);
    let b = spec_check_ssl_protocols(body, line);
    let c = spec_check_missing_body_size_limit(body, line);
    let d = spec_check_wildcard_server_name_with_ssl(body, line);
    lemma_severities_concat(a, b);
    lemma_severities_concat(a + b, c);
    lemma_severities_concat(a + b + c, d);
}

proof fn lemma_severities_all_servers(servers: Seq<BlockView>)
    ensures
        severities_follow_rules(all_server_findings(servers)),
    decreases servers.len(),
{
    if servers.len() > 0 {
        lemma_severities_all_servers(servers.drop_last());
        lemma_severities_server(servers.last());
        lemma_severities_concat(all_server_findings(servers.drop_last()), server_findings(servers.last()));
    }
}

/// Every finding that `lint` reports has the severity of its rule: the
/// TLS rules and the wildcard rule report errors, the others warnings.
pub proof fn law_lint_severity_by_rule(items: Seq<ItemView>)
    ensures
        severities_follow_rules(spec_lint(items)),
{
    broadcast use vstd::seq_lib::group_to_multiset_ensures;

    let unsorted = spec_lint_unsorted(items);
    lemma_severities_server_tokens(spec_directives_recursive(items, "server_tokens"@));
    lemma_severities_all_servers(spec_blocks_recursive(items, "server"@));
    lemma_severities_concat(spec_check_server_tokens(items), all_server_findings(spec_blocks_recursive(items, "server"@)));
    lemma_sort_findings(unsorted);
    let sorted = spec_lint(items);
    assert forall|i: int| 0 <= i < sorted.len() implies (#[trigger] sorted[i]).severity == rule_severity(
        sorted[i].rule,
    ) by {
        assert(sorted.contains(sorted[i]));
        assert(sorted.to_multiset().count(sorted[i]) > 0);
        assert(unsorted.contains(sorted[i]));
    }
}

} // verus!

verus! {

/// Rule 1 reports nothing exactly when both security headers are set
/// somewhere in the server block or the blocks nested in it.
pub proof fn law_security_headers_clean(body: Seq<ItemView>, line: nat)
    ensures
        spec_check_missing_security_headers(body, line).len() == 0 <==> (header_present(
            body,
            "x-frame-options"@,
        ) && header_present(body, "x-content-type-options"@)),
{
}

proof fn lemma_server_tokens_findings_empty(ds: Seq<DirectiveView>)
    ensures
        server_tokens_findings(ds).len() == 0 <==> forall|i: int|
            0 <= i < ds.len() ==> !turns_tokens_on(#[trigger] ds[i]),
    decreases ds.len(),
{
    if ds.len() > 0 {
        lemma_server_tokens_findings_empty(ds.drop_last());
        assert forall|i: int| 0 <= i < ds.len() - 1 implies ds.drop_last()[i] == #[trigger] ds[i] by {}
    }
}

/// Rule 2 reports nothing exactly when no `server_tokens` directive
/// anywhere in the config turns the tokens on.
pub proof fn law_server_tokens_clean(items: Seq<ItemView>)
    ensures
        spec_check_server_tokens(items).len() == 0 <==> forall|i: int|
            0 <= i < spec_directives_recursive(items, "server_tokens"@).len() ==> !turns_tokens_on(
                #[trigger] spec_directives_recursive(items, "server_tokens"@)[i],
            ),
{
    lemma_server_tokens_findings_empty(spec_directives_recursive(items, "server_tokens"@));
}

proof fn lemma_deprecated_versions_empty(args: Seq<Seq<char>>)
    ensures
        deprecated_versions(args).len() == 0 <==> forall|j: int|
            0 <= j < args.len() ==> !is_deprecated_version(#[trigger] args[j]),
    decreases args.len(),
{
    if args.len() > 0 {
        lemma_deprecated_versions_empty(args.drop_last());
        assert forall|j: int| 0 <= j < args.len() - 1 implies args.drop_last()[j] == #[trigger] args[j] by {}
    }
}

proof fn lemma_weak_protocol_findings_empty(ds: Seq<DirectiveView>, ctx: Seq<char>)
    ensures
        weak_protocol_findings(ds, ctx).len() == 0 <==> forall|i: int, j: int|
            0 <= i < ds.len() && 0 <= j < ds[i].args.len() ==> !is_deprecated_version(
                #[trigger] ds[i].args[j],
            ),
    decreases ds.len(),
{
    if ds.len() > 0 {
        lemma_weak_protocol_findings_empty(ds.drop_last(), ctx);
        lemma_deprecated_versions_empty(ds.last().args);
        assert forall|i: int| 0 <= i < ds.len() - 1 implies ds.drop_last()[i] == #[trigger] ds[i] by {}
        if weak_protocol_findings(ds, ctx).len() != 0 {
            if weak_protocol_findings(ds.drop_last(), ctx).len() != 0 {
                let (i, j) = choose|i: int, j: int|
                    0 <= i < ds.drop_last().len() && 0 <= j < ds.drop_last()[i].args.len()
                        && is_deprecated_version(#[trigger] ds.drop_last()[i].args[j]);
                assert(is_deprecated_version(ds[i].args[j]));
            } else {
                let j = choose|j: int|
                    0 <= j < ds.last().args.len() && is_deprecated_version(#[trigger] ds.last().args[j]);
                assert(is_deprecated_version(ds[ds.len() - 1].args[j]));
            }
        }
    }
}

/// Rule 3 reports nothing exactly when the server has no
/// `ssl_certificate`, or has `ssl_protocols` and none of them enables a
/// deprecated version.
pub proof fn law_ssl_protocols_clean(body: Seq<ItemView>, line: nat)
    ensures
        ({
            let protocols = spec_directives_direct(body, "ssl_protocols"@);
            spec_check_ssl_protocols(body, line).len() == 0 <==> (spec_directives_direct(
                body,
                "ssl_certificate"@,
            ).len() == 0 || (protocols.len() > 0 && forall|i: int, j: int|
                0 <= i < protocols.len() && 0 <= j < protocols[i].args.len()
                    ==> !is_deprecated_version(#[trigger] protocols[i].args[j])))
        }),
{
    let ctx = spec_server_context(spec_server_names(body), line);
    lemma_weak_protocol_findings_empty(spec_directives_direct(body, "ssl_protocols"@), ctx);
}

proof fn lemma_body_size_findings_empty(locs: Seq<BlockView>, ctx: Seq<char>)
    ensures
        body_size_findings(locs, ctx).len() == 0 <==> forall|i: int|
            0 <= i < locs.len() ==> !(is_upload_capable((#[trigger] locs[i]).body) && !sets_body_size(
                locs[i].body,
            )),
    decreases locs.len(),
{
    if locs.len() > 0 {
        lemma_body_size_findings_empty(locs.drop_last(), ctx);
        assert forall|i: int| 0 <= i < locs.len() - 1 implies locs.drop_last()[i] == #[trigger] locs[i] by {}
    }
}

/// Rule 4 reports nothing exactly when the server sets
/// `client_max_body_size`, or every location in it that passes requests to
/// a backend sets one itself.
pub proof fn law_body_size_clean(body: Seq<ItemView>, line: nat)
    ensures
        ({
            let locs = spec_blocks_recursive(body, "location"@);
            spec_check_missing_body_size_limit(body, line).len() == 0 <==> (sets_body_size(body)
                || forall|i: int|
                0 <= i < locs.len() ==> !(is_upload_capable((#[trigger] locs[i]).body)
                    && !sets_body_size(locs[i].body)))
        }),
{
    let ctx = spec_server_context(spec_server_names(body), line);
    lemma_body_size_findings_empty(spec_blocks_recursive(body, "location"@), ctx);
}

proof fn lemma_wildcard_names_empty(names: Seq<Seq<char>>)
    ensures
        wildcard_names(names).len() == 0 <==> forall|i: int|
            0 <= i < names.len() ==> !(#[trigger] names[i]).contains('*'),
    decreases names.len(),
{
    if names.len() > 0 {
        lemma_wildcard_names_empty(names.drop_last());
        assert forall|i: int| 0 <= i < names.len() - 1 implies names.drop_last()[i] == #[trigger] names[i] by {}
    }
}

/// Rule 5 reports nothing exactly when the server does not terminate TLS,
/// or none of its server names holds a `*`.
pub proof fn law_wildcard_clean(body: Seq<ItemView>, line: nat)
    ensures
        ({
            let names = spec_server_names(body);
            spec_check_wildcard_server_name_with_ssl(body, line).len() == 0 <==> (!spec_listens_ssl(
                body,
            ) || forall|i: int| 0 <= i < names.len() ==> !(#[trigger] names[i]).contains('*'))
        }),
{
    lemma_wildcard_names_empty(spec_server_names(body));
}

} // verus!

verus! {

/// The findings of `s` on line `line` of rule `rule`, in order.
pub open spec fn findings_with_key(s: Seq<FindingView>, line: nat, rule: Seq<char>) -> Seq<FindingView>
    decreases s.len(),
{
    if s.len() == 0 {
        seq![]
    } else {
        findings_with_key(s.drop_last(), line, rule) + if s.last().line == line && s.last().rule == rule {
            seq![s.last()]
        } else {
            seq![]
        }
    }
}

proof fn lemma_insert_sorted_keeps_key_order(t: Seq<FindingView>, x: FindingView, line: nat, rule: Seq<char>)
    ensures
        findings_with_key(insert_sorted(t, x), line, rule) == findings_with_key(t, line, rule) + if x.line
            == line && x.rule == rule {
            seq![x]
        } else {
            seq![]
        },
    decreases t.len(),
{
    if t.len() == 0 || !finding_lt(x, t.last()) {
        assert(t.push(x).drop_last() =~= t);
    } else {
        let dl = t.drop_last();
        lemma_insert_sorted_keeps_key_order(dl, x, line, rule);
        let inner = insert_sorted(dl, x);
        assert(inner.push(t.last()).drop_last() =~= inner);
        lemma_lex_lt_irreflexive(x.rule);
        if x.line == line && x.rule == rule {
            assert(!(t.last().line == line && t.last().rule == rule));
        }
        assert(findings_with_key(t, line, rule) == findings_with_key(dl, line, rule) + if t.last().line
            == line && t.last().rule == rule {
            seq![t.last()]
        } else {
            seq![]
        });
        assert(findings_with_key(insert_sorted(t, x), line, rule) =~= findings_with_key(t, line, rule)
            + if x.line == line && x.rule == rule {
            seq![x]
        } else {
            seq![]
        });
    }
}

/// `sort_findings` is stable: the findings that share a line and a rule
/// come out in the order they went in.
pub proof fn law_sort_findings_stable(s: Seq<FindingView>, line: nat, rule: Seq<char>)
    ensures
        findings_with_key(sort_findings(s), line, rule) == findings_with_key(s, line, rule),
    decreases s.len(),
{
    if s.len() > 0 {
        law_sort_findings_stable(s.drop_last(), line, rule);
        lemma_insert_sorted_keeps_key_order(sort_findings(s.drop_last()), s.last(), line, rule);
    }
}

} // verus!

verus! {

proof fn lemma_all_args_contains(ds: Seq<DirectiveView>, k: int, j: int)
    requires
        0 <= k < ds.len(),
        0 <= j < ds[k].args.len(),
    ensures
        all_args(ds).contains(ds[k].args[j]),
    decreases ds.len(),
{
    let dl = ds.drop_last();
    if k == ds.len() - 1 {
        assert(all_args(ds)[all_args(dl).len() + j] == ds[k].args[j]);
    } else {
        assert(dl[k] == ds[k]);
        lemma_all_args_contains(dl, k, j);
        let m = choose|m: int| 0 <= m < all_args(dl).len() && all_args(dl)[m] == ds[k].args[j];
        assert(all_args(ds)[m] == ds[k].args[j]);
    }
}

proof fn lemma_wildcard_names_nonempty(names: Seq<Seq<char>>, n: Seq<char>)
    requires
        names.contains(n),
        n.contains('*'),
    ensures
        wildcard_names(names).len() > 0,
    decreases names.len(),
{
    if names.last() != n {
        let k = choose|k: int| 0 <= k < names.len() && names[k] == n;
        assert(names.drop_last()[k] == n);
        lemma_wildcard_names_nonempty(names.drop_last(), n);
    }
}

/// Rule 5 on a server with a wildcard name that terminates TLS, by a
/// `listen` (any of them) with an `ssl` argument or by an
/// `ssl_certificate`, both at the top level of its body: exactly one error,
/// on the server's line.
pub proof fn law_wildcard_flags_tls_servers(
    body: Seq<ItemView>,
    line: nat,
    tls_at: int,
    tls: DirectiveView,
    name_at: int,
    names: DirectiveView,
    j: int,
)
    requires
        0 <= tls_at < body.len(),
        body[tls_at] == ItemView::Directive(tls),
        (tls.name == "listen"@ && tls.args.contains("ssl"@)) || tls.name == "ssl_certificate"@,
        0 <= name_at < body.len(),
        body[name_at] == ItemView::Directive(names),
        names.name == "server_name"@,
        0 <= j < names.args.len(),
        names.args[j].contains('*'),
    ensures
        spec_check_wildcard_server_name_with_ssl(body, line).len() == 1,
        spec_check_wildcard_server_name_with_ssl(body, line)[0].rule == "wildcard-server-name-with-ssl"@,
        spec_check_wildcard_server_name_with_ssl(body, line)[0].severity == Severity::Error,
        spec_check_wildcard_server_name_with_ssl(body, line)[0].line == line,
{
    law_top_level_directive_found(body, tls.name, tls_at, tls);
    reveal_strlit("listen");
    reveal_strlit("ssl_certificate");
    assert("listen"@.len() != "ssl_certificate"@.len());
    if tls.name == "listen"@ {
        let listens = spec_directives_direct(body, "listen"@);
        let i = choose|i: int| 0 <= i < listens.len() && listens[i] == tls;
        let a = choose|a: int| 0 <= a < tls.args.len() && tls.args[a] == "ssl"@;
        assert(0 <= i < listens.len() && 0 <= a < listens[i].args.len() && listens[i].args[a] == "ssl"@);
    }
    assert(spec_listens_ssl(body));
    law_top_level_directive_found(body, "server_name"@, name_at, names);
    let ds = spec_directives_direct(body, "server_name"@);
    let k = choose|k: int| 0 <= k < ds.len() && ds[k] == names;
    lemma_all_args_contains(ds, k, j);
    lemma_wildcard_names_nonempty(spec_server_names(body), names.args[j]);
}

/// Rule 5 reports nothing for a server with neither a `listen ... ssl` nor
/// an `ssl_certificate` at the top level of its body.
pub proof fn law_wildcard_ignores_plain_servers(body: Seq<ItemView>, line: nat)
    requires
        forall|i: int, d: DirectiveView|
            0 <= i < body.len() && body[i] == ItemView::Directive(d) && d.name == "listen"@
                ==> !d.args.contains("ssl"@),
        !has_top_level_directive(body, "ssl_certificate"@),
    ensures
        spec_check_wildcard_server_name_with_ssl(body, line).len() == 0,
{
    law_direct_nonempty_iff_top_level(body, "ssl_certificate"@);
    law_direct_results_are_top_level(body, "listen"@);
    let listens = spec_directives_direct(body, "listen"@);
    if spec_listens_ssl(body) {
        let (i, j) = choose|i: int, j: int|
            0 <= i < listens.len() && 0 <= j < listens[i].args.len() && listens[i].args[j] == "ssl"@;
        let at = choose|at: int| 0 <= at < body.len() && body[at] == ItemView::Directive(listens[i]);
        assert(listens[i].args.contains("ssl"@));
        assert(false);
    }
}

proof fn lemma_first_args_lower_contains(ds: Seq<DirectiveView>, h: Seq<char>)
    ensures
        first_args_lower(ds).contains(h) <==> exists|k: int|
            0 <= k < ds.len() && (#[trigger] ds[k]).args.len() > 0 && spec_ascii_lower(ds[k].args[0]) == h,
    decreases ds.len(),
{
    if ds.len() > 0 {
        let dl = ds.drop_last();
        lemma_first_args_lower_contains(dl, h);
        let f0 = first_args_lower(dl);
        let f = first_args_lower(ds);
        if f.contains(h) {
            let m = choose|m: int| 0 <= m < f.len() && f[m] == h;
            if m < f0.len() {
                assert(f0[m] == h);
                let k = choose|k: int|
                    0 <= k < dl.len() && (#[trigger] dl[k]).args.len() > 0 && spec_ascii_lower(dl[k].args[0]) == h;
                assert(ds[k] == dl[k]);
            } else {
                assert(ds[ds.len() - 1].args.len() > 0);
            }
        }
        if exists|k: int|
            0 <= k < ds.len() && (#[trigger] ds[k]).args.len() > 0 && spec_ascii_lower(ds[k].args[0]) == h {
            let k = choose|k: int|
                0 <= k < ds.len() && (#[trigger] ds[k]).args.len() > 0 && spec_ascii_lower(ds[k].args[0]) == h;
            if k < ds.len() - 1 {
                assert(dl[k] == ds[k]);
                let m = choose|m: int| 0 <= m < f0.len() && f0[m] == h;
                assert(f[m] == h);
            } else {
                assert(f[f0.len() as int] == h);
            }
        }
    }
}

/// Whether some `add_header` anywhere in `body` names header `h` (given in
/// lower case) as its first argument, whatever arguments follow.
pub open spec fn some_add_header_names(body: Seq<ItemView>, h: Seq<char>) -> bool {
    let ds = spec_directives_recursive(body, "add_header"@);
    exists|k: int| 0 <= k < ds.len() && (#[trigger] ds[k]).args.len() > 0 && spec_ascii_lower(ds[k].args[0]) == h
}

/// Rule 1 reports one warning for each of the two headers that no
/// `add_header` in the server block (or below) names by its first
/// argument, compared without regard to ASCII case; further arguments
/// (such as `always`) do not matter.
pub proof fn law_security_headers_by_first_argument(body: Seq<ItemView>, line: nat)
    ensures
        spec_check_missing_security_headers(body, line).len() == (if some_add_header_names(
            body,
            "x-frame-options"@,
        ) {
            0int
        } else {
            1int
        }) + (if some_add_header_names(body, "x-content-type-options"@) {
            0int
        } else {
            1int
        }),
        forall|k: int|
            0 <= k < spec_check_missing_security_headers(body, line).len() ==> (
            #[trigger] spec_check_missing_security_headers(body, line)[k]).rule
                == "missing-security-header"@ && spec_check_missing_security_headers(body, line)[k].line
                == line,
{
    let ds = spec_directives_recursive(body, "add_header"@);
    lemma_first_args_lower_contains(ds, "x-frame-options"@);
    lemma_first_args_lower_contains(ds, "x-content-type-options"@);
}

proof fn lemma_server_tokens_findings_has(ds: Seq<DirectiveView>, k: int)
    requires
        0 <= k < ds.len(),
        ds[k].args.len() > 0,
        spec_ascii_lower(ds[k].args[0]) == spec_ascii_lower("on"@),
    ensures
        exists|m: int|
            0 <= m < server_tokens_findings(ds).len() && (#[trigger] server_tokens_findings(ds)[m]).rule
                == "server-tokens-on"@ && server_tokens_findings(ds)[m].line == ds[k].line
                && server_tokens_findings(ds)[m].severity == Severity::Warning,
    decreases ds.len(),
{
    let dl = ds.drop_last();
    let f0 = server_tokens_findings(dl);
    let f = server_tokens_findings(ds);
    if k == ds.len() - 1 {
        assert(f[f0.len() as int] == server_tokens_finding(ds[k]));
    } else {
        assert(dl[k] == ds[k]);
        lemma_server_tokens_findings_has(dl, k);
        let m = choose|m: int|
            0 <= m < f0.len() && (#[trigger] f0[m]).rule == "server-tokens-on"@ && f0[m].line == ds[k].line
                && f0[m].severity == Severity::Warning;
        assert(f[m] == f0[m]);
    }
}

/// Rule 2 warns, on its line, about every `server_tokens` that the
/// recursive search finds with a first argument of `on` in any ASCII case.
/// With `law_top_level_directive_found` and
/// `law_recursive_closed_under_nesting`, that is every such directive at
/// any depth of nesting.
pub proof fn law_server_tokens_flags_every_on(items: Seq<ItemView>, d: DirectiveView)
    requires
        spec_directives_recursive(items, "server_tokens"@).contains(d),
        d.args.len() > 0,
        spec_ascii_lower(d.args[0]) == spec_ascii_lower("on"@),
    ensures
        exists|m: int|
            0 <= m < spec_check_server_tokens(items).len() && (#[trigger] spec_check_server_tokens(items)[m]).rule
                == "server-tokens-on"@ && spec_check_server_tokens(items)[m].line == d.line
                && spec_check_server_tokens(items)[m].severity == Severity::Warning,
{
    let ds = spec_directives_recursive(items, "server_tokens"@);
    let k = choose|k: int| 0 <= k < ds.len() && ds[k] == d;
    lemma_server_tokens_findings_has(ds, k);
    let f = server_tokens_findings(ds);
    let m = choose|m: int|
        0 <= m < f.len() && (#[trigger] f[m]).rule == "server-tokens-on"@ && f[m].line == ds[k].line
            && f[m].severity == Severity::Warning;
    assert(spec_check_server_tokens(items)[m] == f[m]);
}

proof fn lemma_body_size_findings_has(locs: Seq<BlockView>, ctx: Seq<char>, k: int)
    requires
        0 <= k < locs.len(),
        is_upload_capable(locs[k].body),
        !sets_body_size(locs[k].body),
    ensures
        exists|m: int|
            0 <= m < body_size_findings(locs, ctx).len() && (#[trigger] body_size_findings(locs, ctx)[m]).rule
                == "missing-client-max-body-size"@ && body_size_findings(locs, ctx)[m].line == locs[k].line,
    decreases locs.len(),
{
    let dl = locs.drop_last();
    let f0 = body_size_findings(dl, ctx);
    let f = body_size_findings(locs, ctx);
    if k == locs.len() - 1 {
        assert(f[f0.len() as int] == body_size_finding(ctx, locs[k]));
    } else {
        assert(dl[k] == locs[k]);
        lemma_body_size_findings_has(dl, ctx, k);
        let m = choose|m: int|
            0 <= m < f0.len() && (#[trigger] f0[m]).rule == "missing-client-max-body-size"@ && f0[m].line
                == locs[k].line;
        assert(f[m] == f0[m]);
    }
}

/// Rule 4 on a server with no `client_max_body_size` at the top level of
/// its body: it warns, on the location's line, about every location (at
/// any depth) with a `proxy_pass`, `fastcgi_pass` or `uwsgi_pass` but no
/// `client_max_body_size` at the top level of its own body, whatever other
/// locations set.
pub proof fn law_body_size_flags_unlimited_backends(body: Seq<ItemView>, line: nat, loc: BlockView)
    requires
        !has_top_level_directive(body, "client_max_body_size"@),
        spec_blocks_recursive(body, "location"@).contains(loc),
        has_top_level_directive(loc.body, "proxy_pass"@) || has_top_level_directive(loc.body, "fastcgi_pass"@)
            || has_top_level_directive(loc.body, "uwsgi_pass"@),
        !has_top_level_directive(loc.body, "client_max_body_size"@),
    ensures
        exists|m: int|
            0 <= m < spec_check_missing_body_size_limit(body, line).len() && (
            #[trigger] spec_check_missing_body_size_limit(body, line)[m]).rule
                == "missing-client-max-body-size"@ && spec_check_missing_body_size_limit(body, line)[m].line
                == loc.line,
{
    law_direct_nonempty_iff_top_level(body, "client_max_body_size"@);
    law_direct_nonempty_iff_top_level(loc.body, "client_max_body_size"@);
    law_direct_nonempty_iff_top_level(loc.body, "proxy_pass"@);
    law_direct_nonempty_iff_top_level(loc.body, "fastcgi_pass"@);
    law_direct_nonempty_iff_top_level(loc.body, "uwsgi_pass"@);
    let locs = spec_blocks_recursive(body, "location"@);
    let k = choose|k: int| 0 <= k < locs.len() && locs[k] == loc;
    let ctx = spec_server_context(spec_server_names(body), line);
    lemma_body_size_findings_has(locs, ctx, k);
    let f = body_size_findings(locs, ctx);
    let m = choose|m: int|
        0 <= m < f.len() && (#[trigger] f[m]).rule == "missing-client-max-body-size"@ && f[m].line
            == locs[k].line;
    assert(!sets_body_size(body));
    assert(spec_check_missing_body_size_limit(body, line) == f);
    assert(spec_check_missing_body_size_limit(body, line)[m] == f[m]);
}

/// Rule 4 reports nothing for a server with a `client_max_body_size` at
/// the top level of its body.
pub proof fn law_body_size_server_limit_covers_all(body: Seq<ItemView>, line: nat)
    requires
        has_top_level_directive(body, "client_max_body_size"@),
    ensures
        spec_check_missing_body_size_limit(body, line).len() == 0,
{
    law_direct_nonempty_iff_top_level(body, "client_max_body_size"@);
}

} // verus!
