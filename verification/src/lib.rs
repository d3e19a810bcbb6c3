//! Lints an nginx config file for common misconfigurations: missing
//! security headers, a leaked version string, missing or weak TLS protocol
//! pins, a wildcard server name paired with SSL, and an upload endpoint
//! with no body-size limit.

use vstd::prelude::*;

pub mod text;
pub mod parser;
pub mod parser_laws;
pub mod rules;

pub use parser::parse;
pub use rules::{lint, Finding, Severity};

use rules::{findings_view, severity_label, FindingView};
use text::{decimal, push_decimal};

verus! {

/// How many of the findings are errors.
pub open spec fn count_errors(fs: Seq<FindingView>) -> nat
    decreases fs.len(),
{
    if fs.len() == 0 {
        0
    } else {
        count_errors(fs.drop_last()) + if fs.last().severity == Severity::Error {
            1nat
        } else {
            0nat
        }
    }
}

/// The report's two lines for one finding.
pub open spec fn finding_lines(f: FindingView) -> Seq<char> {
    "["@ + severity_label(f.severity) + "] "@ + f.rule + " — "@ + f.context + " ("@ + decimal(f.line)
        + ")\n    "@ + f.message + "\n"@
}

pub open spec fn all_finding_lines(fs: Seq<FindingView>) -> Seq<char>
    decreases fs.len(),
{
    if fs.len() == 0 {
        seq![]
    } else {
        all_finding_lines(fs.drop_last()) + finding_lines(fs.last())
    }
}

/// The plain-text report for `findings` about the file named `label`.
pub open spec fn spec_render(fs: Seq<FindingView>, label: Seq<char>) -> Seq<char> {
    if fs.len() == 0 {
        label + ": clean, no findings\n"@
    } else {
        label + ": "@ + decimal(fs.len()) + " finding(s)\n\n"@ + all_finding_lines(fs) + "\n"@
            + decimal(count_errors(fs)) + " error(s), "@ + decimal((fs.len() - count_errors(fs)) as nat)
            + " warning(s)\n"@
    }
}

/// How many of the findings are warnings.
pub open spec fn count_warnings(fs: Seq<FindingView>) -> nat
    decreases fs.len(),
{
    if fs.len() == 0 {
        0
    } else {
        count_warnings(fs.drop_last()) + if fs.last().severity == Severity::Warning {
            1nat
        } else {
            0nat
        }
    }
}

/// The report's closing line counts every finding once: the warnings it
/// prints, the findings that are not errors, are exactly the findings of
/// severity warning.
pub proof fn law_errors_and_warnings_partition(fs: Seq<FindingView>)
    ensures
        count_errors(fs) + count_warnings(fs) == fs.len(),
    decreases fs.len(),
{
    if fs.len() > 0 {
        law_errors_and_warnings_partition(fs.drop_last());
    }
}

fn push_finding_lines(out: &mut String, f: &Finding)
    ensures
        final(out)@ == old(out)@ + finding_lines(f@),
{
    out.append("[");
    let sev = f.severity.to_string();
    out.append(sev.as_str());
    out.append("] ");
    out.append(f.rule);
    out.append(" — ");
    out.append(f.context.as_str());
    out.append(" (");
    push_decimal(out, f.line);
    out.append(")\n    ");
    out.append(f.message.as_str());
    out.append("\n");
    assert(out@ =~= old(out)@ + finding_lines(f@));
}

/// Renders findings as the plain-text report the command line prints.
pub fn render(findings: &[Finding], path_label: &str) -> (out: String)
    ensures
        out@ == spec_render(findings_view(findings@), path_label@),
{
    let ghost fv = findings_view(findings@);
    let mut out = String::new();
    if findings.len() == 0 {
        out.append(path_label);
        out.append(": clean, no findings\n");
        return out;
    }
    out.append(path_label);
    out.append(": ");
    push_decimal(&mut out, findings.len());
    out.append(" finding(s)\n\n");
    let ghost head = out@;
    let mut errors: usize = 0;
    let mut i: usize = 0;
    while i < findings.len()
        invariant
            i <= findings.len(),
            fv == findings_view(findings@),
            out@ == head + all_finding_lines(fv.take(i as int)),
            errors == count_errors(fv.take(i as int)),
            errors <= i,
        decreases findings.len() - i,
    {
        let f = &findings[i];
        push_finding_lines(&mut out, f);
        if f.severity == Severity::Error {
            errors += 1;
        }
        i += 1;
        assert(fv.take(i as int).drop_last() =~= fv.take(i - 1));
        assert(out@ =~= head + all_finding_lines(fv.take(i as int)));
    }
    assert(fv.take(i as int) =~= fv);
    let warnings = findings.len() - errors;
    out.append("\n");
    push_decimal(&mut out, errors);
    out.append(" error(s), ");
    push_decimal(&mut out, warnings);
    out.append(" warning(s)\n");
    out
}

/// The exit status of a run: 0 when asked not to fail or when there is
/// nothing to report, else 2 when some finding is an error and 1 when all
/// are warnings.
pub open spec fn spec_exit_code(fs: Seq<FindingView>, no_fail: bool) -> u8 {
    if no_fail || fs.len() == 0 {
        0
    } else if exists|i: int| 0 <= i < fs.len() && fs[i].severity == Severity::Error {
        2
    } else {
        1
    }
}

/// The exit status for a run that produced `findings`.
pub fn exit_code(findings: &[Finding], no_fail: bool) -> (code: u8)
    ensures
        code == spec_exit_code(findings_view(findings@), no_fail),
        no_fail || findings@.len() == 0 ==> code == 0,
        !no_fail && findings@.len() > 0 ==> (code == 2 <==> exists|i: int|
            0 <= i < findings@.len() && (#[trigger] findings@[i]).severity == Severity::Error),
        !no_fail && findings@.len() > 0 ==> (code == 1 <==> forall|i: int|
            0 <= i < findings@.len() ==> (#[trigger] findings@[i]).severity != Severity::Error),
{
    if no_fail || findings.len() == 0 {
        return 0;
    }
    let mut i: usize = 0;
    while i < findings.len()
        invariant
            i <= findings.len(),
            !no_fail,
            findings.len() > 0,
            forall|k: int| 0 <= k < i ==> findings@[k].severity != Severity::Error,
        decreases findings.len() - i,
    {
        if findings[i].severity == Severity::Error {
            assert(findings_view(findings@)[i as int].severity == Severity::Error);
            assert(0 <= i < findings_view(findings@).len());
            assert(findings@[i as int].severity == Severity::Error);
            return 2;
        }
        i += 1;
    }
    assert(forall|k: int| 0 <= k < findings.len() ==> findings_view(findings@)[k].severity == findings@[k].severity);
    1
}

} // verus!
