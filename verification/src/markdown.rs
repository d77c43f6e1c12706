//! The Markdown summary of a report, as the command line prints it.
//!
//! Numeric scores are formatted by the caller (two decimals) and handed
//! over as text; everything else is laid out here.

use vstd::prelude::*;
use vstd::string::*;

use crate::finding::{code_str, FindingCode};
use crate::model::{ApplicabilityLevel, Severity, Verdict};
use crate::report::ComponentName;
use crate::text::{decimal, decimal_text};

verus! {

/// One finding as the summary lists it.
pub struct FindingLine {
    /// The finding's code.
    pub code: FindingCode,
    /// Its severity.
    pub severity: Severity,
    /// Its confidence, already formatted.
    pub confidence: String,
    /// Its explanation.
    pub explanation: String,
}

/// One component as the summary lists it: its name, and the reason it was
/// skipped, if it was.
pub struct ComponentLine {
    /// The component.
    pub name: ComponentName,
    /// Why it was skipped; `None` when it ran.
    pub skipped: Option<String>,
}

/// What the summary shows of a report.
pub struct ReportSummary {
    /// The report's schema version.
    pub schema_version: u32,
    /// The verdict.
    pub verdict: Verdict,
    /// The verdict's confidence, already formatted.
    pub confidence: String,
    /// The anomaly burden, already formatted, if the report has one.
    pub anomaly_burden: Option<String>,
    /// The applicability level.
    pub applicability: ApplicabilityLevel,
    /// Number of sites.
    pub site_count: usize,
    /// Number of distinct element symbols.
    pub distinct_element_count: usize,
    /// The findings, in report order.
    pub findings: Vec<FindingLine>,
    /// The components, in report order.
    pub components: Vec<ComponentLine>,
}

/// The name a verdict is printed with.
pub open spec fn verdict_name(v: Verdict) -> Seq<char> {
    match v {
        Verdict::StructurallyConsistent => "StructurallyConsistent"@,
        Verdict::ReviewRecommended => "ReviewRecommended"@,
        Verdict::StrongAnomalyDetected => "StrongAnomalyDetected"@,
        Verdict::OutOfDomain => "OutOfDomain"@,
        Verdict::InvalidInput => "InvalidInput"@,
    }
}

/// The name a severity is printed with.
pub open spec fn severity_name(s: Severity) -> Seq<char> {
    match s {
        Severity::Info => "Info"@,
        Severity::Low => "Low"@,
        Severity::Medium => "Medium"@,
        Severity::High => "High"@,
        Severity::Critical => "Critical"@,
    }
}

/// The name an applicability level is printed with.
pub open spec fn applicability_name(a: ApplicabilityLevel) -> Seq<char> {
    match a {
        ApplicabilityLevel::FullyApplicable => "FullyApplicable"@,
        ApplicabilityLevel::PartiallyApplicable => "PartiallyApplicable"@,
        ApplicabilityLevel::LimitedApplicability => "LimitedApplicability"@,
        ApplicabilityLevel::NotApplicable => "NotApplicable"@,
    }
}

/// The name a component is printed with.
pub open spec fn component_name(c: ComponentName) -> Seq<char> {
    match c {
        ComponentName::InputQuality => "InputQuality"@,
        ComponentName::SiteSeparation => "SiteSeparation"@,
        ComponentName::Disorder => "Disorder"@,
        ComponentName::Coordination => "Coordination"@,
    }
}

/// The summary's headline: schema version, verdict, confidence, anomaly
/// burden (when there is one), applicability and input size.
pub open spec fn header_text(r: ReportSummary) -> Seq<char> {
    "# mikiwame report (schema v"@ + decimal_text(r.schema_version as usize) + ")\n\n"@
        + "**Verdict**: "@ + verdict_name(r.verdict) + "\n\n"@ + "**Confidence**: "@
        + r.confidence@ + "\n\n"@ + match r.anomaly_burden {
        Some(b) => "**Anomaly burden**: "@ + b@ + "\n\n"@,
        None => ""@,
    } + "**Applicability**: "@ + applicability_name(r.applicability) + "\n\n"@ + "**Input**: "@
        + decimal_text(r.site_count) + " site(s), "@ + decimal_text(r.distinct_element_count)
        + " distinct element(s)\n\n"@
}

/// One finding's line.
pub open spec fn finding_line_text(f: FindingLine) -> Seq<char> {
    "- **"@ + code_str(f.code) + "** ("@ + severity_name(f.severity) + ", confidence "@
        + f.confidence@ + "): "@ + f.explanation@ + "\n"@
}

/// The findings' lines, in order.
pub open spec fn finding_lines_text(fs: Seq<FindingLine>) -> Seq<char>
    decreases fs.len(),
{
    if fs.len() == 0 {
        Seq::empty()
    } else {
        finding_lines_text(fs.drop_last()) + finding_line_text(fs.last())
    }
}

/// The findings section: a note that there are none, or the list.
pub open spec fn findings_text(fs: Seq<FindingLine>) -> Seq<char> {
    if fs.len() == 0 {
        "No findings.\n\n"@
    } else {
        "## Findings\n\n"@ + finding_lines_text(fs) + "\n"@
    }
}

/// One component's line: ran, or skipped with the reason.
pub open spec fn component_line_text(c: ComponentLine) -> Seq<char> {
    match c.skipped {
        None => "- "@ + component_name(c.name) + ": ran\n"@,
        Some(reason) => "- "@ + component_name(c.name) + ": skipped ("@ + reason@ + ")\n"@,
    }
}

/// The components' lines, in order.
pub open spec fn component_lines_text(cs: Seq<ComponentLine>) -> Seq<char>
    decreases cs.len(),
{
    if cs.len() == 0 {
        Seq::empty()
    } else {
        component_lines_text(cs.drop_last()) + component_line_text(cs.last())
    }
}

/// The whole summary: headline, findings, then components.
pub open spec fn markdown_text(r: ReportSummary) -> Seq<char> {
    header_text(r) + findings_text(r.findings@) + "## Components\n\n"@ + component_lines_text(
        r.components@,
    )
}

fn verdict_label(v: Verdict) -> (s: &'static str)
    ensures
        s@ == verdict_name(v),
{
    match v {
        Verdict::StructurallyConsistent => "StructurallyConsistent",
        Verdict::ReviewRecommended => "ReviewRecommended",
        Verdict::StrongAnomalyDetected => "StrongAnomalyDetected",
        Verdict::OutOfDomain => "OutOfDomain",
        Verdict::InvalidInput => "InvalidInput",
    }
}

fn severity_label(s: Severity) -> (t: &'static str)
    ensures
        t@ == severity_name(s),
{
    match s {
        Severity::Info => "Info",
        Severity::Low => "Low",
        Severity::Medium => "Medium",
        Severity::High => "High",
        Severity::Critical => "Critical",
    }
}

fn applicability_label(a: ApplicabilityLevel) -> (s: &'static str)
    ensures
        s@ == applicability_name(a),
{
    match a {
        ApplicabilityLevel::FullyApplicable => "FullyApplicable",
        ApplicabilityLevel::PartiallyApplicable => "PartiallyApplicable",
        ApplicabilityLevel::LimitedApplicability => "LimitedApplicability",
        ApplicabilityLevel::NotApplicable => "NotApplicable",
    }
}

fn component_label(c: ComponentName) -> (s: &'static str)
    ensures
        s@ == component_name(c),
{
    match c {
        ComponentName::InputQuality => "InputQuality",
        ComponentName::SiteSeparation => "SiteSeparation",
        ComponentName::Disorder => "Disorder",
        ComponentName::Coordination => "Coordination",
    }
}

fn header(r: &ReportSummary) -> (s: String)
    ensures
        s@ == header_text(*r),
{
    let version = decimal(r.schema_version as usize);
    let s = String::from_str("# mikiwame report (schema v").concat(version.as_str()).concat(
        ")\n\n",
    ).concat("**Verdict**: ").concat(verdict_label(r.verdict)).concat("\n\n").concat(
        "**Confidence**: ",
    ).concat(r.confidence.as_str()).concat("\n\n");
    let s = match &r.anomaly_burden {
        Some(b) => s.concat("**Anomaly burden**: ").concat(b.as_str()).concat("\n\n"),
        None => {
            proof {
                reveal_strlit("");
                assert(s@ + ""@ =~= s@);
            }
            s
        },
    };
    let sites = decimal(r.site_count);
    let distinct = decimal(r.distinct_element_count);
    let s = s.concat("**Applicability**: ").concat(applicability_label(r.applicability)).concat(
        "\n\n",
    ).concat("**Input**: ").concat(sites.as_str()).concat(" site(s), ").concat(
        distinct.as_str(),
    ).concat(" distinct element(s)\n\n");
    assert(s@ =~= header_text(*r));
    s
}

/// Renders the Markdown summary of a report: the headline, each finding
/// with its code, severity, confidence and explanation (or a note that
/// there are none), and whether each component ran.
pub fn render_markdown(r: &ReportSummary) -> (s: String)
    ensures
        s@ == markdown_text(*r),
{
    let mut out = header(r);
    let ghost head = out@;
    if r.findings.len() == 0 {
        out = out.concat("No findings.\n\n");
    } else {
        out = out.concat("## Findings\n\n");
        let ghost start = out@;
        let mut k: usize = 0;
        while k < r.findings.len()
            invariant
                k <= r.findings@.len(),
                out@ == start + finding_lines_text(r.findings@.take(k as int)),
            decreases r.findings@.len() - k,
        {
            let f = &r.findings[k];
            proof {
                assert(r.findings@.take(k + 1).drop_last() =~= r.findings@.take(k as int));
                assert(r.findings@.take(k + 1).last() == *f);
            }
            out = out.concat("- **").concat(f.code.as_str()).concat("** (").concat(
                severity_label(f.severity),
            ).concat(", confidence ").concat(f.confidence.as_str()).concat("): ").concat(
                f.explanation.as_str(),
            ).concat("\n");
            proof {
                assert(out@ =~= start + finding_lines_text(r.findings@.take(k + 1)));
            }
            k = k + 1;
        }
        assert(r.findings@.take(r.findings@.len() as int) =~= r.findings@);
        out = out.concat("\n");
    }
    assert(out@ =~= head + findings_text(r.findings@));
    out = out.concat("## Components\n\n");
    let ghost start = out@;
    let mut k: usize = 0;
    while k < r.components.len()
        invariant
            k <= r.components@.len(),
            out@ == start + component_lines_text(r.components@.take(k as int)),
        decreases r.components@.len() - k,
    {
        let c = &r.components[k];
        proof {
            assert(r.components@.take(k + 1).drop_last() =~= r.components@.take(k as int));
            assert(r.components@.take(k + 1).last() == *c);
        }
        out = match &c.skipped {
            None => out.concat("- ").concat(component_label(c.name)).concat(": ran\n"),
            Some(reason) => out.concat("- ").concat(component_label(c.name)).concat(
                ": skipped (",
            ).concat(reason.as_str()).concat(")\n"),
        };
        proof {
            assert(out@ =~= start + component_lines_text(r.components@.take(k + 1)));
        }
        k = k + 1;
    }
    assert(r.components@.take(r.components@.len() as int) =~= r.components@);
    assert(out@ =~= markdown_text(*r));
    out
}

/// Distinct verdicts, severities, applicability levels and components are
/// printed with distinct names, so the summary never shows one as another.
pub proof fn lemma_printed_names_are_distinct()
    ensures
        forall|a: Verdict, b: Verdict| a != b ==> #[trigger] verdict_name(a) != #[trigger] verdict_name(b),
        forall|a: Severity, b: Severity| a != b ==> #[trigger] severity_name(a) != #[trigger] severity_name(b),
        forall|a: ApplicabilityLevel, b: ApplicabilityLevel|
            a != b ==> #[trigger] applicability_name(a) != #[trigger] applicability_name(b),
        forall|a: ComponentName, b: ComponentName|
            a != b ==> #[trigger] component_name(a) != #[trigger] component_name(b),
{
    reveal_strlit("StructurallyConsistent");
    reveal_strlit("ReviewRecommended");
    reveal_strlit("StrongAnomalyDetected");
    reveal_strlit("OutOfDomain");
    reveal_strlit("InvalidInput");
    reveal_strlit("Info");
    reveal_strlit("Low");
    reveal_strlit("Medium");
    reveal_strlit("High");
    reveal_strlit("Critical");
    reveal_strlit("FullyApplicable");
    reveal_strlit("PartiallyApplicable");
    reveal_strlit("LimitedApplicability");
    reveal_strlit("NotApplicable");
    reveal_strlit("InputQuality");
    reveal_strlit("SiteSeparation");
    reveal_strlit("Disorder");
    reveal_strlit("Coordination");
    assert("Info"@[0] != "High"@[0]);
    assert("InputQuality"@[0] != "Coordination"@[0]);
    assert forall|a: Verdict, b: Verdict| a != b implies #[trigger] verdict_name(a) != #[trigger] verdict_name(b) by {
        assert(verdict_name(a).len() != verdict_name(b).len());
    }
    assert forall|a: Severity, b: Severity| a != b implies #[trigger] severity_name(a) != #[trigger] severity_name(b) by {
        if severity_name(a).len() == severity_name(b).len() {
            assert(severity_name(a)[0] != severity_name(b)[0]);
        }
    }
    assert forall|a: ApplicabilityLevel, b: ApplicabilityLevel| a != b implies #[trigger] applicability_name(a)
        != #[trigger] applicability_name(b) by {
        assert(applicability_name(a).len() != applicability_name(b).len());
    }
    assert forall|a: ComponentName, b: ComponentName| a != b implies #[trigger] component_name(a)
        != #[trigger] component_name(b) by {
        if component_name(a).len() == component_name(b).len() {
            assert(component_name(a)[0] != component_name(b)[0]);
        }
    }
}

/// Each variant is printed with its own name, as `Debug` writes it.
pub proof fn lemma_printed_names_are_variant_names()
    ensures
        verdict_name(Verdict::StructurallyConsistent) == "StructurallyConsistent"@,
        verdict_name(Verdict::ReviewRecommended) == "ReviewRecommended"@,
        verdict_name(Verdict::StrongAnomalyDetected) == "StrongAnomalyDetected"@,
        verdict_name(Verdict::OutOfDomain) == "OutOfDomain"@,
        verdict_name(Verdict::InvalidInput) == "InvalidInput"@,
        severity_name(Severity::Info) == "Info"@,
        severity_name(Severity::Low) == "Low"@,
        severity_name(Severity::Medium) == "Medium"@,
        severity_name(Severity::High) == "High"@,
        severity_name(Severity::Critical) == "Critical"@,
        applicability_name(ApplicabilityLevel::FullyApplicable) == "FullyApplicable"@,
        applicability_name(ApplicabilityLevel::PartiallyApplicable) == "PartiallyApplicable"@,
        applicability_name(ApplicabilityLevel::LimitedApplicability) == "LimitedApplicability"@,
        applicability_name(ApplicabilityLevel::NotApplicable) == "NotApplicable"@,
        component_name(ComponentName::InputQuality) == "InputQuality"@,
        component_name(ComponentName::SiteSeparation) == "SiteSeparation"@,
        component_name(ComponentName::Disorder) == "Disorder"@,
        component_name(ComponentName::Coordination) == "Coordination"@,
{
}

} // verus!
