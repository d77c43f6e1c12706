use mikiwame::markdown::{render_markdown, ComponentLine, FindingLine, ReportSummary};
use mikiwame::{ApplicabilityLevel, ComponentName, FindingCode, Severity, Verdict};

fn unknown_element_summary() -> ReportSummary {
    ReportSummary {
        schema_version: 3,
        verdict: Verdict::ReviewRecommended,
        confidence: "1.00".to_string(),
        anomaly_burden: None,
        applicability: ApplicabilityLevel::FullyApplicable,
        site_count: 1,
        distinct_element_count: 1,
        findings: vec![FindingLine {
            code: FindingCode::InputUnknownElement,
            severity: Severity::High,
            confidence: "1.00".to_string(),
            explanation: "site 0 has element symbol \"Xx\", which is not a recognized periodic-table symbol".to_string(),
        }],
        components: vec![
            ComponentLine {
                name: ComponentName::InputQuality,
                skipped: None,
            },
            ComponentLine {
                name: ComponentName::Coordination,
                skipped: Some("neighbor search failed".to_string()),
            },
        ],
    }
}

#[test]
fn render_markdown_includes_verdict_and_findings() {
    let markdown = render_markdown(&unknown_element_summary());
    assert!(markdown.contains("ReviewRecommended"));
    assert!(markdown.contains("INPUT_UNKNOWN_ELEMENT"));
}

#[test]
fn render_markdown_lays_out_every_section() {
    let markdown = render_markdown(&unknown_element_summary());
    assert_eq!(
        markdown,
        "# mikiwame report (schema v3)\n\n\
         **Verdict**: ReviewRecommended\n\n\
         **Confidence**: 1.00\n\n\
         **Applicability**: FullyApplicable\n\n\
         **Input**: 1 site(s), 1 distinct element(s)\n\n\
         ## Findings\n\n\
         - **INPUT_UNKNOWN_ELEMENT** (High, confidence 1.00): site 0 has element symbol \"Xx\", which is not a recognized periodic-table symbol\n\
         \n\
         ## Components\n\n\
         - InputQuality: ran\n\
         - Coordination: skipped (neighbor search failed)\n"
    );
}

#[test]
fn render_markdown_notes_when_there_are_no_findings() {
    let mut summary = unknown_element_summary();
    summary.findings.clear();
    summary.verdict = Verdict::StructurallyConsistent;
    summary.anomaly_burden = Some("0.25".to_string());
    summary.components.clear();
    summary.site_count = 8;
    summary.distinct_element_count = 2;
    assert_eq!(
        render_markdown(&summary),
        "# mikiwame report (schema v3)\n\n\
         **Verdict**: StructurallyConsistent\n\n\
         **Confidence**: 1.00\n\n\
         **Anomaly burden**: 0.25\n\n\
         **Applicability**: FullyApplicable\n\n\
         **Input**: 8 site(s), 2 distinct element(s)\n\n\
         No findings.\n\n\
         ## Components\n\n"
    );
}
