use std::collections::HashSet;

use mikiwame::assessment::{decide_verdict, dominant_findings, input_summary};
use mikiwame::diagnostics::coordination::method_description;
use mikiwame::element::is_recognized_element;
use mikiwame::structure_view::{coincidence_groups, PeriodicDistanceMethod, Proximity};
use mikiwame::text::str_eq;
use mikiwame::{
    AnalysisConfig, Diagnosis, EvidenceSource, FindingCode, FindingScope, Provenance, Severity,
    Unit, Verdict, SCHEMA_VERSION,
};

const ALL_CODES: [FindingCode; 9] = [
    FindingCode::InputEmptyStructure,
    FindingCode::InputNonfiniteLattice,
    FindingCode::InputNonfiniteCoordinate,
    FindingCode::InputInvalidOccupancy,
    FindingCode::InputUnknownElement,
    FindingCode::LatticeSingular,
    FindingCode::SiteDuplicate,
    FindingCode::DisorderPresent,
    FindingCode::DisorderOccupancySumExceedsOne,
];

#[test]
fn finding_code_strings_are_the_stable_names() {
    let names: Vec<&str> = ALL_CODES.iter().map(|c| c.as_str()).collect();
    assert_eq!(
        names,
        vec![
            "INPUT_EMPTY_STRUCTURE",
            "INPUT_NONFINITE_LATTICE",
            "INPUT_NONFINITE_COORDINATE",
            "INPUT_INVALID_OCCUPANCY",
            "INPUT_UNKNOWN_ELEMENT",
            "LATTICE_SINGULAR",
            "SITE_DUPLICATE",
            "DISORDER_PRESENT",
            "DISORDER_OCCUPANCY_SUM_EXCEEDS_ONE",
        ]
    );
}

#[test]
fn finding_code_strings_are_distinct() {
    let distinct: HashSet<&str> = ALL_CODES.iter().map(|c| c.as_str()).collect();
    assert_eq!(distinct.len(), ALL_CODES.len());
}

#[test]
fn severity_ranks_follow_the_derived_order() {
    let all = [
        Severity::Info,
        Severity::Low,
        Severity::Medium,
        Severity::High,
        Severity::Critical,
    ];
    for (k, s) in all.iter().enumerate() {
        assert_eq!(s.rank() as usize, k);
    }
    for a in &all {
        for b in &all {
            assert_eq!(a < b, a.rank() < b.rank());
        }
    }
}

#[test]
fn unit_symbols() {
    assert_eq!(Unit::Angstrom.symbol(), "\u{c5}");
    assert_eq!(Unit::CubicAngstrom.symbol(), "\u{c5}\u{b3}");
    assert_eq!(Unit::Dimensionless.symbol(), "");
}

#[test]
fn provenance_records_the_crate_version_and_given_tables() {
    let p = Provenance::current(Some("t".to_string()), None);
    assert_eq!(p.mikiwame_version, "0.4.0");
    assert!(p.deterministic);
    assert_eq!(p.radius_table_version.as_deref(), Some("t"));
    assert_eq!(p.oxidation_table_version, None);
    assert_eq!(p.coordination_method, None);
}

#[test]
fn schema_version_and_default_config() {
    assert_eq!(SCHEMA_VERSION, 3);
    assert_eq!(AnalysisConfig::default(), AnalysisConfig::default());
}

#[test]
fn exact_distance_method_has_no_limitation() {
    assert_eq!(PeriodicDistanceMethod::Exact.limitation(), None);
}

#[test]
fn fallback_distance_method_names_its_reason() {
    let m = PeriodicDistanceMethod::ApproximateFallback {
        reason: "axis too short".to_string(),
    };
    assert_eq!(
        m.limitation().as_deref(),
        Some(
            "periodic distance approximated by independent per-axis rounding, not the exact minimum-image search, because the lattice was rejected by chematic_crystal::Lattice::from_matrix (axis too short); may not be the true minimum image on a sufficiently skewed cell"
        )
    );
}

#[test]
fn coordination_method_is_described_with_its_tolerance_and_table() {
    assert_eq!(
        method_description(),
        "covalent-radius-sum-plus-tolerance(epsilon=0.4A, largest-relative-gap shell detection, cordero-2008-table2)"
    );
}

#[test]
fn recognized_element_symbols() {
    assert!(is_recognized_element("Na"));
    assert!(is_recognized_element("Cl"));
    assert!(is_recognized_element("Bk"));
    assert!(!is_recognized_element("Xx"));
    assert!(!is_recognized_element(""));
}

#[test]
fn str_eq_compares_characters() {
    assert!(str_eq("abc", "abc"));
    assert!(!str_eq("abc", "abd"));
    assert!(!str_eq("ab", "abc"));
    assert!(str_eq("", ""));
}

fn proximity(n: usize, pairs: &[(usize, usize)]) -> Proximity {
    let mut p = Proximity::new(n, PeriodicDistanceMethod::Exact);
    for &(i, j) in pairs {
        p.mark(i, j);
    }
    p
}

#[test]
fn proximity_is_symmetric_and_ignores_out_of_range_marks() {
    let p = proximity(3, &[(2, 0), (1, 7), (1, 1)]);
    assert_eq!(p.len(), 3);
    assert!(p.is_close(0, 2));
    assert!(p.is_close(2, 0));
    assert!(!p.is_close(1, 1));
    assert!(!p.is_close(1, 7));
    assert!(!p.is_close(0, 1));
}

#[test]
fn coincidence_groups_are_connected_components_in_order() {
    let p = proximity(6, &[(4, 1), (1, 3), (5, 2)]);
    let (groups, note) = coincidence_groups(&p);
    assert_eq!(groups, vec![vec![0], vec![1, 3, 4], vec![2, 5]]);
    assert_eq!(note, None);
}

#[test]
fn coincidence_groups_of_no_sites_is_empty() {
    let p = proximity(0, &[]);
    let (groups, note) = coincidence_groups(&p);
    assert!(groups.is_empty());
    assert_eq!(note, None);
}

#[test]
fn coincidence_groups_carry_the_fallback_caveat_when_pairs_were_compared() {
    let mut p = Proximity::new(
        2,
        PeriodicDistanceMethod::ApproximateFallback {
            reason: "r".to_string(),
        },
    );
    p.mark(0, 1);
    let (groups, note) = coincidence_groups(&p);
    assert_eq!(groups, vec![vec![0, 1]]);
    assert!(note.unwrap().contains("approximated"));

    let single = Proximity::new(
        1,
        PeriodicDistanceMethod::ApproximateFallback {
            reason: "r".to_string(),
        },
    );
    assert_eq!(coincidence_groups(&single).1, None);
}

#[test]
fn grouping_does_not_depend_on_the_order_pairs_were_marked() {
    let a = proximity(5, &[(0, 3), (3, 4), (1, 2)]);
    let b = proximity(5, &[(2, 1), (4, 3), (3, 0)]);
    assert_eq!(coincidence_groups(&a).0, coincidence_groups(&b).0);
}

fn finding(code: FindingCode, severity: Severity) -> Diagnosis {
    Diagnosis::plain(code, severity, FindingScope::WholeStructure, EvidenceSource::NoEvidence)
}

#[test]
fn verdict_follows_the_highest_severity() {
    assert_eq!(decide_verdict(&Vec::new()), Verdict::StructurallyConsistent);
    assert_eq!(
        decide_verdict(&vec![finding(FindingCode::DisorderPresent, Severity::Info)]),
        Verdict::StructurallyConsistent
    );
    assert_eq!(
        decide_verdict(&vec![
            finding(FindingCode::DisorderPresent, Severity::Info),
            finding(FindingCode::InputUnknownElement, Severity::High),
        ]),
        Verdict::ReviewRecommended
    );
    assert_eq!(
        decide_verdict(&vec![finding(FindingCode::SiteDuplicate, Severity::Low)]),
        Verdict::ReviewRecommended
    );
    assert_eq!(
        decide_verdict(&vec![
            finding(FindingCode::InputUnknownElement, Severity::High),
            finding(FindingCode::SiteDuplicate, Severity::Critical),
        ]),
        Verdict::StrongAnomalyDetected
    );
}

#[test]
fn verdict_does_not_depend_on_finding_order_or_repetition() {
    let a = vec![
        finding(FindingCode::DisorderPresent, Severity::Info),
        finding(FindingCode::InputUnknownElement, Severity::High),
    ];
    let b = vec![
        finding(FindingCode::InputUnknownElement, Severity::High),
        finding(FindingCode::DisorderPresent, Severity::Info),
        finding(FindingCode::InputInvalidOccupancy, Severity::High),
    ];
    assert_eq!(decide_verdict(&a), decide_verdict(&b));
}

#[test]
fn dominant_findings_are_the_top_severity_codes_once_each() {
    let fs = vec![
        finding(FindingCode::DisorderPresent, Severity::Info),
        finding(FindingCode::InputInvalidOccupancy, Severity::High),
        finding(FindingCode::InputUnknownElement, Severity::High),
        finding(FindingCode::InputInvalidOccupancy, Severity::High),
    ];
    assert_eq!(
        dominant_findings(&fs),
        vec![
            FindingCode::InputInvalidOccupancy,
            FindingCode::InputUnknownElement
        ]
    );
    assert!(dominant_findings(&Vec::new()).is_empty());
}

#[test]
fn input_summary_counts_distinct_symbols() {
    let elements: Vec<String> = ["Na", "Cl", "Na", "na", "Cl"]
        .iter()
        .map(|s| s.to_string())
        .collect();
    let s = input_summary(&elements);
    assert_eq!(s.site_count, 5);
    assert_eq!(s.distinct_element_count, 3);
    assert_eq!(input_summary(&Vec::new()).distinct_element_count, 0);
}
