//! The diagnostic decisions on the facts a caller measures for the NaCl
//! fixture (a = 5.6402 Å, four Na and four Cl in the conventional cell) and
//! for its intentionally broken variants.

use std::collections::HashSet;

use mikiwame::assessment::{assess, Assessment, CoordinationRun};
use mikiwame::diagnostics::input_quality::{
    self, LatticeStatus, OccupancyStatus, SiteFacts, StructureFacts,
};
use mikiwame::diagnostics::{disorder, separation};
use mikiwame::structure_view::{PeriodicDistanceMethod, Proximity};
use mikiwame::{
    ApplicabilityLevel, ComponentName, ComponentStatus, Diagnosis, EvidenceSource, FindingCode,
    FindingScope, Severity, Verdict,
};

/// A structure as the caller measured it: the lattice class, each site's
/// element, coordinate finiteness and occupancy, and which pairs of sites
/// coincide under periodic boundary conditions.
struct Measured {
    lattice: LatticeStatus,
    sites: Vec<(String, bool, f64)>,
    coincident: Vec<(usize, usize)>,
    method: PeriodicDistanceMethod,
}

fn nacl() -> Measured {
    let mut sites = Vec::new();
    for _ in 0..4 {
        sites.push(("Na".to_string(), true, 1.0));
    }
    for _ in 0..4 {
        sites.push(("Cl".to_string(), true, 1.0));
    }
    Measured {
        lattice: LatticeStatus::Valid,
        sites,
        coincident: Vec::new(),
        method: PeriodicDistanceMethod::Exact,
    }
}

fn occupancy_status(o: f64) -> OccupancyStatus {
    if !o.is_finite() {
        OccupancyStatus::NonFinite
    } else if (0.0..=1.0).contains(&o) {
        OccupancyStatus::InRange
    } else {
        OccupancyStatus::OutOfRange
    }
}

struct Run {
    findings: Vec<Diagnosis>,
    assessment: Assessment,
}

fn run(m: &Measured) -> Run {
    let elements: Vec<String> = m.sites.iter().map(|s| s.0.clone()).collect();
    let facts = StructureFacts {
        lattice: m.lattice,
        sites: m
            .sites
            .iter()
            .map(|(e, finite, o)| SiteFacts {
                element: e.clone(),
                coordinates_finite: *finite,
                occupancy: occupancy_status(*o),
            })
            .collect(),
    };
    let quality = input_quality::check(&facts);
    let mut findings = quality.diagnoses;
    if !quality.fatal {
        let mut p = Proximity::new(m.sites.len(), m.method.clone());
        for &(i, j) in &m.coincident {
            p.mark(i, j);
        }
        findings.extend(separation::check(&elements, &p));
        let (groups, note) = disorder::disorder_groups(&elements, &p);
        let over_full: Vec<bool> = groups
            .iter()
            .map(|g| g.iter().map(|&i| m.sites[i].2).sum::<f64>() > 1.0 + 1e-9)
            .collect();
        findings.extend(disorder::check(&groups, &over_full, &note));
    }
    let assessment = assess(quality.fatal, &findings, &elements, CoordinationRun::Ran);
    Run {
        findings,
        assessment,
    }
}

fn codes(findings: &[Diagnosis]) -> HashSet<FindingCode> {
    findings.iter().map(|f| f.code).collect()
}

fn all_ran(a: &Assessment) -> bool {
    a.components.iter().all(|c| c.status == ComponentStatus::Ran)
}

#[test]
fn clean_nacl_is_structurally_consistent() {
    let r = run(&nacl());
    assert_eq!(r.assessment.verdict, Verdict::StructurallyConsistent);
    assert!(r.findings.is_empty());
    assert_eq!(r.assessment.input.site_count, 8);
    assert_eq!(r.assessment.input.distinct_element_count, 2);
    assert!(all_ran(&r.assessment));
    assert_eq!(
        r.assessment.applicability.level,
        ApplicabilityLevel::FullyApplicable
    );
    assert!(r.assessment.dominant_findings.is_empty());
}

#[test]
fn empty_structure_is_invalid_input() {
    let mut m = nacl();
    m.sites.clear();
    let r = run(&m);
    assert_eq!(r.assessment.verdict, Verdict::InvalidInput);
    assert_eq!(
        codes(&r.findings),
        HashSet::from([FindingCode::InputEmptyStructure])
    );
}

#[test]
fn nonfinite_lattice_is_invalid_input() {
    let mut m = nacl();
    m.lattice = LatticeStatus::NonFinite;
    let r = run(&m);
    assert_eq!(r.assessment.verdict, Verdict::InvalidInput);
    assert_eq!(
        codes(&r.findings),
        HashSet::from([FindingCode::InputNonfiniteLattice])
    );
}

#[test]
fn collapsed_lattice_is_singular() {
    let mut m = nacl();
    m.lattice = LatticeStatus::NonPositiveVolume;
    let r = run(&m);
    assert_eq!(r.assessment.verdict, Verdict::InvalidInput);
    assert_eq!(
        codes(&r.findings),
        HashSet::from([FindingCode::LatticeSingular])
    );
    assert_eq!(r.findings[0].evidence, EvidenceSource::CellVolume);
}

#[test]
fn nonfinite_coordinate_is_invalid_input() {
    let mut m = nacl();
    m.sites[0].1 = false;
    let r = run(&m);
    assert_eq!(r.assessment.verdict, Verdict::InvalidInput);
    assert_eq!(
        codes(&r.findings),
        HashSet::from([FindingCode::InputNonfiniteCoordinate])
    );
    assert_eq!(r.findings[0].scope, FindingScope::Site { index: 0 });
}

#[test]
fn fatal_input_skips_the_geometry_components() {
    let mut m = nacl();
    m.sites[0].1 = false;
    let r = run(&m);
    assert_eq!(
        r.assessment.applicability.level,
        ApplicabilityLevel::NotApplicable
    );
    assert_eq!(r.assessment.components.len(), 4);
    assert_eq!(r.assessment.components[0].status, ComponentStatus::Ran);
    for c in &r.assessment.components[1..] {
        assert!(matches!(c.status, ComponentStatus::Skipped { .. }));
    }
    assert_eq!(r.assessment.provenance.radius_table_version, None);
    assert_eq!(r.assessment.provenance.coordination_method, None);
}

#[test]
fn negative_occupancy_is_review_recommended_not_fatal() {
    let mut m = nacl();
    m.sites[0].2 = -0.1;
    let r = run(&m);
    assert_eq!(r.assessment.verdict, Verdict::ReviewRecommended);
    assert_eq!(
        codes(&r.findings),
        HashSet::from([FindingCode::InputInvalidOccupancy])
    );
    assert!(all_ran(&r.assessment));
    assert_eq!(r.findings[0].evidence, EvidenceSource::SiteOccupancy);
}

#[test]
fn occupancy_above_one_is_invalid() {
    let mut m = nacl();
    m.sites[1].2 = 1.2;
    let r = run(&m);
    assert_eq!(
        codes(&r.findings),
        HashSet::from([FindingCode::InputInvalidOccupancy])
    );
}

#[test]
fn nonfinite_occupancy_has_no_numeric_evidence() {
    let mut m = nacl();
    m.sites[2].2 = f64::NAN;
    let r = run(&m);
    assert_eq!(
        codes(&r.findings),
        HashSet::from([FindingCode::InputInvalidOccupancy])
    );
    assert_eq!(r.findings[0].evidence, EvidenceSource::NoEvidence);
    assert_eq!(r.findings[0].scope, FindingScope::Site { index: 2 });
}

#[test]
fn unknown_element_symbol_is_flagged_but_not_fatal() {
    let mut m = nacl();
    m.sites[0].0 = "Xx".to_string();
    let r = run(&m);
    assert_eq!(r.assessment.verdict, Verdict::ReviewRecommended);
    assert_eq!(
        codes(&r.findings),
        HashSet::from([FindingCode::InputUnknownElement])
    );
    assert_eq!(r.findings[0].severity, Severity::High);
    assert!(all_ran(&r.assessment));
}

#[test]
fn coincident_same_element_sites_are_duplicates() {
    let mut m = nacl();
    m.coincident.push((0, 1));
    let r = run(&m);
    assert_eq!(r.assessment.verdict, Verdict::StrongAnomalyDetected);
    assert_eq!(
        codes(&r.findings),
        HashSet::from([FindingCode::SiteDuplicate])
    );
    assert!(r.findings[0].limitations.is_empty());
    assert_eq!(r.findings[0].scope, FindingScope::SitePair { a: 0, b: 1 });
    assert_eq!(r.findings[0].evidence, EvidenceSource::PairDistance);
    assert_eq!(
        r.assessment.dominant_findings,
        vec![FindingCode::SiteDuplicate]
    );
}

#[test]
fn coincident_same_element_sites_on_a_near_singular_lattice_note_the_fallback() {
    let m = Measured {
        lattice: LatticeStatus::Valid,
        sites: vec![("Na".to_string(), true, 1.0), ("Na".to_string(), true, 1.0)],
        coincident: vec![(0, 1)],
        method: PeriodicDistanceMethod::ApproximateFallback {
            reason: "lattice is near-singular".to_string(),
        },
    };
    let r = run(&m);
    assert_eq!(
        codes(&r.findings),
        HashSet::from([FindingCode::SiteDuplicate])
    );
    let limitations = &r.findings[0].limitations;
    assert_eq!(limitations.len(), 1, "got {limitations:?}");
    assert!(
        limitations[0].contains("approximated"),
        "expected the fallback caveat, got {limitations:?}"
    );
    assert!(limitations[0].contains("(lattice is near-singular)"));
}

#[test]
fn coincident_different_element_sites_with_valid_occupancy_sum_are_disorder_not_duplicates() {
    let mut m = nacl();
    m.coincident.push((0, 4));
    m.sites[0].2 = 0.5;
    m.sites[4].2 = 0.5;
    let r = run(&m);
    assert_eq!(r.assessment.verdict, Verdict::StructurallyConsistent);
    assert_eq!(
        codes(&r.findings),
        HashSet::from([FindingCode::DisorderPresent])
    );
    assert_eq!(
        r.findings[0].scope,
        FindingScope::SiteGroup {
            indices: vec![0, 4]
        }
    );
    assert_eq!(r.findings[0].severity, Severity::Info);
}

#[test]
fn coincident_different_element_sites_with_full_occupancy_each_exceed_the_site() {
    let mut m = nacl();
    m.coincident.push((0, 4));
    let r = run(&m);
    assert_eq!(r.assessment.verdict, Verdict::ReviewRecommended);
    assert_eq!(
        codes(&r.findings),
        HashSet::from([
            FindingCode::DisorderPresent,
            FindingCode::DisorderOccupancySumExceedsOne,
        ])
    );
    assert_eq!(
        r.assessment.dominant_findings,
        vec![FindingCode::DisorderOccupancySumExceedsOne]
    );
}

#[test]
fn three_coinciding_sites_with_two_elements_form_one_disorder_group() {
    let mut m = nacl();
    m.coincident.push((0, 1));
    m.coincident.push((1, 4));
    m.sites[0].2 = 0.25;
    m.sites[1].2 = 0.25;
    m.sites[4].2 = 0.5;
    let r = run(&m);
    assert_eq!(
        codes(&r.findings),
        HashSet::from([FindingCode::SiteDuplicate, FindingCode::DisorderPresent])
    );
    let group = r
        .findings
        .iter()
        .find(|f| f.code == FindingCode::DisorderPresent)
        .unwrap();
    assert_eq!(
        group.scope,
        FindingScope::SiteGroup {
            indices: vec![0, 1, 4]
        }
    );
}

#[test]
fn skipped_coordination_is_reported_with_its_reason() {
    let m = nacl();
    let elements: Vec<String> = m.sites.iter().map(|s| s.0.clone()).collect();
    let a = assess(
        false,
        &Vec::new(),
        &elements,
        CoordinationRun::Skipped("neighbor search failed".to_string()),
    );
    assert_eq!(a.components[3].name, ComponentName::Coordination);
    assert_eq!(
        a.components[3].status,
        ComponentStatus::Skipped {
            reason: "neighbor search failed".to_string()
        }
    );
    assert_eq!(a.provenance.coordination_method, None);
    assert_eq!(a.verdict, Verdict::StructurallyConsistent);
}

#[test]
fn ran_coordination_records_its_method_in_provenance() {
    let r = run(&nacl());
    assert_eq!(
        r.assessment.provenance.radius_table_version.as_deref(),
        Some("cordero-2008-table2")
    );
    assert_eq!(
        r.assessment.provenance.coordination_method.as_deref(),
        Some(
            "covalent-radius-sum-plus-tolerance(epsilon=0.4A, largest-relative-gap shell detection, cordero-2008-table2)"
        )
    );
    assert_eq!(r.assessment.provenance.mikiwame_version, "0.4.0");
    assert!(r.assessment.provenance.deterministic);
}

fn code_counts(findings: &[Diagnosis]) -> std::collections::HashMap<FindingCode, usize> {
    let mut counts = std::collections::HashMap::new();
    for f in findings {
        *counts.entry(f.code).or_insert(0) += 1;
    }
    counts
}

/// The NaCl fixture with one duplicate pair and one invalid occupancy.
fn broken() -> Measured {
    let mut m = nacl();
    m.coincident.push((0, 1));
    m.sites[2].2 = 1.4;
    m
}

#[test]
fn site_order_does_not_change_verdict_or_finding_codes() {
    let in_order = broken();
    let n = in_order.sites.len();
    // Reverse the site order; site i moves to n - 1 - i.
    let reversed = Measured {
        lattice: in_order.lattice,
        sites: in_order.sites.iter().rev().cloned().collect(),
        coincident: in_order
            .coincident
            .iter()
            .map(|&(i, j)| (n - 1 - i, n - 1 - j))
            .collect(),
        method: in_order.method.clone(),
    };
    let a = run(&in_order);
    let b = run(&reversed);
    assert_eq!(a.assessment.verdict, b.assessment.verdict);
    assert_eq!(code_counts(&a.findings), code_counts(&b.findings));
    assert_eq!(a.assessment.verdict, Verdict::StrongAnomalyDetected);
}

#[test]
fn site_order_does_not_change_disorder_findings() {
    let mut in_order = nacl();
    in_order.coincident.push((0, 4));
    in_order.coincident.push((1, 5));
    in_order.sites[1].2 = 0.5;
    in_order.sites[5].2 = 0.5;
    let n = in_order.sites.len();
    // Rotate the site list by three places; site i moves to (i + 3) % n.
    let mut sites = in_order.sites.clone();
    sites.rotate_right(3);
    let rotated = Measured {
        lattice: in_order.lattice,
        sites,
        coincident: in_order
            .coincident
            .iter()
            .map(|&(i, j)| ((i + 3) % n, (j + 3) % n))
            .collect(),
        method: in_order.method.clone(),
    };
    let a = run(&in_order);
    let b = run(&rotated);
    assert_eq!(code_counts(&a.findings), code_counts(&b.findings));
    assert_eq!(a.assessment.verdict, b.assessment.verdict);
    assert_eq!(code_counts(&a.findings)[&FindingCode::DisorderPresent], 2);
    assert_eq!(
        code_counts(&a.findings)[&FindingCode::DisorderOccupancySumExceedsOne],
        1
    );
}

#[test]
fn element_recognition_is_taken_as_given() {
    let facts = StructureFacts {
        lattice: LatticeStatus::Valid,
        sites: vec![
            SiteFacts {
                element: "Na".to_string(),
                coordinates_finite: true,
                occupancy: OccupancyStatus::InRange,
            },
            SiteFacts {
                element: "Qq".to_string(),
                coordinates_finite: true,
                occupancy: OccupancyStatus::InRange,
            },
        ],
    };
    let given = input_quality::check_with(&facts, &vec![false, true]);
    assert!(!given.fatal);
    assert_eq!(given.diagnoses.len(), 1);
    assert_eq!(given.diagnoses[0].code, FindingCode::InputUnknownElement);
    assert_eq!(given.diagnoses[0].scope, FindingScope::Site { index: 0 });

    let asked = input_quality::check(&facts);
    assert_eq!(asked.diagnoses.len(), 1);
    assert_eq!(asked.diagnoses[0].scope, FindingScope::Site { index: 1 });
}
