//! Turning the findings of the components into the report's headline: the
//! verdict, the dominant findings, applicability, which components ran,
//! the input summary and provenance.

use vstd::prelude::*;
use vstd::string::*;

use crate::finding::{
    diagnosis_views, finding_count, lemma_finding_count_positive, string_views, Diagnosis,
    DiagnosisView, FindingCode,
};
use crate::model::{severity_rank, ApplicabilityLevel, Severity, Verdict};
use crate::provenance::{Provenance, CRATE_VERSION};
use crate::diagnostics::coordination::{method_description, coordination_method_text};
use crate::radii::RADIUS_TABLE_VERSION;
use crate::report::{
    ApplicabilityAssessment, ComponentAssessment, ComponentName, ComponentStatus, InputSummary,
};

verus! {

/// The verdict of a list of findings: a critical finding means a strong
/// anomaly; only informational findings (or none) mean structurally
/// consistent; anything else means review recommended.
pub open spec fn verdict_for(ds: Seq<DiagnosisView>) -> Verdict {
    if exists|k: int| 0 <= k < ds.len() && (#[trigger] ds[k]).severity == Severity::Critical {
        Verdict::StrongAnomalyDetected
    } else if forall|k: int| 0 <= k < ds.len() ==> (#[trigger] ds[k]).severity == Severity::Info {
        Verdict::StructurallyConsistent
    } else {
        Verdict::ReviewRecommended
    }
}

/// Decides the verdict from the findings' severities. Informational
/// findings alone (e.g. disorder present) do not move the verdict off
/// structurally consistent.
pub fn decide_verdict(findings: &Vec<Diagnosis>) -> (v: Verdict)
    ensures
        v == verdict_for(diagnosis_views(findings@)),
{
    let ghost dv = diagnosis_views(findings@);
    let mut any_critical = false;
    let mut all_info = true;
    let mut k: usize = 0;
    while k < findings.len()
        invariant
            k <= findings@.len(),
            dv == diagnosis_views(findings@),
            any_critical == exists|m: int| 0 <= m < k && (#[trigger] dv[m]).severity == Severity::Critical,
            all_info == forall|m: int| 0 <= m < k ==> (#[trigger] dv[m]).severity == Severity::Info,
        decreases findings@.len() - k,
    {
        let r = findings[k].severity.rank();
        assert(dv[k as int].severity == findings@[k as int].severity);
        if r == 4 {
            any_critical = true;
        }
        if r != 0 {
            all_info = false;
        }
        proof {
            assert(any_critical == exists|m: int| 0 <= m < k + 1 && (#[trigger] dv[m]).severity == Severity::Critical) by {
                if any_critical && findings@[k as int].severity != Severity::Critical {
                    let m = choose|m: int| 0 <= m < k && (#[trigger] dv[m]).severity == Severity::Critical;
                }
            }
            assert(all_info == forall|m: int| 0 <= m < k + 1 ==> (#[trigger] dv[m]).severity == Severity::Info) by {
                if !all_info && r == 0 {
                    let m = choose|m: int| 0 <= m < k && (#[trigger] dv[m]).severity != Severity::Info;
                }
            }
        }
        k = k + 1;
    }
    if any_critical {
        Verdict::StrongAnomalyDetected
    } else if all_info {
        Verdict::StructurallyConsistent
    } else {
        Verdict::ReviewRecommended
    }
}

/// The verdict depends only on which severities occur among the findings:
/// reordering, repeating or dropping findings whose severity still occurs
/// leaves it unchanged.
pub proof fn lemma_verdict_depends_only_on_severities_present(
    ds1: Seq<DiagnosisView>,
    ds2: Seq<DiagnosisView>,
)
    requires
        forall|k: int| 0 <= k < ds1.len() ==> exists|m: int| 0 <= m < ds2.len() && #[trigger] ds2[m].severity == (#[trigger] ds1[k]).severity,
        forall|m: int| 0 <= m < ds2.len() ==> exists|k: int| 0 <= k < ds1.len() && #[trigger] ds1[k].severity == (#[trigger] ds2[m]).severity,
    ensures
        verdict_for(ds1) == verdict_for(ds2),
{
    if exists|k: int| 0 <= k < ds1.len() && (#[trigger] ds1[k]).severity == Severity::Critical {
        let k = choose|k: int| 0 <= k < ds1.len() && (#[trigger] ds1[k]).severity == Severity::Critical;
        let m = choose|m: int| 0 <= m < ds2.len() && #[trigger] ds2[m].severity == ds1[k].severity;
        assert(ds2[m].severity == Severity::Critical);
    } else if exists|m: int| 0 <= m < ds2.len() && (#[trigger] ds2[m]).severity == Severity::Critical {
        let m = choose|m: int| 0 <= m < ds2.len() && (#[trigger] ds2[m]).severity == Severity::Critical;
        let k = choose|k: int| 0 <= k < ds1.len() && #[trigger] ds1[k].severity == ds2[m].severity;
        assert(ds1[k].severity == Severity::Critical);
    } else {
        if !(forall|k: int| 0 <= k < ds1.len() ==> (#[trigger] ds1[k]).severity == Severity::Info) {
            let k = choose|k: int| 0 <= k < ds1.len() && (#[trigger] ds1[k]).severity != Severity::Info;
            let m = choose|m: int| 0 <= m < ds2.len() && #[trigger] ds2[m].severity == ds1[k].severity;
            assert(ds2[m].severity != Severity::Info);
        }
        if !(forall|m: int| 0 <= m < ds2.len() ==> (#[trigger] ds2[m]).severity == Severity::Info) {
            let m = choose|m: int| 0 <= m < ds2.len() && (#[trigger] ds2[m]).severity != Severity::Info;
            let k = choose|k: int| 0 <= k < ds1.len() && #[trigger] ds1[k].severity == ds2[m].severity;
            assert(ds1[k].severity != Severity::Info);
        }
    }
}

/// The highest severity rank among the findings (-1 when there are none).
pub open spec fn max_rank(ds: Seq<DiagnosisView>) -> int
    decreases ds.len(),
{
    if ds.len() == 0 {
        -1
    } else {
        let m = max_rank(ds.drop_last());
        let r = severity_rank(ds.last().severity) as int;
        if r > m {
            r
        } else {
            m
        }
    }
}

/// The codes of the findings at severity rank `r`, in order.
pub open spec fn codes_at_rank(ds: Seq<DiagnosisView>, r: int) -> Seq<FindingCode>
    decreases ds.len(),
{
    if ds.len() == 0 {
        Seq::empty()
    } else {
        codes_at_rank(ds.drop_last(), r) + if severity_rank(ds.last().severity) as int == r {
            seq![ds.last().code]
        } else {
            Seq::empty()
        }
    }
}

/// `s` with every repeat of an earlier entry dropped (first occurrences
/// kept, in order).
pub open spec fn dedup(s: Seq<FindingCode>) -> Seq<FindingCode>
    decreases s.len(),
{
    if s.len() == 0 {
        Seq::empty()
    } else {
        let d = dedup(s.drop_last());
        if d.contains(s.last()) {
            d
        } else {
            d.push(s.last())
        }
    }
}

/// The finding codes at the highest severity present, in first-seen order,
/// without duplicates.
pub open spec fn dominant_codes(ds: Seq<DiagnosisView>) -> Seq<FindingCode> {
    dedup(codes_at_rank(ds, max_rank(ds)))
}

fn contains_code(codes: &Vec<FindingCode>, c: FindingCode) -> (r: bool)
    ensures
        r == codes@.contains(c),
{
    let mut k: usize = 0;
    while k < codes.len()
        invariant
            k <= codes@.len(),
            forall|m: int| 0 <= m < k ==> codes@[m] != c,
        decreases codes@.len() - k,
    {
        if codes[k] == c {
            return true;
        }
        k = k + 1;
    }
    false
}

/// The finding codes at the highest severity present, in first-seen order,
/// without duplicates: the codes that most influenced the verdict.
pub fn dominant_findings(findings: &Vec<Diagnosis>) -> (codes: Vec<FindingCode>)
    ensures
        codes@ == dominant_codes(diagnosis_views(findings@)),
{
    let ghost dv = diagnosis_views(findings@);
    let n = findings.len();
    let mut top: i16 = -1;
    let mut k: usize = 0;
    while k < n
        invariant
            n == findings@.len(),
            k <= n,
            dv == diagnosis_views(findings@),
            top as int == max_rank(dv.take(k as int)),
            -1 <= top <= 4,
        decreases n - k,
    {
        let r = findings[k].severity.rank() as i16;
        proof {
            assert(dv.take(k + 1).drop_last() =~= dv.take(k as int));
            assert(dv.take(k + 1).last() == dv[k as int]);
        }
        if r > top {
            top = r;
        }
        k = k + 1;
    }
    assert(dv.take(n as int) =~= dv);
    let mut codes: Vec<FindingCode> = Vec::new();
    let mut k: usize = 0;
    while k < n
        invariant
            n == findings@.len(),
            k <= n,
            dv == diagnosis_views(findings@),
            top as int == max_rank(dv),
            codes@ == dedup(codes_at_rank(dv.take(k as int), top as int)),
        decreases n - k,
    {
        let d = &findings[k];
        proof {
            assert(dv.take(k + 1).drop_last() =~= dv.take(k as int));
            assert(dv.take(k + 1).last() == dv[k as int]);
            assert(dv[k as int].severity == d.severity && dv[k as int].code == d.code);
        }
        if d.severity.rank() as i16 == top {
            let ghost at_k = codes_at_rank(dv.take(k + 1), top as int);
            assert(at_k == codes_at_rank(dv.take(k as int), top as int).push(d.code));
            assert(at_k.drop_last() =~= codes_at_rank(dv.take(k as int), top as int));
            if !contains_code(&codes, d.code) {
                codes.push(d.code);
            }
        } else {
            assert(codes_at_rank(dv.take(k + 1), top as int) =~= codes_at_rank(
                dv.take(k as int),
                top as int,
            ));
        }
        k = k + 1;
    }
    assert(dv.take(n as int) =~= dv);
    codes
}

/// Applicability of the checks: not applicable when the input could not be
/// validated, fully applicable otherwise (out-of-domain structure classes
/// are not detected yet).
pub fn applicability(fatal: bool) -> (a: ApplicabilityAssessment)
    ensures
        fatal ==> a.level == ApplicabilityLevel::NotApplicable && string_views(a.reasons@) == seq![
            "input could not be validated"@,
        ],
        !fatal ==> a.level == ApplicabilityLevel::FullyApplicable && a.reasons@.len() == 0,
{
    if fatal {
        let reasons = vec![String::from_str("input could not be validated")];
        assert(string_views(reasons@) =~= seq!["input could not be validated"@]);
        ApplicabilityAssessment { level: ApplicabilityLevel::NotApplicable, reasons }
    } else {
        ApplicabilityAssessment { level: ApplicabilityLevel::FullyApplicable, reasons: Vec::new() }
    }
}

/// The reason recorded for every component skipped after a fatal input
/// quality finding.
pub open spec fn fatal_skip_reason() -> Seq<char> {
    "input quality check found a fatal problem"@
}

/// `c` is component `name` with status: ran (`reason` is `None`) or skipped
/// with `reason`.
pub open spec fn component_is(c: ComponentAssessment, name: ComponentName, reason: Option<Seq<char>>) -> bool {
    &&& c.name == name
    &&& match reason {
        None => c.status is Ran,
        Some(r) => c.status matches ComponentStatus::Skipped { reason } && reason@ == r,
    }
}

/// Which components ran: input quality always; after a fatal input quality
/// finding every later component is skipped with the same reason;
/// otherwise site separation and disorder ran, and coordination ran unless
/// `coordination_skipped` gives the reason it could not.
pub fn components(fatal: bool, coordination_skipped: Option<String>) -> (cs: Vec<ComponentAssessment>)
    ensures
        cs@.len() == 4,
        component_is(cs@[0], ComponentName::InputQuality, None),
        fatal ==> component_is(cs@[1], ComponentName::SiteSeparation, Some(fatal_skip_reason()))
            && component_is(cs@[2], ComponentName::Disorder, Some(fatal_skip_reason()))
            && component_is(cs@[3], ComponentName::Coordination, Some(fatal_skip_reason())),
        !fatal ==> component_is(cs@[1], ComponentName::SiteSeparation, None) && component_is(
            cs@[2],
            ComponentName::Disorder,
            None,
        ) && component_is(
            cs@[3],
            ComponentName::Coordination,
            match coordination_skipped {
                None => None,
                Some(r) => Some(r@),
            },
        ),
{
    let mut cs: Vec<ComponentAssessment> = Vec::new();
    cs.push(ComponentAssessment { name: ComponentName::InputQuality, status: ComponentStatus::Ran });
    if fatal {
        cs.push(
            ComponentAssessment {
                name: ComponentName::SiteSeparation,
                status: ComponentStatus::Skipped {
                    reason: String::from_str("input quality check found a fatal problem"),
                },
            },
        );
        cs.push(
            ComponentAssessment {
                name: ComponentName::Disorder,
                status: ComponentStatus::Skipped {
                    reason: String::from_str("input quality check found a fatal problem"),
                },
            },
        );
        cs.push(
            ComponentAssessment {
                name: ComponentName::Coordination,
                status: ComponentStatus::Skipped {
                    reason: String::from_str("input quality check found a fatal problem"),
                },
            },
        );
    } else {
        cs.push(
            ComponentAssessment { name: ComponentName::SiteSeparation, status: ComponentStatus::Ran },
        );
        cs.push(ComponentAssessment { name: ComponentName::Disorder, status: ComponentStatus::Ran });
        let status = match coordination_skipped {
            None => ComponentStatus::Ran,
            Some(reason) => ComponentStatus::Skipped { reason },
        };
        cs.push(ComponentAssessment { name: ComponentName::Coordination, status });
    }
    cs
}

proof fn lemma_push_to_set(s: Seq<Seq<char>>, x: Seq<char>)
    ensures
        s.push(x).to_set() == s.to_set().insert(x),
{
    assert forall|a: Seq<char>| s.push(x).contains(a) <==> s.to_set().insert(x).contains(a) by {
        if s.push(x).contains(a) {
            let q = choose|q: int| 0 <= q < s.push(x).len() && s.push(x)[q] == a;
            if q < s.len() {
                assert(s[q] == a);
                assert(s.contains(a));
            }
        }
        if s.contains(a) {
            let q = choose|q: int| 0 <= q < s.len() && s[q] == a;
            assert(s.push(x)[q] == a);
        }
        if a == x {
            assert(s.push(x)[s.len() as int] == a);
        }
    }
    assert(s.push(x).to_set() =~= s.to_set().insert(x));
}

/// The number of distinct element symbols among `elements`.
pub open spec fn distinct_symbol_count(elements: Seq<String>) -> nat {
    string_views(elements).to_set().len()
}

/// A basic summary of the analyzed structure: how many sites, and how many
/// distinct element symbols they carry.
pub fn input_summary(elements: &Vec<String>) -> (s: InputSummary)
    ensures
        s.site_count == elements@.len(),
        s.distinct_element_count == distinct_symbol_count(elements@),
{
    let ghost all = string_views(elements@);
    let mut seen: Vec<String> = Vec::new();
    let mut k: usize = 0;
    while k < elements.len()
        invariant
            k <= elements@.len(),
            all == string_views(elements@),
            string_views(seen@).no_duplicates(),
            string_views(seen@).to_set() == all.take(k as int).to_set(),
        decreases elements@.len() - k,
    {
        let e = &elements[k];
        let mut found = false;
        let mut m: usize = 0;
        while m < seen.len()
            invariant
                m <= seen@.len(),
                found == exists|q: int| 0 <= q < m && (#[trigger] seen@[q])@ == e@,
            decreases seen@.len() - m,
        {
            if seen[m] == *e {
                found = true;
            }
            m = m + 1;
        }
        let ghost before = string_views(seen@);
        proof {
            assert(all.take(k + 1) =~= all.take(k as int).push(e@));
            lemma_push_to_set(all.take(k as int), e@);
            assert(found == before.contains(e@)) by {
                if found {
                    let q = choose|q: int| 0 <= q < seen@.len() && (#[trigger] seen@[q])@ == e@;
                    assert(before[q] == e@);
                }
                if before.contains(e@) {
                    let q = choose|q: int| 0 <= q < before.len() && before[q] == e@;
                    assert(seen@[q]@ == e@);
                }
            }
        }
        if !found {
            seen.push(e.clone());
            proof {
                assert(string_views(seen@) =~= before.push(e@));
                lemma_push_to_set(before, e@);
            }
        } else {
            proof {
                assert(before.to_set().contains(e@));
                assert(before.to_set().insert(e@) =~= before.to_set());
            }
        }
        k = k + 1;
    }
    proof {
        assert(all.take(elements@.len() as int) =~= all);
        string_views(seen@).unique_seq_to_set();
    }
    InputSummary { site_count: elements.len(), distinct_element_count: seen.len() }
}

/// Whether the coordination component ran, and if not, why.
pub enum CoordinationRun {
    /// It ran, using the covalent radius table.
    Ran,
    /// It could not run, for the given reason.
    Skipped(String),
}

/// The headline of a report: everything a report states besides the
/// findings' measured numbers, the per-site local environments and the
/// numeric scores.
pub struct Assessment {
    /// The verdict.
    pub verdict: Verdict,
    /// The codes that most influenced the verdict.
    pub dominant_findings: Vec<FindingCode>,
    /// Applicability of the checks.
    pub applicability: ApplicabilityAssessment,
    /// Which components ran.
    pub components: Vec<ComponentAssessment>,
    /// Summary of the input.
    pub input: InputSummary,
    /// What produced the report.
    pub provenance: Provenance,
}

/// Assesses a structure from its findings: invalid input when input quality
/// was fatal, otherwise the verdict of the findings; the dominant findings;
/// applicability; the components (coordination counts as skipped whenever
/// input quality was fatal); the input summary; and provenance, which
/// records the radius table and coordination method exactly when
/// coordination ran.
pub fn assess(
    fatal: bool,
    findings: &Vec<Diagnosis>,
    elements: &Vec<String>,
    coordination: CoordinationRun,
) -> (a: Assessment)
    ensures
        a.verdict == if fatal {
            Verdict::InvalidInput
        } else {
            verdict_for(diagnosis_views(findings@))
        },
        a.dominant_findings@ == dominant_codes(diagnosis_views(findings@)),
        fatal ==> a.applicability.level == ApplicabilityLevel::NotApplicable && string_views(
            a.applicability.reasons@,
        ) == seq!["input could not be validated"@],
        !fatal ==> a.applicability.level == ApplicabilityLevel::FullyApplicable
            && a.applicability.reasons@.len() == 0,
        a.components@.len() == 4,
        component_is(a.components@[0], ComponentName::InputQuality, None),
        fatal ==> component_is(a.components@[1], ComponentName::SiteSeparation, Some(fatal_skip_reason()))
            && component_is(a.components@[2], ComponentName::Disorder, Some(fatal_skip_reason())),
        !fatal ==> component_is(a.components@[1], ComponentName::SiteSeparation, None)
            && component_is(a.components@[2], ComponentName::Disorder, None),
        fatal ==> component_is(a.components@[3], ComponentName::Coordination, Some(fatal_skip_reason())),
        !fatal ==> component_is(
            a.components@[3],
            ComponentName::Coordination,
            match coordination {
                CoordinationRun::Ran => None,
                CoordinationRun::Skipped(r) => Some(r@),
            },
        ),
        a.input.site_count == elements@.len(),
        a.input.distinct_element_count == distinct_symbol_count(elements@),
        a.provenance.mikiwame_version@ == CRATE_VERSION@,
        a.provenance.deterministic,
        a.provenance.oxidation_table_version is None,
        (!fatal && coordination is Ran) ==> (a.provenance.radius_table_version matches Some(v) && v@
            == RADIUS_TABLE_VERSION@),
        (!fatal && coordination is Ran) ==> (a.provenance.coordination_method matches Some(m) && m@
            == coordination_method_text()),
        (fatal || coordination is Skipped) ==> a.provenance.radius_table_version is None
            && a.provenance.coordination_method is None,
{
    let verdict = if fatal {
        Verdict::InvalidInput
    } else {
        decide_verdict(findings)
    };
    let dominant = dominant_findings(findings);
    let applicability = applicability(fatal);
    let ran = !fatal && match coordination {
        CoordinationRun::Ran => true,
        CoordinationRun::Skipped(_) => false,
    };
    let skipped = match coordination {
        CoordinationRun::Ran => None,
        CoordinationRun::Skipped(reason) => Some(reason),
    };
    let components = components(fatal, skipped);
    let input = input_summary(elements);
    let provenance = if ran {
        Provenance::current(
            Some(String::from_str(RADIUS_TABLE_VERSION)),
            Some(method_description()),
        )
    } else {
        Provenance::current(None, None)
    };
    Assessment { verdict, dominant_findings: dominant, applicability, components, input, provenance }
}

/// Two finding lists with the same number of findings of each code and
/// severity get the same verdict.
pub proof fn lemma_same_counts_same_verdict(df: Seq<DiagnosisView>, dg: Seq<DiagnosisView>)
    requires
        forall|c: FindingCode, s: Severity| finding_count(df, c, s) == #[trigger] finding_count(dg, c, s),
    ensures
        verdict_for(df) == verdict_for(dg),
{
    assert forall|k: int| 0 <= k < df.len() implies exists|m: int|
        0 <= m < dg.len() && #[trigger] dg[m].severity == (#[trigger] df[k]).severity by {
        lemma_finding_count_positive(df, df[k].code, df[k].severity);
        lemma_finding_count_positive(dg, df[k].code, df[k].severity);
        let m = choose|m: int| 0 <= m < dg.len() && (#[trigger] dg[m]).code == df[k].code && dg[m].severity == df[k].severity;
    }
    assert forall|m: int| 0 <= m < dg.len() implies exists|k: int|
        0 <= k < df.len() && #[trigger] df[k].severity == (#[trigger] dg[m]).severity by {
        lemma_finding_count_positive(dg, dg[m].code, dg[m].severity);
        lemma_finding_count_positive(df, dg[m].code, dg[m].severity);
        let k = choose|k: int| 0 <= k < df.len() && (#[trigger] df[k]).code == dg[m].code && df[k].severity == dg[m].severity;
    }
    lemma_verdict_depends_only_on_severities_present(df, dg);
}

/// The severities are ranked in the order `Info < Low < Medium < High <
/// Critical`.
pub proof fn lemma_severity_order()
    ensures
        severity_rank(Severity::Info) < severity_rank(Severity::Low),
        severity_rank(Severity::Low) < severity_rank(Severity::Medium),
        severity_rank(Severity::Medium) < severity_rank(Severity::High),
        severity_rank(Severity::High) < severity_rank(Severity::Critical),
{
}

/// Some finding of `ds` at the highest severity has code `c`.
pub open spec fn is_top_severity_code(ds: Seq<DiagnosisView>, c: FindingCode) -> bool {
    exists|k: int| #[trigger] is_top_severity(ds, k) && ds[k].code == c
}

/// Finding `k` has the highest severity among all of `ds`.
pub open spec fn is_top_severity(ds: Seq<DiagnosisView>, k: int) -> bool {
    &&& 0 <= k < ds.len()
    &&& forall|j: int| 0 <= j < ds.len() ==> severity_rank(#[trigger] ds[j].severity) <= severity_rank(ds[k].severity)
}

proof fn lemma_max_rank(ds: Seq<DiagnosisView>)
    ensures
        forall|k: int| 0 <= k < ds.len() ==> severity_rank(#[trigger] ds[k].severity) <= max_rank(ds),
        ds.len() > 0 ==> exists|k: int| 0 <= k < ds.len() && severity_rank(#[trigger] ds[k].severity) == max_rank(ds),
        ds.len() == 0 ==> max_rank(ds) == -1,
    decreases ds.len(),
{
    if ds.len() > 0 {
        let pre = ds.drop_last();
        lemma_max_rank(pre);
        assert forall|k: int| 0 <= k < ds.len() implies severity_rank(#[trigger] ds[k].severity) <= max_rank(ds) by {
            if k < ds.len() - 1 {
                assert(ds[k] == pre[k]);
            }
        }
        if severity_rank(ds.last().severity) as int > max_rank(pre) {
            assert(severity_rank(ds[ds.len() - 1].severity) == max_rank(ds));
        } else {
            let k = choose|k: int| 0 <= k < pre.len() && severity_rank(#[trigger] pre[k].severity) == max_rank(pre);
            assert(ds[k] == pre[k]);
        }
    }
}

proof fn lemma_codes_at_rank(ds: Seq<DiagnosisView>, r: int, c: FindingCode)
    ensures
        codes_at_rank(ds, r).contains(c) <==> exists|k: int|
            0 <= k < ds.len() && (#[trigger] ds[k]).code == c && severity_rank(ds[k].severity) == r,
    decreases ds.len(),
{
    if ds.len() > 0 {
        let pre = ds.drop_last();
        lemma_codes_at_rank(pre, r, c);
        let tail: Seq<FindingCode> = if severity_rank(ds.last().severity) as int == r {
            seq![ds.last().code]
        } else {
            Seq::empty()
        };
        let all = codes_at_rank(ds, r);
        assert(all == codes_at_rank(pre, r) + tail);
        if all.contains(c) {
            let i = choose|i: int| 0 <= i < all.len() && all[i] == c;
            if i < codes_at_rank(pre, r).len() {
                assert(codes_at_rank(pre, r)[i] == c);
                assert(codes_at_rank(pre, r).contains(c));
                let k = choose|k: int|
                    0 <= k < pre.len() && (#[trigger] pre[k]).code == c && severity_rank(pre[k].severity) == r;
                assert(ds[k] == pre[k]);
            } else {
                assert(ds[ds.len() - 1].code == c);
            }
        }
        if exists|k: int| 0 <= k < ds.len() && (#[trigger] ds[k]).code == c && severity_rank(ds[k].severity) == r {
            let k = choose|k: int| 0 <= k < ds.len() && (#[trigger] ds[k]).code == c && severity_rank(ds[k].severity) == r;
            if k < ds.len() - 1 {
                assert(pre[k] == ds[k]);
                let i = choose|i: int| 0 <= i < codes_at_rank(pre, r).len() && codes_at_rank(pre, r)[i] == c;
                assert(all[i] == c);
            } else {
                assert(all[all.len() - 1] == c);
            }
        }
    }
}

proof fn lemma_dedup(s: Seq<FindingCode>)
    ensures
        forall|c: FindingCode| dedup(s).contains(c) <==> s.contains(c),
        dedup(s).no_duplicates(),
    decreases s.len(),
{
    if s.len() > 0 {
        let pre = s.drop_last();
        lemma_dedup(pre);
        let d = dedup(pre);
        let x = s.last();
        let r = dedup(s);
        assert(r == if d.contains(x) { d } else { d.push(x) });
        assert forall|c: FindingCode| r.contains(c) implies s.contains(c) by {
            let j = choose|j: int| 0 <= j < r.len() && r[j] == c;
            if j < d.len() {
                assert(d[j] == c);
                assert(d.contains(c));
                assert(pre.contains(c));
                let i = choose|i: int| 0 <= i < pre.len() && pre[i] == c;
                assert(s[i] == c);
            } else {
                assert(s[s.len() - 1] == c);
            }
        }
        assert forall|c: FindingCode| s.contains(c) implies r.contains(c) by {
            let i = choose|i: int| 0 <= i < s.len() && s[i] == c;
            if i < s.len() - 1 {
                assert(pre[i] == c);
                assert(pre.contains(c));
                assert(d.contains(c));
                let j = choose|j: int| 0 <= j < d.len() && d[j] == c;
                assert(r[j] == c);
            } else if d.contains(x) {
                assert(r.contains(c));
            } else {
                assert(r[d.len() as int] == c);
            }
        }
    }
}

/// The dominant codes are exactly the codes of the findings whose severity
/// is the highest among all the findings, each listed once: a finding of
/// lower severity contributes no code, and every finding at the highest
/// severity has its code listed.
pub proof fn lemma_dominant_codes_are_the_top_severity_codes(ds: Seq<DiagnosisView>)
    ensures
        forall|i: int|
            0 <= i < dominant_codes(ds).len() ==> is_top_severity_code(ds, #[trigger] dominant_codes(ds)[i]),
        forall|k: int| #[trigger] is_top_severity(ds, k) ==> dominant_codes(ds).contains(ds[k].code),
        dominant_codes(ds).no_duplicates(),
{
    let m = max_rank(ds);
    let at = codes_at_rank(ds, m);
    lemma_max_rank(ds);
    lemma_dedup(at);
    let res = dominant_codes(ds);
    assert forall|i: int| 0 <= i < dominant_codes(ds).len() implies is_top_severity_code(ds, #[trigger] dominant_codes(ds)[i]) by {
        let c = dominant_codes(ds)[i];
        assert(res.contains(c));
        assert(at.contains(c));
        lemma_codes_at_rank(ds, m, c);
        let k = choose|k: int| 0 <= k < ds.len() && (#[trigger] ds[k]).code == c && severity_rank(ds[k].severity) == m;
        assert(is_top_severity(ds, k));
    }
    assert forall|k: int| #[trigger] is_top_severity(ds, k) implies res.contains(ds[k].code) by {
        let j = choose|j: int| 0 <= j < ds.len() && severity_rank(#[trigger] ds[j].severity) == max_rank(ds);
        assert(severity_rank(ds[j].severity) <= severity_rank(ds[k].severity));
        assert(severity_rank(ds[k].severity) == m);
        lemma_codes_at_rank(ds, m, ds[k].code);
    }
}

/// Some finding before position `k2` has severity rank `r` and code `c`.
spec fn seen_before_at_rank(ds: Seq<DiagnosisView>, r: int, c: FindingCode, k2: int) -> bool {
    exists|k1: int| 0 <= k1 < k2 && severity_rank(ds[k1].severity) == r && #[trigger] ds[k1].code == c
}

/// Some finding at the highest severity before position `k2` has code `c`.
pub open spec fn top_seen_before(ds: Seq<DiagnosisView>, c: FindingCode, k2: int) -> bool {
    exists|k1: int| 0 <= k1 < k2 && #[trigger] is_top_severity(ds, k1) && ds[k1].code == c
}

proof fn lemma_dedup_order(ds: Seq<DiagnosisView>, r: int)
    ensures
        forall|i: int, j: int, k2: int|
            #![trigger dedup(codes_at_rank(ds, r))[i], dedup(codes_at_rank(ds, r))[j], ds[k2]]
            0 <= i < j < dedup(codes_at_rank(ds, r)).len() && 0 <= k2 < ds.len() && severity_rank(
                ds[k2].severity,
            ) == r && ds[k2].code == dedup(codes_at_rank(ds, r))[j] ==> seen_before_at_rank(
                ds,
                r,
                dedup(codes_at_rank(ds, r))[i],
                k2,
            ),
    decreases ds.len(),
{
    let res = dedup(codes_at_rank(ds, r));
    if ds.len() > 0 {
        let n = ds.len() - 1;
        let pre = ds.drop_last();
        let x = ds.last();
        lemma_dedup_order(pre, r);
        let cp = codes_at_rank(pre, r);
        let rp = dedup(cp);
        lemma_dedup(cp);
        let c = codes_at_rank(ds, r);
        let tail: Seq<FindingCode> = if severity_rank(x.severity) as int == r {
            seq![x.code]
        } else {
            Seq::empty()
        };
        assert(c == cp + tail);
        if severity_rank(x.severity) as int == r {
            assert(c.drop_last() =~= cp);
            assert(c.last() == x.code);
            assert(res == if rp.contains(x.code) { rp } else { rp.push(x.code) });
        } else {
            assert(c =~= cp);
        }
        assert forall|i: int, j: int, k2: int|
            #![trigger res[i], res[j], ds[k2]]
            0 <= i < j < res.len() && 0 <= k2 < ds.len() && severity_rank(ds[k2].severity) == r
                && ds[k2].code == res[j] implies seen_before_at_rank(ds, r, res[i], k2) by {
            assert(res[i] == rp[i]);
            if j < rp.len() {
                assert(res[j] == rp[j]);
                if k2 < n {
                    assert(pre[k2] == ds[k2]);
                    assert(seen_before_at_rank(pre, r, rp[i], k2));
                    let k1 = choose|k1: int|
                        0 <= k1 < k2 && severity_rank(pre[k1].severity) == r && #[trigger] pre[k1].code == rp[i];
                    assert(ds[k1] == pre[k1]);
                } else {
                    assert(rp.contains(rp[j]));
                    assert(cp.contains(rp[j]));
                    lemma_codes_at_rank(pre, r, rp[j]);
                    let k3 = choose|k3: int|
                        0 <= k3 < pre.len() && (#[trigger] pre[k3]).code == rp[j] && severity_rank(pre[k3].severity) == r;
                    assert(seen_before_at_rank(pre, r, rp[i], k3));
                    let k1 = choose|k1: int|
                        0 <= k1 < k3 && severity_rank(pre[k1].severity) == r && #[trigger] pre[k1].code == rp[i];
                    assert(ds[k1] == pre[k1]);
                }
            } else {
                assert(res[j] == x.code);
                assert(!rp.contains(x.code));
                if k2 < n {
                    assert(pre[k2] == ds[k2]);
                    lemma_codes_at_rank(pre, r, x.code);
                    assert(cp.contains(x.code));
                }
                assert(rp.contains(rp[i]));
                assert(cp.contains(rp[i]));
                lemma_codes_at_rank(pre, r, rp[i]);
                let k1 = choose|k1: int|
                    0 <= k1 < pre.len() && (#[trigger] pre[k1]).code == rp[i] && severity_rank(pre[k1].severity) == r;
                assert(ds[k1] == pre[k1]);
            }
        }
    }
}

/// The dominant codes come in first-seen order: whenever code `a` is listed
/// before code `b`, every finding at the highest severity with code `b` is
/// preceded by one at the highest severity with code `a`.
pub proof fn lemma_dominant_codes_in_first_seen_order(ds: Seq<DiagnosisView>)
    ensures
        forall|i: int, j: int, k2: int|
            #![trigger dominant_codes(ds)[i], dominant_codes(ds)[j], is_top_severity(ds, k2)]
            0 <= i < j < dominant_codes(ds).len() && is_top_severity(ds, k2) && ds[k2].code
                == dominant_codes(ds)[j] ==> top_seen_before(ds, dominant_codes(ds)[i], k2),
{
    let m = max_rank(ds);
    assert forall|i: int, j: int, k2: int|
        #![trigger dominant_codes(ds)[i], dominant_codes(ds)[j], is_top_severity(ds, k2)]
        0 <= i < j < dominant_codes(ds).len() && is_top_severity(ds, k2) && ds[k2].code
            == dominant_codes(ds)[j] implies top_seen_before(ds, dominant_codes(ds)[i], k2) by {
        let res = dedup(codes_at_rank(ds, m));
        assert(severity_rank(ds[k2].severity) == m) by {
            lemma_max_rank(ds);
            let w = choose|w: int| 0 <= w < ds.len() && severity_rank(#[trigger] ds[w].severity) == max_rank(ds);
            assert(severity_rank(ds[w].severity) <= severity_rank(ds[k2].severity));
        }
        assert(seen_before_at_rank(ds, m, res[i], k2)) by {
            lemma_dedup_order(ds, m);
            assert(res[j] == dominant_codes(ds)[j]);
        }
        let k1 = choose|k1: int| 0 <= k1 < k2 && severity_rank(ds[k1].severity) == m && #[trigger] ds[k1].code == res[i];
        assert(is_top_severity(ds, k1)) by {
            assert forall|j2: int| 0 <= j2 < ds.len() implies severity_rank(#[trigger] ds[j2].severity) <= severity_rank(
                ds[k1].severity,
            ) by {
                assert(severity_rank(ds[j2].severity) <= severity_rank(ds[k2].severity));
            }
        }
    }
}

} // verus!
