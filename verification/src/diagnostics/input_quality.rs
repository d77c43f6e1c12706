//! Input quality checks: the no-threshold subset.
//!
//! The caller classifies each floating-point input value (finite or not,
//! in range or not, cell volume positive or not) and hands the
//! classification over as [`StructureFacts`]; this module decides which
//! findings follow and whether they are fatal. Invalid occupancy and an
//! unknown element symbol are not fatal: neither affects the geometry the
//! later components compute.

use vstd::prelude::*;

use crate::element::{is_element_symbol, is_recognized_element};
use crate::assessment::{lemma_same_counts_same_verdict, verdict_for};
use crate::finding::{
    diagnosis_views, finding_count, lemma_finding_count_add,
    plain_view, Diagnosis, DiagnosisView, EvidenceSource, FindingCode, FindingScope, ScopeView,
};
use crate::model::Severity;

verus! {

/// What the lattice matrix turned out to be.
#[derive(Debug, Clone, Copy, PartialEq, Eq, Structural)]
pub enum LatticeStatus {
    /// Some entry of the lattice matrix is NaN or infinite.
    NonFinite,
    /// All entries are finite but the cell volume (scalar triple product of
    /// the rows) is zero or negative.
    NonPositiveVolume,
    /// Finite with a positive cell volume.
    Valid,
}

/// What a site's occupancy turned out to be.
#[derive(Debug, Clone, Copy, PartialEq, Eq, Structural)]
pub enum OccupancyStatus {
    /// Finite and within `[0.0, 1.0]`.
    InRange,
    /// NaN or infinite.
    NonFinite,
    /// Finite but outside `[0.0, 1.0]`.
    OutOfRange,
}

/// The classified facts about one site.
#[derive(Debug, Clone)]
pub struct SiteFacts {
    /// The site's element symbol, as given.
    pub element: String,
    /// Whether all three fractional coordinates are finite.
    pub coordinates_finite: bool,
    /// The class of the site's occupancy.
    pub occupancy: OccupancyStatus,
}

/// The classified facts about a structure: its lattice and its sites.
#[derive(Debug, Clone)]
pub struct StructureFacts {
    /// The class of the lattice matrix.
    pub lattice: LatticeStatus,
    /// One entry per site, in the structure's site order.
    pub sites: Vec<SiteFacts>,
}

/// Result of the input quality checks.
#[derive(Debug)]
pub struct Outcome {
    /// The findings, in check order.
    pub diagnoses: Vec<Diagnosis>,
    /// Whether the later, geometry-based components must be skipped: the
    /// lattice or some site's coordinates cannot be trusted.
    pub fatal: bool,
}

/// The findings about the lattice.
pub open spec fn lattice_findings(l: LatticeStatus) -> Seq<DiagnosisView> {
    match l {
        LatticeStatus::NonFinite => seq![
            plain_view(
                FindingCode::InputNonfiniteLattice,
                Severity::Critical,
                ScopeView::Lattice,
                EvidenceSource::NoEvidence,
            ),
        ],
        LatticeStatus::NonPositiveVolume => seq![
            plain_view(
                FindingCode::LatticeSingular,
                Severity::Critical,
                ScopeView::Lattice,
                EvidenceSource::CellVolume,
            ),
        ],
        LatticeStatus::Valid => Seq::empty(),
    }
}

/// The findings about site `i`, given whether its element symbol is
/// recognized: a non-finite coordinate, then an invalid occupancy, then an
/// unknown element symbol.
pub open spec fn site_findings_given(i: int, s: SiteFacts, element_known: bool) -> Seq<DiagnosisView> {
    let scope = ScopeView::Site { index: i as usize };
    (if s.coordinates_finite {
        Seq::empty()
    } else {
        seq![
            plain_view(
                FindingCode::InputNonfiniteCoordinate,
                Severity::Critical,
                scope,
                EvidenceSource::NoEvidence,
            ),
        ]
    }) + match s.occupancy {
        OccupancyStatus::InRange => Seq::empty(),
        OccupancyStatus::NonFinite => seq![
            plain_view(
                FindingCode::InputInvalidOccupancy,
                Severity::High,
                scope,
                EvidenceSource::NoEvidence,
            ),
        ],
        OccupancyStatus::OutOfRange => seq![
            plain_view(
                FindingCode::InputInvalidOccupancy,
                Severity::High,
                scope,
                EvidenceSource::SiteOccupancy,
            ),
        ],
    } + (if element_known {
        Seq::empty()
    } else {
        seq![
            plain_view(
                FindingCode::InputUnknownElement,
                Severity::High,
                scope,
                EvidenceSource::NoEvidence,
            ),
        ]
    })
}

/// The findings about site `i`: those of [`site_findings_given`], with its
/// element symbol recognized exactly when `chematic_core` recognizes it.
pub open spec fn site_findings(i: int, s: SiteFacts) -> Seq<DiagnosisView> {
    site_findings_given(i, s, is_element_symbol(s.element@))
}

/// The findings about all sites, site by site in site order.
pub open spec fn sites_findings(sites: Seq<SiteFacts>) -> Seq<DiagnosisView>
    decreases sites.len(),
{
    if sites.len() == 0 {
        Seq::empty()
    } else {
        sites_findings(sites.drop_last()) + site_findings(sites.len() - 1, sites.last())
    }
}

/// All input quality findings: for an empty structure only the empty
/// structure finding; otherwise the lattice findings, then the site findings.
pub open spec fn input_quality_findings(f: StructureFacts) -> Seq<DiagnosisView> {
    if f.sites@.len() == 0 {
        seq![
            plain_view(
                FindingCode::InputEmptyStructure,
                Severity::Critical,
                ScopeView::WholeStructure,
                EvidenceSource::NoEvidence,
            ),
        ]
    } else {
        lattice_findings(f.lattice) + sites_findings(f.sites@)
    }
}

/// The findings about all sites, given which element symbols are
/// recognized (`element_known[k]` for site `k`).
pub open spec fn sites_findings_given(sites: Seq<SiteFacts>, element_known: Seq<bool>) -> Seq<
    DiagnosisView,
>
    decreases sites.len(),
{
    if sites.len() == 0 {
        Seq::empty()
    } else {
        sites_findings_given(sites.drop_last(), element_known) + site_findings_given(
            sites.len() - 1,
            sites.last(),
            element_known[sites.len() - 1],
        )
    }
}

/// All input quality findings, given which element symbols are recognized.
pub open spec fn input_quality_findings_given(f: StructureFacts, element_known: Seq<bool>) -> Seq<
    DiagnosisView,
> {
    if f.sites@.len() == 0 {
        seq![
            plain_view(
                FindingCode::InputEmptyStructure,
                Severity::Critical,
                ScopeView::WholeStructure,
                EvidenceSource::NoEvidence,
            ),
        ]
    } else {
        lattice_findings(f.lattice) + sites_findings_given(f.sites@, element_known)
    }
}

proof fn lemma_sites_findings_given(sites: Seq<SiteFacts>, element_known: Seq<bool>)
    requires
        sites.len() <= element_known.len(),
        forall|k: int|
            0 <= k < sites.len() ==> element_known[k] == is_element_symbol((#[trigger] sites[k]).element@),
    ensures
        sites_findings_given(sites, element_known) == sites_findings(sites),
    decreases sites.len(),
{
    if sites.len() > 0 {
        let pre = sites.drop_last();
        assert forall|k: int| 0 <= k < pre.len() implies element_known[k] == is_element_symbol(
            (#[trigger] pre[k]).element@,
        ) by {
            assert(pre[k] == sites[k]);
        }
        lemma_sites_findings_given(pre, element_known);
        assert(sites.last() == sites[sites.len() - 1]);
    }
}

/// The input is unusable for geometry: no sites, a bad lattice, or a
/// non-finite coordinate.
pub open spec fn input_quality_fatal(f: StructureFacts) -> bool {
    ||| f.sites@.len() == 0
    ||| f.lattice != LatticeStatus::Valid
    ||| exists|i: int| 0 <= i < f.sites@.len() && !(#[trigger] f.sites@[i]).coordinates_finite
}

fn site_diagnoses(i: usize, s: &SiteFacts, element_known: bool) -> (ds: Vec<Diagnosis>)
    ensures
        diagnosis_views(ds@) == site_findings_given(i as int, *s, element_known),
{
    let mut ds: Vec<Diagnosis> = Vec::new();
    if !s.coordinates_finite {
        ds.push(
            Diagnosis::plain(
                FindingCode::InputNonfiniteCoordinate,
                Severity::Critical,
                FindingScope::Site { index: i },
                EvidenceSource::NoEvidence,
            ),
        );
    }
    let ghost after_coordinates = diagnosis_views(ds@);
    match s.occupancy {
        OccupancyStatus::InRange => {},
        OccupancyStatus::NonFinite => {
            ds.push(
                Diagnosis::plain(
                    FindingCode::InputInvalidOccupancy,
                    Severity::High,
                    FindingScope::Site { index: i },
                    EvidenceSource::NoEvidence,
                ),
            );
        },
        OccupancyStatus::OutOfRange => {
            ds.push(
                Diagnosis::plain(
                    FindingCode::InputInvalidOccupancy,
                    Severity::High,
                    FindingScope::Site { index: i },
                    EvidenceSource::SiteOccupancy,
                ),
            );
        },
    }
    let ghost after_occupancy = diagnosis_views(ds@);
    if !element_known {
        ds.push(
            Diagnosis::plain(
                FindingCode::InputUnknownElement,
                Severity::High,
                FindingScope::Site { index: i },
                EvidenceSource::NoEvidence,
            ),
        );
    }
    assert(diagnosis_views(ds@) =~= site_findings_given(i as int, *s, element_known));
    ds
}

/// Runs the input quality checks on the classified facts, given which
/// element symbols are recognized (`element_known[k]` for site `k`).
pub fn check_with(facts: &StructureFacts, element_known: &Vec<bool>) -> (o: Outcome)
    requires
        element_known@.len() == facts.sites@.len(),
    ensures
        diagnosis_views(o.diagnoses@) == input_quality_findings_given(*facts, element_known@),
        o.fatal == input_quality_fatal(*facts),
{
    let n = facts.sites.len();
    if n == 0 {
        let d = Diagnosis::plain(
            FindingCode::InputEmptyStructure,
            Severity::Critical,
            FindingScope::WholeStructure,
            EvidenceSource::NoEvidence,
        );
        let ds = vec![d];
        assert(diagnosis_views(ds@) =~= input_quality_findings_given(*facts, element_known@));
        return Outcome { diagnoses: ds, fatal: true };
    }
    let mut ds: Vec<Diagnosis> = Vec::new();
    let mut fatal = false;
    match facts.lattice {
        LatticeStatus::NonFinite => {
            ds.push(
                Diagnosis::plain(
                    FindingCode::InputNonfiniteLattice,
                    Severity::Critical,
                    FindingScope::Lattice,
                    EvidenceSource::NoEvidence,
                ),
            );
            fatal = true;
        },
        LatticeStatus::NonPositiveVolume => {
            ds.push(
                Diagnosis::plain(
                    FindingCode::LatticeSingular,
                    Severity::Critical,
                    FindingScope::Lattice,
                    EvidenceSource::CellVolume,
                ),
            );
            fatal = true;
        },
        LatticeStatus::Valid => {},
    }
    assert(diagnosis_views(ds@) =~= lattice_findings(facts.lattice));
    let mut i: usize = 0;
    while i < n
        invariant
            n == facts.sites@.len(),
            i <= n,
            element_known@.len() == n,
            diagnosis_views(ds@) == lattice_findings(facts.lattice) + sites_findings_given(
                facts.sites@.take(i as int),
                element_known@,
            ),
            fatal == (facts.lattice != LatticeStatus::Valid || exists|k: int|
                0 <= k < i && !(#[trigger] facts.sites@[k]).coordinates_finite),
        decreases n - i,
    {
        let site = &facts.sites[i];
        let mut more = site_diagnoses(i, site, element_known[i]);
        let ghost before = ds@;
        ds.append(&mut more);
        proof {
            assert(facts.sites@.take(i + 1).drop_last() =~= facts.sites@.take(i as int));
            assert(diagnosis_views(ds@) =~= diagnosis_views(before) + site_findings_given(
                i as int,
                *site,
                element_known@[i as int],
            ));
        }
        if !site.coordinates_finite {
            fatal = true;
        }
        i = i + 1;
    }
    assert(facts.sites@.take(n as int) =~= facts.sites@);
    Outcome { diagnoses: ds, fatal }
}

/// Runs the input quality checks on the classified facts, asking
/// `chematic_core` whether each site's element symbol is recognized.
pub fn check(facts: &StructureFacts) -> (o: Outcome)
    ensures
        diagnosis_views(o.diagnoses@) == input_quality_findings(*facts),
        o.fatal == input_quality_fatal(*facts),
{
    let mut known: Vec<bool> = Vec::new();
    let mut k: usize = 0;
    while k < facts.sites.len()
        invariant
            k <= facts.sites@.len(),
            known@.len() == k,
            forall|m: int|
                0 <= m < k ==> known@[m] == is_element_symbol((#[trigger] facts.sites@[m]).element@),
        decreases facts.sites@.len() - k,
    {
        known.push(is_recognized_element(facts.sites[k].element.as_str()));
        k = k + 1;
    }
    proof {
        lemma_sites_findings_given(facts.sites@, known@);
    }
    check_with(facts, &known)
}

/// How many findings of code `c` and severity `s` a site with facts `x`
/// gets, wherever it stands in the site list.
pub open spec fn site_count(x: SiteFacts, c: FindingCode, s: Severity) -> nat {
    finding_count(site_findings(0, x), c, s)
}

/// The findings of code `c` and severity `s` over a site list, site by site.
pub open spec fn sites_count(sites: Seq<SiteFacts>, c: FindingCode, s: Severity) -> nat
    decreases sites.len(),
{
    if sites.len() == 0 {
        0
    } else {
        sites_count(sites.drop_last(), c, s) + site_count(sites.last(), c, s)
    }
}

proof fn lemma_site_count_any_index(i: int, x: SiteFacts, c: FindingCode, s: Severity)
    ensures
        finding_count(site_findings(i, x), c, s) == site_count(x, c, s),
{
    let scope_i = ScopeView::Site { index: i as usize };
    let scope_0 = ScopeView::Site { index: 0usize };
    let a_i: Seq<DiagnosisView> = if x.coordinates_finite {
        Seq::empty()
    } else {
        seq![plain_view(FindingCode::InputNonfiniteCoordinate, Severity::Critical, scope_i, EvidenceSource::NoEvidence)]
    };
    let a_0: Seq<DiagnosisView> = if x.coordinates_finite {
        Seq::empty()
    } else {
        seq![plain_view(FindingCode::InputNonfiniteCoordinate, Severity::Critical, scope_0, EvidenceSource::NoEvidence)]
    };
    let b_i: Seq<DiagnosisView> = match x.occupancy {
        OccupancyStatus::InRange => Seq::empty(),
        OccupancyStatus::NonFinite => seq![plain_view(FindingCode::InputInvalidOccupancy, Severity::High, scope_i, EvidenceSource::NoEvidence)],
        OccupancyStatus::OutOfRange => seq![plain_view(FindingCode::InputInvalidOccupancy, Severity::High, scope_i, EvidenceSource::SiteOccupancy)],
    };
    let b_0: Seq<DiagnosisView> = match x.occupancy {
        OccupancyStatus::InRange => Seq::empty(),
        OccupancyStatus::NonFinite => seq![plain_view(FindingCode::InputInvalidOccupancy, Severity::High, scope_0, EvidenceSource::NoEvidence)],
        OccupancyStatus::OutOfRange => seq![plain_view(FindingCode::InputInvalidOccupancy, Severity::High, scope_0, EvidenceSource::SiteOccupancy)],
    };
    let e_i: Seq<DiagnosisView> = if is_element_symbol(x.element@) {
        Seq::empty()
    } else {
        seq![plain_view(FindingCode::InputUnknownElement, Severity::High, scope_i, EvidenceSource::NoEvidence)]
    };
    let e_0: Seq<DiagnosisView> = if is_element_symbol(x.element@) {
        Seq::empty()
    } else {
        seq![plain_view(FindingCode::InputUnknownElement, Severity::High, scope_0, EvidenceSource::NoEvidence)]
    };
    assert(site_findings(i, x) == a_i + b_i + e_i);
    assert(site_findings(0, x) == a_0 + b_0 + e_0);
    lemma_finding_count_add(a_i + b_i, e_i, c, s);
    lemma_finding_count_add(a_i, b_i, c, s);
    lemma_finding_count_add(a_0 + b_0, e_0, c, s);
    lemma_finding_count_add(a_0, b_0, c, s);
    assert(finding_count(a_i, c, s) == finding_count(a_0, c, s)) by {
        if !x.coordinates_finite {
            assert(a_i.drop_last() =~= Seq::<DiagnosisView>::empty());
            assert(a_0.drop_last() =~= Seq::<DiagnosisView>::empty());
        }
    }
    assert(finding_count(b_i, c, s) == finding_count(b_0, c, s)) by {
        if x.occupancy != OccupancyStatus::InRange {
            assert(b_i.drop_last() =~= Seq::<DiagnosisView>::empty());
            assert(b_0.drop_last() =~= Seq::<DiagnosisView>::empty());
        }
    }
    assert(finding_count(e_i, c, s) == finding_count(e_0, c, s)) by {
        if !is_element_symbol(x.element@) {
            assert(e_i.drop_last() =~= Seq::<DiagnosisView>::empty());
            assert(e_0.drop_last() =~= Seq::<DiagnosisView>::empty());
        }
    }
}

proof fn lemma_sites_findings_count(sites: Seq<SiteFacts>, c: FindingCode, s: Severity)
    ensures
        finding_count(sites_findings(sites), c, s) == sites_count(sites, c, s),
    decreases sites.len(),
{
    if sites.len() > 0 {
        lemma_sites_findings_count(sites.drop_last(), c, s);
        lemma_finding_count_add(
            sites_findings(sites.drop_last()),
            site_findings(sites.len() - 1, sites.last()),
            c,
            s,
        );
        lemma_site_count_any_index(sites.len() - 1, sites.last(), c, s);
    }
}

proof fn lemma_sites_count_remove(t: Seq<SiteFacts>, j: int, c: FindingCode, s: Severity)
    requires
        0 <= j < t.len(),
    ensures
        sites_count(t, c, s) == sites_count(t.remove(j), c, s) + site_count(t[j], c, s),
    decreases t.len(),
{
    if j == t.len() - 1 {
        assert(t.remove(j) =~= t.drop_last());
    } else {
        assert(t.remove(j).drop_last() =~= t.drop_last().remove(j));
        assert(t.remove(j).last() == t.last());
        lemma_sites_count_remove(t.drop_last(), j, c, s);
    }
}

proof fn lemma_sites_count_reorder(a: Seq<SiteFacts>, b: Seq<SiteFacts>, c: FindingCode, s: Severity)
    requires
        a.to_multiset() == b.to_multiset(),
    ensures
        sites_count(a, c, s) == sites_count(b, c, s),
    decreases a.len(),
{
    broadcast use vstd::seq_lib::group_to_multiset_ensures;

    if a.len() == 0 {
        vstd::seq_lib::to_multiset_len(a);
        vstd::seq_lib::to_multiset_len(b);
    } else {
        let x = a.last();
        assert(a =~= a.drop_last().push(x));
        assert(a.to_multiset() == a.drop_last().to_multiset().insert(x));
        assert(b.to_multiset().count(x) > 0);
        assert(b.contains(x));
        let j = choose|j: int| 0 <= j < b.len() && b[j] == x;
        assert(b.remove(j).to_multiset() == b.to_multiset().remove(x));
        assert(b.remove(j).to_multiset() =~= a.drop_last().to_multiset());
        lemma_sites_count_reorder(a.drop_last(), b.remove(j), c, s);
        lemma_sites_count_remove(b, j, c, s);
        assert(sites_count(a, c, s) == sites_count(a.drop_last(), c, s) + site_count(x, c, s));
    }
}

proof fn lemma_reorder_same_len(a: Seq<SiteFacts>, b: Seq<SiteFacts>)
    requires
        a.to_multiset() == b.to_multiset(),
    ensures
        a.len() == b.len(),
        forall|x: SiteFacts| a.contains(x) <==> b.contains(x),
{
    vstd::seq_lib::to_multiset_len(a);
    vstd::seq_lib::to_multiset_len(b);
    assert forall|x: SiteFacts| a.contains(x) <==> b.contains(x) by {
        vstd::seq_lib::to_multiset_contains(a, x);
        vstd::seq_lib::to_multiset_contains(b, x);
    }
}

proof fn lemma_reorder_count(f: StructureFacts, g: StructureFacts, c: FindingCode, s: Severity)
    requires
        f.lattice == g.lattice,
        f.sites@.to_multiset() == g.sites@.to_multiset(),
        f.sites@.len() == g.sites@.len(),
    ensures
        finding_count(input_quality_findings(f), c, s) == finding_count(input_quality_findings(g), c, s),
{
    let a = f.sites@;
    let b = g.sites@;
    if a.len() > 0 {
        lemma_finding_count_add(lattice_findings(f.lattice), sites_findings(a), c, s);
        lemma_finding_count_add(lattice_findings(g.lattice), sites_findings(b), c, s);
        lemma_sites_findings_count(a, c, s);
        lemma_sites_findings_count(b, c, s);
        lemma_sites_count_reorder(a, b, c, s);
    }
}

/// Reordering the sites changes neither whether the input quality checks are
/// fatal, nor how many findings of each code and severity they produce (only
/// the site indices in the findings' scopes move with the sites), nor the
/// verdict those findings give.
pub proof fn lemma_input_quality_ignores_site_order(f: StructureFacts, g: StructureFacts)
    requires
        f.lattice == g.lattice,
        f.sites@.to_multiset() == g.sites@.to_multiset(),
    ensures
        input_quality_fatal(f) == input_quality_fatal(g),
        forall|c: FindingCode, s: Severity|
            finding_count(input_quality_findings(f), c, s) == #[trigger] finding_count(
                input_quality_findings(g),
                c,
                s,
            ),
        verdict_for(input_quality_findings(f)) == verdict_for(input_quality_findings(g)),
{
    let a = f.sites@;
    let b = g.sites@;
    lemma_reorder_same_len(a, b);
    assert forall|i: int| 0 <= i < a.len() && !(#[trigger] a[i]).coordinates_finite implies exists|k: int|
        0 <= k < b.len() && !(#[trigger] b[k]).coordinates_finite by {
        assert(a.contains(a[i]));
    }
    assert forall|k: int| 0 <= k < b.len() && !(#[trigger] b[k]).coordinates_finite implies exists|i: int|
        0 <= i < a.len() && !(#[trigger] a[i]).coordinates_finite by {
        assert(b.contains(b[k]));
    }
    assert forall|c: FindingCode, s: Severity|
        finding_count(input_quality_findings(f), c, s) == #[trigger] finding_count(input_quality_findings(g), c, s) by {
        lemma_reorder_count(f, g, c, s);
    }
    lemma_same_counts_same_verdict(input_quality_findings(f), input_quality_findings(g));
}

/// The scope of a finding about site `i`.
pub open spec fn site_scope(i: int) -> ScopeView {
    ScopeView::Site { index: i as usize }
}

/// Whether a site with facts `s`, whose element symbol is recognized when
/// `element_known`, has the problem finding code `c` names: a non-finite
/// coordinate, an occupancy that is non-finite or outside `[0, 1]`, or an
/// unrecognized element symbol. No other code is about a single site.
pub open spec fn site_has_problem(s: SiteFacts, element_known: bool, c: FindingCode) -> bool {
    ||| c == FindingCode::InputNonfiniteCoordinate && !s.coordinates_finite
    ||| c == FindingCode::InputInvalidOccupancy && s.occupancy != OccupancyStatus::InRange
    ||| c == FindingCode::InputUnknownElement && !element_known
}

proof fn lemma_one_site(i: int, s: SiteFacts, element_known: bool)
    ensures
        forall|m: int|
            0 <= m < site_findings_given(i, s, element_known).len() ==> (#[trigger] site_findings_given(
                i,
                s,
                element_known,
            )[m]).scope == site_scope(i) && site_has_problem(
                s,
                element_known,
                site_findings_given(i, s, element_known)[m].code,
            ),
        forall|c: FindingCode|
            #[trigger] site_has_problem(s, element_known, c) ==> exists|m: int|
                0 <= m < site_findings_given(i, s, element_known).len() && site_findings_given(
                    i,
                    s,
                    element_known,
                )[m].code == c,
{
    let sf = site_findings_given(i, s, element_known);
    let scope = ScopeView::Site { index: i as usize };
    let a: Seq<DiagnosisView> = if s.coordinates_finite {
        Seq::empty()
    } else {
        seq![plain_view(FindingCode::InputNonfiniteCoordinate, Severity::Critical, scope, EvidenceSource::NoEvidence)]
    };
    let b: Seq<DiagnosisView> = match s.occupancy {
        OccupancyStatus::InRange => Seq::empty(),
        OccupancyStatus::NonFinite => seq![plain_view(FindingCode::InputInvalidOccupancy, Severity::High, scope, EvidenceSource::NoEvidence)],
        OccupancyStatus::OutOfRange => seq![plain_view(FindingCode::InputInvalidOccupancy, Severity::High, scope, EvidenceSource::SiteOccupancy)],
    };
    let e: Seq<DiagnosisView> = if element_known {
        Seq::empty()
    } else {
        seq![plain_view(FindingCode::InputUnknownElement, Severity::High, scope, EvidenceSource::NoEvidence)]
    };
    assert(sf == a + b + e);
    assert forall|m: int| 0 <= m < sf.len() implies (#[trigger] sf[m]).scope == site_scope(i) && site_has_problem(
        s,
        element_known,
        sf[m].code,
    ) by {
        if m < a.len() {
            assert(sf[m] == a[m]);
        } else if m < a.len() + b.len() {
            assert(sf[m] == b[m - a.len()]);
        } else {
            assert(sf[m] == e[m - a.len() - b.len()]);
        }
    }
    assert forall|c: FindingCode| #[trigger] site_has_problem(s, element_known, c) implies exists|m: int|
        0 <= m < sf.len() && sf[m].code == c by {
        if c == FindingCode::InputNonfiniteCoordinate && !s.coordinates_finite {
            assert(sf[0] == a[0]);
        } else if c == FindingCode::InputInvalidOccupancy && s.occupancy != OccupancyStatus::InRange {
            assert(sf[a.len() as int] == b[0]);
        } else {
            assert(sf[(a.len() + b.len()) as int] == e[0]);
        }
    }
}

proof fn lemma_all_sites(sites: Seq<SiteFacts>, element_known: Seq<bool>)
    requires
        sites.len() <= element_known.len(),
    ensures
        forall|m: int|
            0 <= m < sites_findings_given(sites, element_known).len() ==> exists|i: int|
                0 <= i < sites.len() && (#[trigger] sites_findings_given(sites, element_known)[m]).scope
                    == site_scope(i) && site_has_problem(
                    sites[i],
                    element_known[i],
                    sites_findings_given(sites, element_known)[m].code,
                ),
        forall|i: int, c: FindingCode|
            0 <= i < sites.len() && #[trigger] site_has_problem(sites[i], element_known[i], c) ==> exists|m: int|
                0 <= m < sites_findings_given(sites, element_known).len() && sites_findings_given(
                    sites,
                    element_known,
                )[m].code == c && sites_findings_given(sites, element_known)[m].scope == site_scope(i),
    decreases sites.len(),
{
    if sites.len() > 0 {
        let n = sites.len() - 1;
        let pre = sites.drop_last();
        lemma_all_sites(pre, element_known);
        let front = sites_findings_given(pre, element_known);
        let last = site_findings_given(n, sites.last(), element_known[n]);
        let ds = sites_findings_given(sites, element_known);
        assert(ds == front + last);
        assert(sites.last() == sites[n]);
        lemma_one_site(n, sites[n], element_known[n]);
        assert forall|m: int| 0 <= m < ds.len() implies exists|i: int|
            0 <= i < sites.len() && (#[trigger] ds[m]).scope == site_scope(i) && site_has_problem(
                sites[i],
                element_known[i],
                ds[m].code,
            ) by {
            if m < front.len() {
                assert(ds[m] == front[m]);
                let i = choose|i: int|
                    0 <= i < pre.len() && (#[trigger] front[m]).scope == site_scope(i) && site_has_problem(
                        pre[i],
                        element_known[i],
                        front[m].code,
                    );
                assert(pre[i] == sites[i]);
            } else {
                assert(ds[m] == last[m - front.len()]);
            }
        }
        assert forall|i: int, c: FindingCode|
            0 <= i < sites.len() && #[trigger] site_has_problem(sites[i], element_known[i], c) implies exists|m: int|
                0 <= m < ds.len() && ds[m].code == c && ds[m].scope == site_scope(i) by {
            if i < n {
                assert(pre[i] == sites[i]);
                assert(site_has_problem(pre[i], element_known[i], c));
                let m = choose|m: int| 0 <= m < front.len() && front[m].code == c && front[m].scope == site_scope(i);
                assert(ds[m] == front[m]);
            } else {
                let m = choose|m: int| 0 <= m < last.len() && last[m].code == c;
                assert(ds[front.len() as int + m] == last[m]);
                assert(last[m].scope == site_scope(n));
            }
        }
    }
}

/// Every finding about a single site is scoped to a site that has the
/// problem its code names (a non-finite coordinate, an occupancy that is
/// non-finite or outside `[0, 1]`, an unrecognized element symbol), and
/// every site with such a problem gets a finding of that code about it.
pub proof fn lemma_site_findings_are_about_their_sites(f: StructureFacts, element_known: Seq<bool>)
    requires
        element_known.len() == f.sites@.len(),
    ensures
        forall|m: int|
            0 <= m < input_quality_findings_given(f, element_known).len() && (
            #[trigger] input_quality_findings_given(f, element_known)[m]).scope is Site ==> exists|i: int|
                0 <= i < f.sites@.len() && input_quality_findings_given(f, element_known)[m].scope
                    == site_scope(i) && site_has_problem(
                    f.sites@[i],
                    element_known[i],
                    input_quality_findings_given(f, element_known)[m].code,
                ),
        forall|i: int, c: FindingCode|
            0 <= i < f.sites@.len() && #[trigger] site_has_problem(f.sites@[i], element_known[i], c)
                ==> exists|m: int|
                0 <= m < input_quality_findings_given(f, element_known).len()
                    && input_quality_findings_given(f, element_known)[m].code == c
                    && input_quality_findings_given(f, element_known)[m].scope == site_scope(i),
{
    let ds = input_quality_findings_given(f, element_known);
    if f.sites@.len() > 0 {
        let l = lattice_findings(f.lattice);
        let rest = sites_findings_given(f.sites@, element_known);
        assert(ds == l + rest);
        lemma_all_sites(f.sites@, element_known);
        assert forall|m: int| 0 <= m < ds.len() && (#[trigger] ds[m]).scope is Site implies exists|i: int|
            0 <= i < f.sites@.len() && ds[m].scope == site_scope(i) && site_has_problem(
                f.sites@[i],
                element_known[i],
                ds[m].code,
            ) by {
            if m < l.len() {
                assert(ds[m] == l[m]);
            } else {
                assert(ds[m] == rest[m - l.len()]);
            }
        }
        assert forall|i: int, c: FindingCode|
            0 <= i < f.sites@.len() && #[trigger] site_has_problem(f.sites@[i], element_known[i], c) implies exists|m: int|
                0 <= m < ds.len() && ds[m].code == c && ds[m].scope == site_scope(i) by {
            let m = choose|m: int| 0 <= m < rest.len() && rest[m].code == c && rest[m].scope == site_scope(i);
            assert(ds[l.len() as int + m] == rest[m]);
        }
    }
}

/// The same as [`lemma_site_findings_are_about_their_sites`] for the findings
/// [`check`] gives, where an element symbol is recognized exactly when
/// `chematic_core` recognizes it.
pub proof fn lemma_check_findings_are_about_their_sites(f: StructureFacts)
    ensures
        forall|m: int|
            0 <= m < input_quality_findings(f).len() && (#[trigger] input_quality_findings(f)[m]).scope is Site
                ==> exists|i: int|
                0 <= i < f.sites@.len() && input_quality_findings(f)[m].scope == site_scope(i)
                    && site_has_problem(
                    f.sites@[i],
                    is_element_symbol(f.sites@[i].element@),
                    input_quality_findings(f)[m].code,
                ),
        forall|i: int, c: FindingCode|
            0 <= i < f.sites@.len() && #[trigger] site_has_problem(
                f.sites@[i],
                is_element_symbol(f.sites@[i].element@),
                c,
            ) ==> exists|m: int|
                0 <= m < input_quality_findings(f).len() && input_quality_findings(f)[m].code == c
                    && input_quality_findings(f)[m].scope == site_scope(i),
{
    let n = f.sites@.len();
    let known = Seq::new(n, |k: int| is_element_symbol(f.sites@[k].element@));
    lemma_sites_findings_given(f.sites@, known);
    assert(input_quality_findings_given(f, known) == input_quality_findings(f));
    lemma_site_findings_are_about_their_sites(f, known);
    let ds = input_quality_findings(f);
    assert forall|m: int| 0 <= m < ds.len() && (#[trigger] ds[m]).scope is Site implies exists|i: int|
        0 <= i < n && ds[m].scope == site_scope(i) && site_has_problem(
            f.sites@[i],
            is_element_symbol(f.sites@[i].element@),
            ds[m].code,
        ) by {
        let i = choose|i: int|
            0 <= i < n && ds[m].scope == site_scope(i) && site_has_problem(f.sites@[i], known[i], ds[m].code);
    }
    assert forall|i: int, c: FindingCode|
        0 <= i < n && #[trigger] site_has_problem(f.sites@[i], is_element_symbol(f.sites@[i].element@), c) implies exists|m: int|
            0 <= m < ds.len() && ds[m].code == c && ds[m].scope == site_scope(i) by {
        assert(known[i] == is_element_symbol(f.sites@[i].element@));
        assert(site_has_problem(f.sites@[i], known[i], c));
    }
}

} // verus!
