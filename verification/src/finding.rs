//! Machine-readable findings: the core unit of explanation.
//!
//! A [`Diagnosis`] is what the checks decide about a structure: which
//! finding fires, at what severity, about which part of the structure,
//! with which kind of evidence and which caveats. The caller attaches the
//! measured numbers (distances, volumes, occupancies) and the prose.

use vstd::prelude::*;

use crate::model::Severity;

verus! {

/// A stable, machine-readable finding identifier.
///
/// Meaning is never changed once shipped, only added to; severity is never
/// encoded in the name itself.
#[derive(Debug, Clone, Copy, PartialEq, Eq, Hash, Structural)]
#[non_exhaustive]
pub enum FindingCode {
    /// The structure has no sites.
    InputEmptyStructure,
    /// The lattice matrix contains a non-finite (NaN/±inf) value.
    InputNonfiniteLattice,
    /// A site's fractional coordinate contains a non-finite value.
    InputNonfiniteCoordinate,
    /// A site's occupancy is non-finite or outside `[0.0, 1.0]`.
    InputInvalidOccupancy,
    /// A site's element symbol is not a recognized periodic-table symbol.
    InputUnknownElement,
    /// The lattice is singular or has non-positive volume.
    LatticeSingular,
    /// Two sites of the same element occupy the same position under
    /// periodic boundary conditions.
    SiteDuplicate,
    /// Two or more sites of different elements coincide under periodic
    /// boundary conditions, modeled as positional disorder. Informational.
    DisorderPresent,
    /// A disordered site group's occupancies sum to more than 1.0.
    DisorderOccupancySumExceedsOne,
}

/// The stable `SCREAMING_SNAKE_CASE` string of a finding code.
pub open spec fn code_str(code: FindingCode) -> Seq<char> {
    match code {
        FindingCode::InputEmptyStructure => "INPUT_EMPTY_STRUCTURE"@,
        FindingCode::InputNonfiniteLattice => "INPUT_NONFINITE_LATTICE"@,
        FindingCode::InputNonfiniteCoordinate => "INPUT_NONFINITE_COORDINATE"@,
        FindingCode::InputInvalidOccupancy => "INPUT_INVALID_OCCUPANCY"@,
        FindingCode::InputUnknownElement => "INPUT_UNKNOWN_ELEMENT"@,
        FindingCode::LatticeSingular => "LATTICE_SINGULAR"@,
        FindingCode::SiteDuplicate => "SITE_DUPLICATE"@,
        FindingCode::DisorderPresent => "DISORDER_PRESENT"@,
        FindingCode::DisorderOccupancySumExceedsOne => "DISORDER_OCCUPANCY_SUM_EXCEEDS_ONE"@,
    }
}

impl FindingCode {
    /// Returns the stable `SCREAMING_SNAKE_CASE` code string.
    pub fn as_str(self) -> (s: &'static str)
        ensures
            s@ == code_str(self),
    {
        match self {
            FindingCode::InputEmptyStructure => "INPUT_EMPTY_STRUCTURE",
            FindingCode::InputNonfiniteLattice => "INPUT_NONFINITE_LATTICE",
            FindingCode::InputNonfiniteCoordinate => "INPUT_NONFINITE_COORDINATE",
            FindingCode::InputInvalidOccupancy => "INPUT_INVALID_OCCUPANCY",
            FindingCode::InputUnknownElement => "INPUT_UNKNOWN_ELEMENT",
            FindingCode::LatticeSingular => "LATTICE_SINGULAR",
            FindingCode::SiteDuplicate => "SITE_DUPLICATE",
            FindingCode::DisorderPresent => "DISORDER_PRESENT",
            FindingCode::DisorderOccupancySumExceedsOne => "DISORDER_OCCUPANCY_SUM_EXCEEDS_ONE",
        }
    }
}

/// Distinct finding codes have distinct code strings, so a code string
/// names exactly one finding code.
pub proof fn lemma_code_str_injective(a: FindingCode, b: FindingCode)
    requires
        a != b,
    ensures
        code_str(a) != code_str(b),
{
    reveal_strlit("INPUT_EMPTY_STRUCTURE");
    reveal_strlit("INPUT_NONFINITE_LATTICE");
    reveal_strlit("INPUT_NONFINITE_COORDINATE");
    reveal_strlit("INPUT_INVALID_OCCUPANCY");
    reveal_strlit("INPUT_UNKNOWN_ELEMENT");
    reveal_strlit("LATTICE_SINGULAR");
    reveal_strlit("SITE_DUPLICATE");
    reveal_strlit("DISORDER_PRESENT");
    reveal_strlit("DISORDER_OCCUPANCY_SUM_EXCEEDS_ONE");
    let sa = code_str(a);
    let sb = code_str(b);
    if sa.len() == sb.len() {
        // Equal lengths only occur in these pairs; each differs early on.
        assert(sa[6] != sb[6] || sa[7] != sb[7] || sa[0] != sb[0] || sa[9] != sb[9]);
    }
}

/// What part of the structure a finding is about.
#[derive(Debug, Clone, PartialEq, Eq)]
#[non_exhaustive]
pub enum FindingScope {
    /// The structure as a whole.
    WholeStructure,
    /// The lattice/unit cell.
    Lattice,
    /// A single site, by index into the structure's site list.
    Site {
        /// Index into the structure's site list.
        index: usize,
    },
    /// A pair of sites, by index.
    SitePair {
        /// Index of the first site.
        a: usize,
        /// Index of the second site.
        b: usize,
    },
    /// A group of related sites, by index (e.g. a disorder group).
    SiteGroup {
        /// Indices into the structure's site list.
        indices: Vec<usize>,
    },
}

/// Which measured quantity backs a finding, if any. The indices it refers to
/// are those of the finding's scope; the caller supplies the number.
#[derive(Debug, Clone, Copy, PartialEq, Eq, Structural)]
pub enum EvidenceSource {
    /// No numeric evidence (e.g. the value itself is non-finite).
    NoEvidence,
    /// The unit cell volume.
    CellVolume,
    /// The minimum-image distance between the two sites of a site pair.
    PairDistance,
    /// The occupancy of the one site in scope.
    SiteOccupancy,
    /// The summed occupancy of the site group in scope.
    GroupOccupancySum,
}

/// One decided finding: its code, severity, scope, evidence source and
/// known limitations.
#[derive(Debug, Clone)]
pub struct Diagnosis {
    /// The stable finding identifier.
    pub code: FindingCode,
    /// How severe this finding is.
    pub severity: Severity,
    /// What part of the structure it is about.
    pub scope: FindingScope,
    /// Which measured quantity backs it.
    pub evidence: EvidenceSource,
    /// Known limitations of this specific finding.
    pub limitations: Vec<String>,
}

/// The mathematical value of a [`FindingScope`].
pub enum ScopeView {
    /// The structure as a whole.
    WholeStructure,
    /// The lattice/unit cell.
    Lattice,
    /// A single site.
    Site { index: usize },
    /// A pair of sites.
    SitePair { a: usize, b: usize },
    /// A group of sites.
    SiteGroup { indices: Seq<usize> },
}

impl View for FindingScope {
    type V = ScopeView;

    open spec fn view(&self) -> ScopeView {
        match self {
            FindingScope::WholeStructure => ScopeView::WholeStructure,
            FindingScope::Lattice => ScopeView::Lattice,
            FindingScope::Site { index } => ScopeView::Site { index: *index },
            FindingScope::SitePair { a, b } => ScopeView::SitePair { a: *a, b: *b },
            FindingScope::SiteGroup { indices } => ScopeView::SiteGroup { indices: indices@ },
        }
    }
}

/// The mathematical value of a [`Diagnosis`].
pub struct DiagnosisView {
    /// The finding code.
    pub code: FindingCode,
    /// The severity.
    pub severity: Severity,
    /// The scope.
    pub scope: ScopeView,
    /// The evidence source.
    pub evidence: EvidenceSource,
    /// The limitation texts.
    pub limitations: Seq<Seq<char>>,
}

/// The texts of a list of strings.
pub open spec fn string_views(v: Seq<String>) -> Seq<Seq<char>> {
    v.map_values(|s: String| s@)
}

impl View for Diagnosis {
    type V = DiagnosisView;

    open spec fn view(&self) -> DiagnosisView {
        DiagnosisView {
            code: self.code,
            severity: self.severity,
            scope: self.scope@,
            evidence: self.evidence,
            limitations: string_views(self.limitations@),
        }
    }
}

/// The views of a sequence of diagnoses.
pub open spec fn diagnosis_views(v: Seq<Diagnosis>) -> Seq<DiagnosisView> {
    v.map_values(|d: Diagnosis| d@)
}

/// A diagnosis with no limitations.
pub open spec fn plain_view(
    code: FindingCode,
    severity: Severity,
    scope: ScopeView,
    evidence: EvidenceSource,
) -> DiagnosisView {
    DiagnosisView { code, severity, scope, evidence, limitations: Seq::empty() }
}

impl Diagnosis {
    /// A diagnosis with no limitations.
    pub fn plain(code: FindingCode, severity: Severity, scope: FindingScope, evidence: EvidenceSource) -> (d:
        Diagnosis)
        ensures
            d@ == plain_view(code, severity, scope@, evidence),
    {
        let limitations: Vec<String> = Vec::new();
        assert(string_views(limitations@) =~= Seq::empty());
        Diagnosis { code, severity, scope, evidence, limitations }
    }
}

/// How many of `ds` have code `c` and severity `s`.
pub open spec fn finding_count(ds: Seq<DiagnosisView>, c: FindingCode, s: Severity) -> nat
    decreases ds.len(),
{
    if ds.len() == 0 {
        0
    } else {
        finding_count(ds.drop_last(), c, s) + if ds.last().code == c && ds.last().severity == s {
            1nat
        } else {
            0nat
        }
    }
}

/// Counting distributes over concatenation.
pub proof fn lemma_finding_count_add(a: Seq<DiagnosisView>, b: Seq<DiagnosisView>, c: FindingCode, s: Severity)
    ensures
        finding_count(a + b, c, s) == finding_count(a, c, s) + finding_count(b, c, s),
    decreases b.len(),
{
    if b.len() > 0 {
        assert((a + b).drop_last() =~= a + b.drop_last());
        lemma_finding_count_add(a, b.drop_last(), c, s);
    } else {
        assert(a + b =~= a);
    }
}

/// A code and severity are counted exactly when some finding has them.
pub proof fn lemma_finding_count_positive(ds: Seq<DiagnosisView>, c: FindingCode, s: Severity)
    ensures
        finding_count(ds, c, s) > 0 <==> exists|k: int|
            0 <= k < ds.len() && (#[trigger] ds[k]).code == c && ds[k].severity == s,
    decreases ds.len(),
{
    if ds.len() > 0 {
        lemma_finding_count_positive(ds.drop_last(), c, s);
        if exists|k: int| 0 <= k < ds.len() && (#[trigger] ds[k]).code == c && ds[k].severity == s {
            let k = choose|k: int| 0 <= k < ds.len() && (#[trigger] ds[k]).code == c && ds[k].severity == s;
            if k < ds.len() - 1 {
                assert(ds.drop_last()[k] == ds[k]);
            }
        }
        if exists|k: int|
            0 <= k < ds.drop_last().len() && (#[trigger] ds.drop_last()[k]).code == c
                && ds.drop_last()[k].severity == s {
            let k = choose|k: int|
                0 <= k < ds.drop_last().len() && (#[trigger] ds.drop_last()[k]).code == c
                    && ds.drop_last()[k].severity == s;
            assert(ds[k] == ds.drop_last()[k]);
        }
    }
}

} // verus!
