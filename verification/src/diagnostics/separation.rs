//! Site separation checks: exact duplicate sites.
//!
//! Two sites of the same element that coincide under periodic boundary
//! conditions (within the numerical-identity tolerance the caller measured
//! the [`Proximity`] with) are a duplicate. Coincident sites of different
//! elements are disorder, not duplicates (see [`super::disorder`]).

use vstd::prelude::*;

use crate::finding::{
    diagnosis_views, string_views, Diagnosis, DiagnosisView, EvidenceSource, FindingCode,
    FindingScope, ScopeView,
};
use crate::assessment::verdict_for;
use crate::model::{Severity, Verdict};
use crate::structure_view::{
    is_image, is_relabeling, lemma_close_in_range, lemma_close_symmetric, method_limitation,
    PeriodicDistanceMethod, Proximity,
};

verus! {

/// The limitation list a finding measured with distance method `m` carries:
/// the method's caveat, if it has one.
pub open spec fn limitation_views(m: PeriodicDistanceMethod) -> Seq<Seq<char>> {
    match method_limitation(m) {
        Some(t) => seq![t],
        None => Seq::empty(),
    }
}

/// Sites `a < b` are a duplicate pair: same element symbol, and coincident.
pub open spec fn is_duplicate_pair(elements: Seq<String>, p: Proximity, a: int, b: int) -> bool {
    &&& 0 <= a < b < elements.len()
    &&& elements[a]@ == elements[b]@
    &&& p.close(a, b)
}

/// The finding for duplicate pair `(a, b)`.
pub open spec fn duplicate_view(m: PeriodicDistanceMethod, a: int, b: int) -> DiagnosisView {
    DiagnosisView {
        code: FindingCode::SiteDuplicate,
        severity: Severity::Critical,
        scope: ScopeView::SitePair { a: a as usize, b: b as usize },
        evidence: EvidenceSource::PairDistance,
        limitations: limitation_views(m),
    }
}

/// The site pair a finding is about (`(-1, -1)` when its scope is not a
/// pair).
pub open spec fn scope_pair(d: DiagnosisView) -> (int, int) {
    match d.scope {
        ScopeView::SitePair { a, b } => (a as int, b as int),
        _ => (-1, -1),
    }
}

/// `(a1, b1)` comes before `(a2, b2)` in lexicographic order.
pub open spec fn pair_before(x: (int, int), y: (int, int)) -> bool {
    x.0 < y.0 || (x.0 == y.0 && x.1 < y.1)
}

/// `ds` is exactly the duplicate findings of the structure: one per
/// duplicate pair, in lexicographic pair order.
pub open spec fn is_duplicate_report(
    elements: Seq<String>,
    p: Proximity,
    ds: Seq<DiagnosisView>,
) -> bool {
    &&& forall|k: int|
        0 <= k < ds.len() ==> is_duplicate_pair(elements, p, scope_pair(#[trigger] ds[k]).0, scope_pair(ds[k]).1)
            && ds[k] == duplicate_view(p.distance_method(), scope_pair(ds[k]).0, scope_pair(ds[k]).1)
    &&& forall|k1: int, k2: int|
        0 <= k1 < k2 < ds.len() ==> pair_before(scope_pair(#[trigger] ds[k1]), scope_pair(#[trigger] ds[k2]))
    &&& forall|a: int, b: int|
        #[trigger] is_duplicate_pair(elements, p, a, b) ==> exists|k: int|
            0 <= k < ds.len() && #[trigger] scope_pair(ds[k]) == (a, b)
}

fn note_list(note: &Option<String>) -> (v: Vec<String>)
    ensures
        string_views(v@) == match note {
            Some(t) => seq![t@],
            None => Seq::<Seq<char>>::empty(),
        },
{
    let mut v: Vec<String> = Vec::new();
    match note {
        Some(t) => v.push(t.clone()),
        None => {},
    }
    assert(string_views(v@) =~= match note {
        Some(t) => seq![t@],
        None => Seq::<Seq<char>>::empty(),
    });
    v
}

/// Finds every pair of same-element sites that coincide, in lexicographic
/// pair order, each as a critical `SITE_DUPLICATE` finding carrying the
/// distance method's caveat. Sites beyond the end of either `elements` or
/// `p` are not considered.
pub fn check(elements: &Vec<String>, p: &Proximity) -> (ds: Vec<Diagnosis>)
    requires
        p.wf(),
    ensures
        is_duplicate_report(elements@, *p, diagnosis_views(ds@)),
{
    let pn = p.len();
    let n = if elements.len() < pn {
        elements.len()
    } else {
        pn
    };
    let note = p.method().limitation();
    let mut ds: Vec<Diagnosis> = Vec::new();
    let mut i: usize = 0;
    while i < n
        invariant
            n <= elements@.len(),
            n <= p.size(),
            n == elements@.len() || n == p.size(),
            p.wf(),
            i <= n,
            note is None <==> method_limitation(p.distance_method()) is None,
            note matches Some(s) ==> method_limitation(p.distance_method()) == Some(s@),
            forall|k: int|
                0 <= k < ds@.len() ==> is_duplicate_pair(elements@, *p, scope_pair(#[trigger] diagnosis_views(ds@)[k]).0, scope_pair(diagnosis_views(ds@)[k]).1)
                    && diagnosis_views(ds@)[k] == duplicate_view(p.distance_method(), scope_pair(diagnosis_views(ds@)[k]).0, scope_pair(diagnosis_views(ds@)[k]).1)
                    && scope_pair(diagnosis_views(ds@)[k]).0 < i,
            forall|k1: int, k2: int|
                0 <= k1 < k2 < ds@.len() ==> pair_before(scope_pair(#[trigger] diagnosis_views(ds@)[k1]), scope_pair(#[trigger] diagnosis_views(ds@)[k2])),
            forall|a: int, b: int|
                #[trigger] is_duplicate_pair(elements@, *p, a, b) && a < i ==> exists|k: int|
                    0 <= k < ds@.len() && #[trigger] scope_pair(diagnosis_views(ds@)[k]) == (a, b),
        decreases n - i,
    {
        let mut j: usize = i + 1;
        while j < n
            invariant
                n <= elements@.len(),
                n <= p.size(),
                n == elements@.len() || n == p.size(),
                p.wf(),
                i < n,
                i + 1 <= j <= n,
                note is None <==> method_limitation(p.distance_method()) is None,
                note matches Some(s) ==> method_limitation(p.distance_method()) == Some(s@),
                forall|k: int|
                    0 <= k < ds@.len() ==> is_duplicate_pair(elements@, *p, scope_pair(#[trigger] diagnosis_views(ds@)[k]).0, scope_pair(diagnosis_views(ds@)[k]).1)
                        && diagnosis_views(ds@)[k] == duplicate_view(p.distance_method(), scope_pair(diagnosis_views(ds@)[k]).0, scope_pair(diagnosis_views(ds@)[k]).1)
                        && pair_before(scope_pair(diagnosis_views(ds@)[k]), (i as int, j as int)),
                forall|k1: int, k2: int|
                    0 <= k1 < k2 < ds@.len() ==> pair_before(scope_pair(#[trigger] diagnosis_views(ds@)[k1]), scope_pair(#[trigger] diagnosis_views(ds@)[k2])),
                forall|a: int, b: int|
                    #[trigger] is_duplicate_pair(elements@, *p, a, b) && pair_before((a, b), (i as int, j as int)) ==> exists|k: int|
                        0 <= k < ds@.len() && #[trigger] scope_pair(diagnosis_views(ds@)[k]) == (a, b),
            decreases n - j,
        {
            if elements[i] == elements[j] && p.is_close(i, j) {
                let limitations = note_list(&note);
                let d = Diagnosis {
                    code: FindingCode::SiteDuplicate,
                    severity: Severity::Critical,
                    scope: FindingScope::SitePair { a: i, b: j },
                    evidence: EvidenceSource::PairDistance,
                    limitations,
                };
                let ghost old_ds = ds@;
                ds.push(d);
                proof {
                    assert(diagnosis_views(ds@) =~= diagnosis_views(old_ds).push(d@));
                    assert(limitation_views(p.distance_method()) =~= string_views(d.limitations@));
                    let last = diagnosis_views(ds@).len() - 1;
                    assert(scope_pair(diagnosis_views(ds@)[last]) == (i as int, j as int));
                    assert forall|a: int, b: int|
                        #[trigger] is_duplicate_pair(elements@, *p, a, b) && pair_before((a, b), (i as int, j as int + 1)) implies exists|k: int|
                            0 <= k < ds@.len() && #[trigger] scope_pair(diagnosis_views(ds@)[k]) == (a, b) by {
                        if a == i && b == j {
                            assert(scope_pair(diagnosis_views(ds@)[last]) == (a, b));
                        } else {
                            let k = choose|k: int| 0 <= k < old_ds.len() && #[trigger] scope_pair(diagnosis_views(old_ds)[k]) == (a, b);
                            assert(diagnosis_views(ds@)[k] == diagnosis_views(old_ds)[k]);
                        }
                    }
                }
            } else {
                proof {
                    assert forall|a: int, b: int|
                        #[trigger] is_duplicate_pair(elements@, *p, a, b) && pair_before((a, b), (i as int, j as int + 1)) implies exists|k: int|
                            0 <= k < ds@.len() && #[trigger] scope_pair(diagnosis_views(ds@)[k]) == (a, b) by {
                        if a == i && b == j {
                            assert(!is_duplicate_pair(elements@, *p, a, b));
                        }
                    }
                }
            }
            j = j + 1;
        }
        proof {
            assert forall|a: int, b: int|
                #[trigger] is_duplicate_pair(elements@, *p, a, b) && a < i + 1 implies exists|k: int|
                    0 <= k < ds@.len() && #[trigger] scope_pair(diagnosis_views(ds@)[k]) == (a, b) by {
                lemma_close_in_range(*p, a, b);
                assert(pair_before((a, b), (i as int, n as int)));
            }
        }
        i = i + 1;
    }
    proof {
        assert forall|a: int, b: int| #[trigger] is_duplicate_pair(elements@, *p, a, b) implies exists|k: int|
            0 <= k < ds@.len() && #[trigger] scope_pair(diagnosis_views(ds@)[k]) == (a, b) by {
            lemma_close_in_range(*p, a, b);
            assert(a < n);
        }
    }
    ds
}

/// The site pairs of a report's findings, in order.
pub open spec fn report_pairs(ds: Seq<DiagnosisView>) -> Seq<(int, int)> {
    ds.map_values(|d: DiagnosisView| scope_pair(d))
}

/// The duplicate pairs of a structure.
pub open spec fn duplicate_pairs(elements: Seq<String>, p: Proximity) -> Set<(int, int)> {
    Set::new(|pr: (int, int)| is_duplicate_pair(elements, p, pr.0, pr.1))
}

/// The pair of `x` and `y`, smaller first.
pub open spec fn ordered_pair(x: int, y: int) -> (int, int) {
    if x < y {
        (x, y)
    } else {
        (y, x)
    }
}

proof fn lemma_report_counts_pairs(elements: Seq<String>, p: Proximity, ds: Seq<DiagnosisView>)
    requires
        is_duplicate_report(elements, p, ds),
    ensures
        duplicate_pairs(elements, p).finite(),
        ds.len() == duplicate_pairs(elements, p).len(),
{
    let sp = report_pairs(ds);
    let d = duplicate_pairs(elements, p);
    assert forall|i: int, j: int| 0 <= i < sp.len() && 0 <= j < sp.len() && i != j implies sp[i]
        != sp[j] by {
        if i < j {
            assert(pair_before(scope_pair(ds[i]), scope_pair(ds[j])));
        } else {
            assert(pair_before(scope_pair(ds[j]), scope_pair(ds[i])));
        }
    }
    assert(sp.no_duplicates());
    assert forall|pr: (int, int)| sp.to_set().contains(pr) <==> d.contains(pr) by {
        if sp.contains(pr) {
            let k = choose|k: int| 0 <= k < sp.len() && sp[k] == pr;
            assert(scope_pair(ds[k]) == pr);
        }
        if d.contains(pr) {
            assert(is_duplicate_pair(elements, p, pr.0, pr.1));
            let k = choose|k: int| 0 <= k < ds.len() && #[trigger] scope_pair(ds[k]) == (pr.0, pr.1);
            assert(sp[k] == pr);
        }
    }
    assert(sp.to_set() =~= d);
    sp.unique_seq_to_set();
    vstd::seq_lib::seq_to_set_is_finite(sp);
}

/// Relabeling the sites (new site `i` is old site `perm[i]`, with the same
/// element, and two new sites coincide exactly when the old ones did)
/// leaves the number of duplicate findings unchanged: the duplicate report
/// does not depend on site order.
pub proof fn lemma_duplicates_ignore_site_order(
    e1: Seq<String>,
    p1: Proximity,
    ds1: Seq<DiagnosisView>,
    e2: Seq<String>,
    p2: Proximity,
    ds2: Seq<DiagnosisView>,
    perm: Seq<int>,
)
    requires
        e1.len() == p1.size(),
        e2.len() == p2.size(),
        is_relabeling(p1, p2, perm),
        forall|i: int| 0 <= i < e2.len() ==> (#[trigger] e2[i])@ == e1[perm[i]]@,
        is_duplicate_report(e1, p1, ds1),
        is_duplicate_report(e2, p2, ds2),
    ensures
        ds1.len() == ds2.len(),
{
    let n = e1.len() as int;
    let d1 = duplicate_pairs(e1, p1);
    let d2 = duplicate_pairs(e2, p2);
    lemma_report_counts_pairs(e1, p1, ds1);
    lemma_report_counts_pairs(e2, p2, ds2);
    let f = |pr: (int, int)| ordered_pair(perm[pr.0], perm[pr.1]);
    assert forall|x1: (int, int), x2: (int, int)|
        d2.contains(x1) && d2.contains(x2) && #[trigger] f(x1) == #[trigger] f(x2) implies x1 == x2 by {
        assert(is_duplicate_pair(e2, p2, x1.0, x1.1));
        assert(is_duplicate_pair(e2, p2, x2.0, x2.1));
        if perm[x1.0] == perm[x2.0] {
            assert(x1.0 == x2.0);
        } else {
            assert(perm[x1.0] == perm[x2.1]);
            assert(perm[x1.1] == perm[x2.0]);
            assert(x1.0 == x2.1 && x1.1 == x2.0);
        }
    }
    assert forall|y: (int, int)| d2.map(f).contains(y) <==> d1.contains(y) by {
        if d2.map(f).contains(y) {
            let x = choose|x: (int, int)| d2.contains(x) && f(x) == y;
            assert(is_duplicate_pair(e2, p2, x.0, x.1));
            assert(p2.close(x.0, x.1));
            lemma_close_symmetric(p1, perm[x.0], perm[x.1]);
            lemma_close_in_range(p1, perm[x.0], perm[x.1]);
            assert(is_duplicate_pair(e1, p1, y.0, y.1));
        }
        if d1.contains(y) {
            assert(is_duplicate_pair(e1, p1, y.0, y.1));
            assert(is_image(perm, y.0));
            assert(is_image(perm, y.1));
            let a = choose|a: int| 0 <= a < perm.len() && #[trigger] perm[a] == y.0;
            let b = choose|b: int| 0 <= b < perm.len() && #[trigger] perm[b] == y.1;
            let x = ordered_pair(a, b);
            assert(p2.close(a, b));
            lemma_close_symmetric(p2, a, b);
            assert(e2[a]@ == e1[y.0]@);
            assert(e2[b]@ == e1[y.1]@);
            assert(is_duplicate_pair(e2, p2, x.0, x.1));
            assert(d2.contains(x));
            assert(f(x) == y);
        }
    }
    assert(d2.map(f) =~= d1);
    vstd::set_lib::lemma_map_size(d2, d1, f);
}

/// A duplicate site is a strong anomaly: any finding list that includes a
/// non-empty duplicate report gets the verdict strong anomaly detected,
/// whatever else it holds.
pub proof fn lemma_duplicate_is_strong_anomaly(
    elements: Seq<String>,
    p: Proximity,
    ds: Seq<DiagnosisView>,
    before: Seq<DiagnosisView>,
    after: Seq<DiagnosisView>,
)
    requires
        is_duplicate_report(elements, p, ds),
        ds.len() > 0,
    ensures
        verdict_for(before + ds + after) == Verdict::StrongAnomalyDetected,
{
    let all = before + ds + after;
    assert(all[before.len() as int] == ds[0]);
    assert(ds[0] == duplicate_view(p.distance_method(), scope_pair(ds[0]).0, scope_pair(ds[0]).1));
    assert(all[before.len() as int].severity == Severity::Critical);
}

} // verus!
