//! Occupancy and disorder checks: the no-threshold subset.
//!
//! A coincidence group holding sites of at least two different elements is
//! positional disorder: informational, not itself an anomaly
//! (`DISORDER_PRESENT`, severity `Info`). A disorder group whose
//! occupancies sum to more than 1.0 is over-full, which a site cannot be
//! (`DISORDER_OCCUPANCY_SUM_EXCEEDS_ONE`, severity `High`). Same-element
//! coincidence is a duplicate, reported by [`super::separation`].
//!
//! The occupancy sum is floating-point arithmetic, so the caller measures
//! whether each disorder group is over-full and hands the answers to
//! [`check`].

use vstd::prelude::*;

use crate::finding::{
    diagnosis_views, string_views, Diagnosis, DiagnosisView, EvidenceSource, FindingCode,
    FindingScope, ScopeView,
};
use crate::assessment::verdict_for;
use crate::model::{Severity, Verdict};
use crate::text::str_eq;
use crate::structure_view::{
    coincidence_groups, group_of, is_coincidence_grouping, is_image, is_relabeling,
    lemma_connected_refl, lemma_connected_same_group, lemma_group_of, lemma_grouping_unique,
    lemma_members_connected,
    lemma_relabeling_connected, lemma_size_fits, method_limitation, preimage, views, Proximity,
};

verus! {

/// The element symbol of site `i`, or the empty symbol past the end.
pub open spec fn element_at(elements: Seq<String>, i: int) -> Seq<char> {
    if 0 <= i < elements.len() {
        elements[i]@
    } else {
        Seq::empty()
    }
}

/// Two members of `g` carry different element symbols.
pub open spec fn has_two_elements(elements: Seq<String>, g: Seq<usize>) -> bool {
    exists|a: int, b: int|
        0 <= a < g.len() && 0 <= b < g.len() && element_at(elements, #[trigger] g[a] as int)
            != element_at(elements, #[trigger] g[b] as int)
}

fn symbol_at<'a>(elements: &'a Vec<String>, i: usize) -> (s: &'a str)
    ensures
        s@ == element_at(elements@, i as int),
{
    if i < elements.len() {
        elements[i].as_str()
    } else {
        proof {
            reveal_strlit("");
        }
        ""
    }
}

fn group_has_two_elements(elements: &Vec<String>, g: &Vec<usize>) -> (r: bool)
    ensures
        r == has_two_elements(elements@, g@),
{
    if g.len() == 0 {
        return false;
    }
    let first = symbol_at(elements, g[0]);
    let mut k: usize = 1;
    while k < g.len()
        invariant
            1 <= k <= g@.len(),
            first@ == element_at(elements@, g@[0] as int),
            forall|m: int| 0 <= m < k ==> element_at(elements@, #[trigger] g@[m] as int) == first@,
        decreases g@.len() - k,
    {
        let here = symbol_at(elements, g[k]);
        if !str_eq(here, first) {
            assert(element_at(elements@, g@[k as int] as int) != element_at(elements@, g@[0] as int));
            return true;
        }
        k = k + 1;
    }
    proof {
        assert forall|a: int, b: int|
            0 <= a < g@.len() && 0 <= b < g@.len() implies element_at(elements@, #[trigger] g@[a] as int)
            == element_at(elements@, #[trigger] g@[b] as int) by {}
    }
    false
}

fn copy_indices(v: &Vec<usize>) -> (c: Vec<usize>)
    ensures
        c@ == v@,
{
    let mut c: Vec<usize> = Vec::new();
    let mut k: usize = 0;
    while k < v.len()
        invariant
            k <= v@.len(),
            c@ == v@.take(k as int),
        decreases v@.len() - k,
    {
        c.push(v[k]);
        k = k + 1;
        assert(c@ =~= v@.take(k as int));
    }
    assert(v@.take(v@.len() as int) =~= v@);
    c
}

/// The disorder groups of a structure: its coincidence groups (see
/// [`coincidence_groups`]) that hold at least two different element symbols,
/// in grouping order, together with the distance method's caveat as
/// [`coincidence_groups`] reports it.
pub fn disorder_groups(elements: &Vec<String>, p: &Proximity) -> (res: (Vec<Vec<usize>>, Option<String>))
    requires
        p.wf(),
    ensures
        exists|all: Seq<Seq<usize>>| #[trigger] is_coincidence_grouping(*p, all),
        forall|all: Seq<Seq<usize>>|
            #[trigger] is_coincidence_grouping(*p, all) ==> views(res.0@) == all.filter(
                |g: Seq<usize>| has_two_elements(elements@, g),
            ),
        res.1 is None <==> (p.size() < 2 || method_limitation(p.distance_method()) is None),
        res.1 matches Some(s) ==> method_limitation(p.distance_method()) == Some(s@),
{
    let (all, note) = coincidence_groups(p);
    let ghost all_v = views(all@);
    let ghost pred = |g: Seq<usize>| has_two_elements(elements@, g);
    let mut kept: Vec<Vec<usize>> = Vec::new();
    let mut k: usize = 0;
    while k < all.len()
        invariant
            k <= all@.len(),
            all_v == views(all@),
            pred == (|g: Seq<usize>| has_two_elements(elements@, g)),
            views(kept@) == all_v.take(k as int).filter(pred),
        decreases all@.len() - k,
    {
        proof {
            reveal_with_fuel(Seq::<Seq<usize>>::filter, 1);
            assert(all_v.take(k + 1).drop_last() =~= all_v.take(k as int));
            assert(all_v.take(k + 1).last() == all@[k as int]@);
            assert(all_v.take(k + 1).filter(pred) == if pred(all@[k as int]@) {
                all_v.take(k as int).filter(pred).push(all@[k as int]@)
            } else {
                all_v.take(k as int).filter(pred)
            });
        }
        let ghost before = kept@;
        let keep = group_has_two_elements(elements, &all[k]);
        assert(keep == has_two_elements(elements@, all@[k as int]@));
        assert(pred(all@[k as int]@) == has_two_elements(elements@, all@[k as int]@));
        if keep {
            let copy = copy_indices(&all[k]);
            kept.push(copy);
            assert(views(kept@) =~= views(before).push(copy@));
        }
        assert(views(kept@) == all_v.take(k + 1).filter(pred));
        k = k + 1;
    }
    assert(all_v.take(all@.len() as int) =~= all_v);
    assert forall|other: Seq<Seq<usize>>| #[trigger] is_coincidence_grouping(*p, other) implies views(
        kept@,
    ) == other.filter(|g: Seq<usize>| has_two_elements(elements@, g)) by {
        lemma_grouping_unique(*p, all_v, other);
    }
    (kept, note)
}

/// The findings for one disorder group: disorder present, then over-full
/// occupancy when `over_full`.
pub open spec fn group_findings(g: Seq<usize>, over_full: bool, notes: Seq<Seq<char>>) -> Seq<
    DiagnosisView,
> {
    seq![
        DiagnosisView {
            code: FindingCode::DisorderPresent,
            severity: Severity::Info,
            scope: ScopeView::SiteGroup { indices: g },
            evidence: EvidenceSource::NoEvidence,
            limitations: notes,
        },
    ] + if over_full {
        seq![
            DiagnosisView {
                code: FindingCode::DisorderOccupancySumExceedsOne,
                severity: Severity::High,
                scope: ScopeView::SiteGroup { indices: g },
                evidence: EvidenceSource::GroupOccupancySum,
                limitations: notes,
            },
        ]
    } else {
        Seq::empty()
    }
}

/// Whether group `k` was measured over-full (groups past the end of the
/// measurements are not).
pub open spec fn over_full_at(over_full: Seq<bool>, k: int) -> bool {
    0 <= k < over_full.len() && over_full[k]
}

/// The findings for all disorder groups, group by group.
pub open spec fn disorder_findings(
    groups: Seq<Seq<usize>>,
    over_full: Seq<bool>,
    notes: Seq<Seq<char>>,
) -> Seq<DiagnosisView>
    decreases groups.len(),
{
    if groups.len() == 0 {
        Seq::empty()
    } else {
        disorder_findings(groups.drop_last(), over_full, notes) + group_findings(
            groups.last(),
            over_full_at(over_full, groups.len() - 1),
            notes,
        )
    }
}

/// The limitation list of a disorder finding: the caveat, if any.
pub open spec fn note_views(note: Option<String>) -> Seq<Seq<char>> {
    match note {
        Some(t) => seq![t@],
        None => Seq::empty(),
    }
}

fn note_list(note: &Option<String>) -> (v: Vec<String>)
    ensures
        string_views(v@) == note_views(*note),
{
    let mut v: Vec<String> = Vec::new();
    match note {
        Some(t) => v.push(t.clone()),
        None => {},
    }
    assert(string_views(v@) =~= note_views(*note));
    v
}

/// The disorder findings: for each disorder group, in order, an
/// informational `DISORDER_PRESENT`, followed by a high-severity
/// `DISORDER_OCCUPANCY_SUM_EXCEEDS_ONE` when the caller measured that
/// group's occupancies (all finite) to sum above 1.0. Both carry `note`.
pub fn check(groups: &Vec<Vec<usize>>, over_full: &Vec<bool>, note: &Option<String>) -> (ds: Vec<
    Diagnosis,
>)
    ensures
        diagnosis_views(ds@) == disorder_findings(views(groups@), over_full@, note_views(*note)),
{
    let mut ds: Vec<Diagnosis> = Vec::new();
    let mut k: usize = 0;
    while k < groups.len()
        invariant
            k <= groups@.len(),
            diagnosis_views(ds@) == disorder_findings(
                views(groups@).take(k as int),
                over_full@,
                note_views(*note),
            ),
        decreases groups@.len() - k,
    {
        let ghost before = ds@;
        let present = Diagnosis {
            code: FindingCode::DisorderPresent,
            severity: Severity::Info,
            scope: FindingScope::SiteGroup { indices: copy_indices(&groups[k]) },
            evidence: EvidenceSource::NoEvidence,
            limitations: note_list(note),
        };
        ds.push(present);
        let over = k < over_full.len() && over_full[k];
        if over {
            let exceeds = Diagnosis {
                code: FindingCode::DisorderOccupancySumExceedsOne,
                severity: Severity::High,
                scope: FindingScope::SiteGroup { indices: copy_indices(&groups[k]) },
                evidence: EvidenceSource::GroupOccupancySum,
                limitations: note_list(note),
            };
            ds.push(exceeds);
        }
        proof {
            let gv = views(groups@);
            assert(gv.take(k + 1).drop_last() =~= gv.take(k as int));
            assert(gv.take(k + 1).last() == groups@[k as int]@);
            assert(diagnosis_views(ds@) =~= diagnosis_views(before) + group_findings(
                groups@[k as int]@,
                over_full_at(over_full@, k as int),
                note_views(*note),
            ));
        }
        k = k + 1;
    }
    assert(views(groups@).take(groups@.len() as int) =~= views(groups@));
    ds
}

/// The positions of the groups that hold two different elements.
pub open spec fn disorder_indices(elements: Seq<String>, groups: Seq<Seq<usize>>) -> Set<int> {
    Set::new(|h: int| 0 <= h < groups.len() && has_two_elements(elements, groups[h]))
}

proof fn lemma_disorder_filter_len(elements: Seq<String>, groups: Seq<Seq<usize>>)
    ensures
        disorder_indices(elements, groups).finite(),
        groups.filter(|g: Seq<usize>| has_two_elements(elements, g)).len() == disorder_indices(
            elements,
            groups,
        ).len(),
    decreases groups.len(),
{
    let pred = |g: Seq<usize>| has_two_elements(elements, g);
    if groups.len() == 0 {
        assert(disorder_indices(elements, groups) =~= Set::empty());
    } else {
        let pre = groups.drop_last();
        let last = groups.len() - 1;
        lemma_disorder_filter_len(elements, pre);
        reveal_with_fuel(Seq::<Seq<usize>>::filter, 1);
        assert(groups.filter(pred) == if pred(groups.last()) {
            pre.filter(pred).push(groups.last())
        } else {
            pre.filter(pred)
        });
        assert forall|h: int| 0 <= h < last implies #[trigger] groups[h] == pre[h] by {}
        if pred(groups.last()) {
            assert(disorder_indices(elements, groups) =~= disorder_indices(elements, pre).insert(last));
            assert(!disorder_indices(elements, pre).contains(last));
            assert(disorder_indices(elements, pre).insert(last).len() == disorder_indices(elements, pre).len() + 1);
        } else {
            assert(disorder_indices(elements, groups) =~= disorder_indices(elements, pre));
        }
    }
}

/// Relabeling the sites (new site `i` is old site `perm[i]`, with the same
/// element, and two new sites coincide exactly when the old ones did)
/// leaves the number of disorder groups, hence of `DISORDER_PRESENT`
/// findings, unchanged: disorder detection does not depend on site order.
pub proof fn lemma_disorder_groups_ignore_site_order(
    e1: Seq<String>,
    p1: Proximity,
    g1: Seq<Seq<usize>>,
    e2: Seq<String>,
    p2: Proximity,
    g2: Seq<Seq<usize>>,
    perm: Seq<int>,
)
    requires
        e1.len() == p1.size(),
        e2.len() == p2.size(),
        is_relabeling(p1, p2, perm),
        forall|i: int| 0 <= i < e2.len() ==> (#[trigger] e2[i])@ == e1[perm[i]]@,
        is_coincidence_grouping(p1, g1),
        is_coincidence_grouping(p2, g2),
    ensures
        g1.filter(|g: Seq<usize>| has_two_elements(e1, g)).len() == g2.filter(
            |g: Seq<usize>| has_two_elements(e2, g),
        ).len(),
{
    let n = p1.size() as int;
    let i1 = disorder_indices(e1, g1);
    let i2 = disorder_indices(e2, g2);
    lemma_disorder_filter_len(e1, g1);
    lemma_disorder_filter_len(e2, g2);
    // The group of the old sites of new group `h`.
    let f = |h: int| group_of(g1, perm[g2[h][0] as int]);
    // Every member of new group `h` is, relabeled, in old group `f(h)`.
    lemma_size_fits(p1);
    assert forall|h: int, a: int|
        0 <= h < g2.len() && #[trigger] g2[h].contains(a as usize) && 0 <= a < n implies #[trigger] g1[f(
            h,
        )].contains(perm[a] as usize) by {
        let r = g2[h][0] as int;
        assert(g2[h].contains(r as usize));
        lemma_members_connected(p2, g2, h, r, a);
        lemma_relabeling_connected(p1, p2, perm, r, a);
        lemma_group_of(p1, g1, perm[r]);
        lemma_group_of(p1, g1, perm[a]);
        lemma_connected_same_group(p1, g1, f(h), group_of(g1, perm[a]), perm[r], perm[a]);
    }
    assert forall|x1: int, x2: int|
        i2.contains(x1) && i2.contains(x2) && #[trigger] f(x1) == #[trigger] f(x2) implies x1 == x2 by {
        let r1 = g2[x1][0] as int;
        let r2 = g2[x2][0] as int;
        assert(g2[x1].contains(r1 as usize));
        assert(g2[x2].contains(r2 as usize));
        assert(g1[f(x1)].contains(perm[r1] as usize));
        assert(g1[f(x2)].contains(perm[r2] as usize));
        lemma_group_of(p1, g1, perm[r1]);
        lemma_members_connected(p1, g1, f(x1), perm[r1], perm[r2]);
        lemma_relabeling_connected(p1, p2, perm, r1, r2);
        lemma_connected_same_group(p2, g2, x1, x2, r1, r2);
    }
    assert forall|y: int| i2.map(f).contains(y) <==> i1.contains(y) by {
        if i2.map(f).contains(y) {
            let h = choose|h: int| i2.contains(h) && f(h) == y;
            let (a, b) = choose|a: int, b: int|
                0 <= a < g2[h].len() && 0 <= b < g2[h].len() && element_at(e2, #[trigger] g2[h][a] as int)
                    != element_at(e2, #[trigger] g2[h][b] as int);
            let sa = g2[h][a] as int;
            let sb = g2[h][b] as int;
            assert(g2[h].contains(sa as usize));
            assert(g2[h].contains(sb as usize));
            assert(g1[f(h)].contains(perm[sa] as usize));
            assert(g1[f(h)].contains(perm[sb] as usize));
            let a1 = choose|k: int| 0 <= k < g1[y].len() && g1[y][k] == perm[sa] as usize;
            let b1 = choose|k: int| 0 <= k < g1[y].len() && g1[y][k] == perm[sb] as usize;
            assert(g1[y][a1] as int == perm[sa]);
            assert(g1[y][b1] as int == perm[sb]);
            assert(element_at(e2, sa) == e1[perm[sa]]@);
            assert(element_at(e2, sb) == e1[perm[sb]]@);
            assert(element_at(e1, g1[y][a1] as int) != element_at(e1, g1[y][b1] as int));
            assert(g2[h].len() > 0);
            lemma_group_of(p1, g1, perm[g2[h][0] as int]);
            assert(i1.contains(y));
        }
        if i1.contains(y) {
            let (a, b) = choose|a: int, b: int|
                0 <= a < g1[y].len() && 0 <= b < g1[y].len() && element_at(e1, #[trigger] g1[y][a] as int)
                    != element_at(e1, #[trigger] g1[y][b] as int);
            let x = g1[y][a] as int;
            let z = g1[y][b] as int;
            assert(is_image(perm, x));
            assert(is_image(perm, z));
            let xa = preimage(perm, x);
            let zb = preimage(perm, z);
            let h = group_of(g2, xa);
            lemma_group_of(p2, g2, xa);
            lemma_group_of(p2, g2, zb);
            assert(g1[y].contains(x as usize));
            assert(g1[y].contains(z as usize));
            lemma_members_connected(p1, g1, y, x, z);
            lemma_relabeling_connected(p1, p2, perm, xa, zb);
            lemma_connected_same_group(p2, g2, h, group_of(g2, zb), xa, zb);
            let ka = choose|k: int| 0 <= k < g2[h].len() && g2[h][k] == xa as usize;
            let kb = choose|k: int| 0 <= k < g2[h].len() && g2[h][k] == zb as usize;
            assert(element_at(e2, g2[h][ka] as int) != element_at(e2, g2[h][kb] as int));
            assert(i2.contains(h));
            assert(g1[f(h)].contains(perm[xa] as usize));
            assert(g2[h].len() > 0);
            lemma_group_of(p1, g1, perm[g2[h][0] as int]);
            lemma_connected_refl(p1, x);
            lemma_connected_same_group(p1, g1, f(h), y, x, x);
            assert(f(h) == y);
        }
    }
    assert(i2.map(f) =~= i1);
    vstd::set_lib::lemma_map_size(i2, i1, f);
}

/// Disorder is not itself an anomaly: when no disorder group was measured
/// over-full, every disorder finding is informational and the disorder
/// findings alone give the verdict structurally consistent.
pub proof fn lemma_disorder_alone_is_not_an_anomaly(
    groups: Seq<Seq<usize>>,
    over_full: Seq<bool>,
    notes: Seq<Seq<char>>,
)
    requires
        forall|k: int| 0 <= k < groups.len() ==> !#[trigger] over_full_at(over_full, k),
    ensures
        forall|k: int|
            0 <= k < disorder_findings(groups, over_full, notes).len() ==> (#[trigger] disorder_findings(
                groups,
                over_full,
                notes,
            )[k]).severity == Severity::Info,
        verdict_for(disorder_findings(groups, over_full, notes)) == Verdict::StructurallyConsistent,
    decreases groups.len(),
{
    if groups.len() > 0 {
        let pre = groups.drop_last();
        assert forall|k: int| 0 <= k < pre.len() implies !#[trigger] over_full_at(over_full, k) by {
            assert(!over_full_at(over_full, k));
        }
        lemma_disorder_alone_is_not_an_anomaly(pre, over_full, notes);
        assert(!over_full_at(over_full, groups.len() - 1));
        let ds = disorder_findings(groups, over_full, notes);
        let front = disorder_findings(pre, over_full, notes);
        let last = group_findings(groups.last(), false, notes);
        assert(ds == front + last);
        assert forall|k: int| 0 <= k < ds.len() implies (#[trigger] ds[k]).severity == Severity::Info by {
            if k >= front.len() {
                assert(ds[k] == last[k - front.len()]);
            } else {
                assert(ds[k] == front[k]);
            }
        }
    }
}

/// The scope of a finding about site group `g`.
pub open spec fn group_scope(g: Seq<usize>) -> ScopeView {
    ScopeView::SiteGroup { indices: g }
}

/// Some finding of `ds` has code `c` and is about site group `g`.
pub open spec fn has_group_finding(ds: Seq<DiagnosisView>, c: FindingCode, g: Seq<usize>) -> bool {
    exists|m: int| 0 <= m < ds.len() && (#[trigger] ds[m]).code == c && ds[m].scope == group_scope(g)
}

/// Finding `d` is about one of `groups`: a `DISORDER_PRESENT`, or a
/// `DISORDER_OCCUPANCY_SUM_EXCEEDS_ONE` for a group measured over-full.
pub open spec fn about_a_group(d: DiagnosisView, groups: Seq<Seq<usize>>, over_full: Seq<bool>) -> bool {
    exists|k: int|
        0 <= k < groups.len() && d.scope == group_scope(#[trigger] groups[k]) && (d.code
            == FindingCode::DisorderPresent || (d.code == FindingCode::DisorderOccupancySumExceedsOne
            && k < over_full.len() && over_full[k]))
}

/// For distinct disorder groups, each group `k` gets a `DISORDER_PRESENT`
/// finding, and a `DISORDER_OCCUPANCY_SUM_EXCEEDS_ONE` finding about it
/// exactly when its own measurement `over_full[k]` says it is over-full;
/// every finding is one of these, about one of the groups.
pub proof fn lemma_disorder_findings_per_group(
    groups: Seq<Seq<usize>>,
    over_full: Seq<bool>,
    notes: Seq<Seq<char>>,
)
    requires
        forall|i: int, j: int| 0 <= i < j < groups.len() ==> #[trigger] groups[i] != #[trigger] groups[j],
    ensures
        forall|k: int|
            0 <= k < groups.len() ==> has_group_finding(
                disorder_findings(groups, over_full, notes),
                FindingCode::DisorderPresent,
                #[trigger] groups[k],
            ),
        forall|k: int|
            0 <= k < groups.len() ==> (has_group_finding(
                disorder_findings(groups, over_full, notes),
                FindingCode::DisorderOccupancySumExceedsOne,
                #[trigger] groups[k],
            ) <==> (k < over_full.len() && over_full[k])),
        forall|m: int|
            0 <= m < disorder_findings(groups, over_full, notes).len() ==> about_a_group(
                #[trigger] disorder_findings(groups, over_full, notes)[m],
                groups,
                over_full,
            ),
    decreases groups.len(),
{
    let ds = disorder_findings(groups, over_full, notes);
    let c = FindingCode::DisorderOccupancySumExceedsOne;
    if groups.len() > 0 {
        let n = groups.len() - 1;
        let pre = groups.drop_last();
        assert forall|i: int, j: int| 0 <= i < j < pre.len() implies #[trigger] pre[i] != #[trigger] pre[j] by {
            assert(pre[i] == groups[i] && pre[j] == groups[j]);
        }
        lemma_disorder_findings_per_group(pre, over_full, notes);
        let front = disorder_findings(pre, over_full, notes);
        let over = over_full_at(over_full, n);
        let last = group_findings(groups.last(), over, notes);
        assert(ds == front + last);
        assert(groups.last() == groups[n]);
        assert forall|m: int| 0 <= m < ds.len() implies about_a_group(#[trigger] ds[m], groups, over_full) by {
            if m < front.len() {
                assert(ds[m] == front[m]);
                assert(about_a_group(front[m], pre, over_full));
                let k = choose|k: int|
                    0 <= k < pre.len() && front[m].scope == group_scope(#[trigger] pre[k]) && (front[m].code
                        == FindingCode::DisorderPresent || (front[m].code == c && k < over_full.len()
                        && over_full[k]));
                assert(pre[k] == groups[k]);
            } else {
                assert(ds[m] == last[m - front.len()]);
                assert(ds[m].scope == group_scope(groups[n]));
            }
        }
        assert forall|k: int| 0 <= k < groups.len() implies has_group_finding(
            ds,
            FindingCode::DisorderPresent,
            #[trigger] groups[k],
        ) by {
            if k < n {
                assert(pre[k] == groups[k]);
                assert(has_group_finding(front, FindingCode::DisorderPresent, pre[k]));
                let m = choose|m: int|
                    0 <= m < front.len() && (#[trigger] front[m]).code == FindingCode::DisorderPresent
                        && front[m].scope == group_scope(pre[k]);
                assert(ds[m] == front[m]);
            } else {
                assert(ds[front.len() as int] == last[0]);
            }
        }
        assert forall|k: int| 0 <= k < groups.len() implies (has_group_finding(ds, c, #[trigger] groups[k])
            <==> (k < over_full.len() && over_full[k])) by {
            if k < n {
                assert(pre[k] == groups[k]);
                if has_group_finding(ds, c, groups[k]) {
                    let m = choose|m: int|
                        0 <= m < ds.len() && (#[trigger] ds[m]).code == c && ds[m].scope == group_scope(
                            groups[k],
                        );
                    if m < front.len() {
                        assert(ds[m] == front[m]);
                        assert(has_group_finding(front, c, pre[k]));
                    } else {
                        assert(ds[m] == last[m - front.len()]);
                        assert(groups[k] != groups[n]);
                    }
                }
                if k < over_full.len() && over_full[k] {
                    assert(has_group_finding(front, c, pre[k]));
                    let m = choose|m: int|
                        0 <= m < front.len() && (#[trigger] front[m]).code == c && front[m].scope
                            == group_scope(pre[k]);
                    assert(ds[m] == front[m]);
                }
            } else {
                if has_group_finding(ds, c, groups[k]) {
                    let m = choose|m: int|
                        0 <= m < ds.len() && (#[trigger] ds[m]).code == c && ds[m].scope == group_scope(
                            groups[k],
                        );
                    if m < front.len() {
                        assert(ds[m] == front[m]);
                        assert(about_a_group(front[m], pre, over_full));
                        let j = choose|j: int|
                            0 <= j < pre.len() && front[m].scope == group_scope(#[trigger] pre[j]) && (
                            front[m].code == FindingCode::DisorderPresent || (front[m].code == c && j
                                < over_full.len() && over_full[j]));
                        assert(pre[j] == groups[j]);
                        assert(groups[j] != groups[n]);
                    } else {
                        assert(ds[m] == last[m - front.len()]);
                        assert(m - front.len() == 1);
                    }
                }
                if k < over_full.len() && over_full[k] {
                    assert(over);
                    assert(ds[front.len() + 1int] == last[1]);
                }
            }
        }
    }
}

/// The disorder groups among coincidence groups `groups`: those holding two
/// different elements, in order.
pub open spec fn disorder_groups_of(elements: Seq<String>, groups: Seq<Seq<usize>>) -> Seq<Seq<usize>> {
    groups.filter(|g: Seq<usize>| has_two_elements(elements, g))
}

proof fn lemma_filter_keeps_first_member_order(elements: Seq<String>, groups: Seq<Seq<usize>>)
    requires
        forall|g: int| 0 <= g < groups.len() ==> #[trigger] groups[g].len() > 0,
        forall|g: int, h: int| 0 <= g < h < groups.len() ==> #[trigger] groups[g][0] < #[trigger] groups[h][0],
    ensures
        forall|i: int|
            0 <= i < disorder_groups_of(elements, groups).len() ==> (
            #[trigger] disorder_groups_of(elements, groups)[i]).len() > 0
                && exists|g: int|
                0 <= g < groups.len() && groups[g] == disorder_groups_of(elements, groups)[i],
        forall|i: int, j: int|
            0 <= i < j < disorder_groups_of(elements, groups).len() ==> (
            #[trigger] disorder_groups_of(elements, groups)[i])[0] < (
            #[trigger] disorder_groups_of(elements, groups)[j])[0],
    decreases groups.len(),
{
    if groups.len() > 0 {
        let pre = groups.drop_last();
        assert forall|g: int| 0 <= g < pre.len() implies #[trigger] pre[g].len() > 0 by {
            assert(pre[g] == groups[g]);
        }
        assert forall|g: int, h: int| 0 <= g < h < pre.len() implies #[trigger] pre[g][0] < #[trigger] pre[h][0] by {
            assert(pre[g] == groups[g] && pre[h] == groups[h]);
        }
        lemma_filter_keeps_first_member_order(elements, pre);
        reveal_with_fuel(Seq::<Seq<usize>>::filter, 1);
        let fp = disorder_groups_of(elements, pre);
        let f = disorder_groups_of(elements, groups);
        let n = groups.len() - 1;
        assert(groups.last() == groups[n]);
        assert(f == if has_two_elements(elements, groups.last()) {
            fp.push(groups.last())
        } else {
            fp
        });
        assert forall|i: int| 0 <= i < f.len() implies (#[trigger] f[i]).len() > 0 && exists|g: int|
            0 <= g < groups.len() && groups[g] == f[i] by {
            if i < fp.len() {
                assert(f[i] == fp[i]);
                let g = choose|g: int| 0 <= g < pre.len() && pre[g] == fp[i];
                assert(groups[g] == pre[g]);
            } else {
                assert(f[i] == groups[n]);
            }
        }
        assert forall|i: int, j: int| 0 <= i < j < f.len() implies (#[trigger] f[i])[0] < (#[trigger] f[j])[0] by {
            assert(f[i] == fp[i]);
            if j < fp.len() {
                assert(f[j] == fp[j]);
            } else {
                assert(f[j] == groups[n]);
                let g = choose|g: int| 0 <= g < pre.len() && pre[g] == fp[i];
                assert(groups[g] == pre[g]);
                assert(groups[g][0] < groups[n][0]);
            }
        }
    }
}

/// The disorder groups picked from a coincidence grouping are pairwise
/// distinct, so [`lemma_disorder_findings_per_group`] applies to them.
pub proof fn lemma_disorder_groups_distinct(p: Proximity, elements: Seq<String>, groups: Seq<Seq<usize>>)
    requires
        is_coincidence_grouping(p, groups),
    ensures
        forall|i: int, j: int|
            0 <= i < j < disorder_groups_of(elements, groups).len() ==> #[trigger] disorder_groups_of(elements, groups)[i] != #[trigger] disorder_groups_of(elements, groups)[j],
{
    lemma_filter_keeps_first_member_order(elements, groups);
    let f = disorder_groups_of(elements, groups);
    assert forall|i: int, j: int| 0 <= i < j < f.len() implies #[trigger] f[i] != #[trigger] f[j] by {
        assert(f[i][0] < f[j][0]);
    }
}

} // verus!
