//! Site order: the findings and the verdict of a whole report do not depend
//! on the order in which the structure lists its sites.
//!
//! A report's findings are the input quality findings, followed, unless input
//! quality was fatal, by the duplicate findings and the disorder findings.
//! Reordering the sites moves the site indices inside the findings' scopes,
//! and nothing else: the number of findings of each code and severity, and
//! so the verdict, stay the same.

use vstd::prelude::*;

use crate::assessment::{lemma_same_counts_same_verdict, verdict_for};
use crate::diagnostics::disorder::{
    disorder_findings, disorder_groups_of, group_findings, lemma_disorder_groups_ignore_site_order,
    over_full_at,
};
use crate::diagnostics::input_quality::{
    input_quality_fatal, input_quality_findings, lemma_input_quality_ignores_site_order,
    StructureFacts,
};
use crate::diagnostics::separation::{
    duplicate_view, is_duplicate_report, lemma_duplicates_ignore_site_order, scope_pair,
};
use crate::finding::{finding_count, lemma_finding_count_add, DiagnosisView, FindingCode};
use crate::model::{Severity, Verdict};
use crate::structure_view::{is_coincidence_grouping, is_image, is_permutation, is_relabeling, Proximity};

verus! {

/// The findings of a whole report: the input quality findings, then, unless
/// input quality was fatal, the duplicate findings and the disorder findings.
pub open spec fn report_findings(
    facts: StructureFacts,
    duplicates: Seq<DiagnosisView>,
    disorder: Seq<DiagnosisView>,
) -> Seq<DiagnosisView> {
    if input_quality_fatal(facts) {
        input_quality_findings(facts)
    } else {
        input_quality_findings(facts) + duplicates + disorder
    }
}

/// The verdict of a whole report: invalid input when input quality was
/// fatal, otherwise the verdict of its findings.
pub open spec fn report_verdict(
    facts: StructureFacts,
    duplicates: Seq<DiagnosisView>,
    disorder: Seq<DiagnosisView>,
) -> Verdict {
    if input_quality_fatal(facts) {
        Verdict::InvalidInput
    } else {
        verdict_for(report_findings(facts, duplicates, disorder))
    }
}

/// How many of the first `n` disorder groups were measured over-full.
pub open spec fn over_full_count(over_full: Seq<bool>, n: int) -> nat
    decreases n,
{
    if n <= 0 {
        0
    } else {
        over_full_count(over_full, n - 1) + if over_full_at(over_full, n - 1) {
            1nat
        } else {
            0nat
        }
    }
}

/// A list whose findings all have code `c0` and severity `s0` counts only
/// those.
proof fn lemma_uniform_count(ds: Seq<DiagnosisView>, c0: FindingCode, s0: Severity, c: FindingCode, s: Severity)
    requires
        forall|k: int| 0 <= k < ds.len() ==> (#[trigger] ds[k]).code == c0 && ds[k].severity == s0,
    ensures
        finding_count(ds, c, s) == if c == c0 && s == s0 {
            ds.len()
        } else {
            0
        },
    decreases ds.len(),
{
    if ds.len() > 0 {
        let pre = ds.drop_last();
        assert forall|k: int| 0 <= k < pre.len() implies (#[trigger] pre[k]).code == c0 && pre[k].severity == s0 by {
            assert(pre[k] == ds[k]);
        }
        lemma_uniform_count(pre, c0, s0, c, s);
        assert(ds.last() == ds[ds.len() - 1]);
    }
}

proof fn lemma_duplicate_count(elements: Seq<String>, p: Proximity, ds: Seq<DiagnosisView>, c: FindingCode, s: Severity)
    requires
        is_duplicate_report(elements, p, ds),
    ensures
        finding_count(ds, c, s) == if c == FindingCode::SiteDuplicate && s == Severity::Critical {
            ds.len()
        } else {
            0
        },
{
    assert forall|k: int| 0 <= k < ds.len() implies (#[trigger] ds[k]).code == FindingCode::SiteDuplicate
        && ds[k].severity == Severity::Critical by {
        assert(ds[k] == duplicate_view(p.distance_method(), scope_pair(ds[k]).0, scope_pair(ds[k]).1));
    }
    lemma_uniform_count(ds, FindingCode::SiteDuplicate, Severity::Critical, c, s);
}

proof fn lemma_disorder_count(
    groups: Seq<Seq<usize>>,
    over_full: Seq<bool>,
    notes: Seq<Seq<char>>,
    c: FindingCode,
    s: Severity,
)
    ensures
        finding_count(disorder_findings(groups, over_full, notes), c, s) == if c
            == FindingCode::DisorderPresent && s == Severity::Info {
            groups.len() as nat
        } else if c == FindingCode::DisorderOccupancySumExceedsOne && s == Severity::High {
            over_full_count(over_full, groups.len() as int)
        } else {
            0
        },
    decreases groups.len(),
{
    if groups.len() > 0 {
        let pre = groups.drop_last();
        let n = groups.len() - 1;
        lemma_disorder_count(pre, over_full, notes, c, s);
        let over = over_full_at(over_full, n);
        let last = group_findings(groups.last(), over, notes);
        lemma_finding_count_add(disorder_findings(pre, over_full, notes), last, c, s);
        assert(disorder_findings(groups, over_full, notes) == disorder_findings(pre, over_full, notes)
            + last);
        assert(over_full_count(over_full, groups.len() as int) == over_full_count(over_full, n) + if over {
            1nat
        } else {
            0nat
        });
        let head = seq![last[0]];
        let tail = last.skip(1);
        assert(last =~= head + tail);
        lemma_finding_count_add(head, tail, c, s);
        assert(head.drop_last() =~= Seq::<DiagnosisView>::empty());
        assert(finding_count(head.drop_last(), c, s) == 0);
        assert(head.last().code == FindingCode::DisorderPresent && head.last().severity == Severity::Info);
        assert(finding_count(head, c, s) == if c == FindingCode::DisorderPresent && s == Severity::Info {
            1nat
        } else {
            0nat
        });
        if over {
            assert(tail.len() == 1);
            assert(tail.drop_last() =~= Seq::<DiagnosisView>::empty());
            assert(finding_count(tail.drop_last(), c, s) == 0);
            assert(tail.last().code == FindingCode::DisorderOccupancySumExceedsOne);
            assert(tail.last().severity == Severity::High);
            assert(finding_count(tail, c, s) == if c == FindingCode::DisorderOccupancySumExceedsOne && s
                == Severity::High {
                1nat
            } else {
                0nat
            });
        } else {
            assert(tail =~= Seq::<DiagnosisView>::empty());
            assert(finding_count(tail, c, s) == 0);
        }
    }
}

/// The site-by-site relabeling of a sequence keeps its multiset of entries.
proof fn lemma_relabeled_multiset<A>(s: Seq<A>, t: Seq<A>, perm: Seq<int>)
    requires
        s.len() == t.len(),
        is_permutation(perm, s.len() as int),
        forall|i: int| 0 <= i < t.len() ==> #[trigger] t[i] == s[perm[i]],
    ensures
        t.to_multiset() == s.to_multiset(),
    decreases s.len(),
{
    broadcast use vstd::seq_lib::group_to_multiset_ensures;

    let n = s.len() as int;
    if n == 0 {
        assert(s =~= Seq::<A>::empty());
        assert(t =~= Seq::<A>::empty());
    } else {
        let j = perm[n - 1];
        let s1 = s.remove(j);
        let t1 = t.drop_last();
        let perm1 = Seq::new((n - 1) as nat, |i: int| if perm[i] < j { perm[i] } else { perm[i] - 1 });
        assert forall|i: int| 0 <= i < n - 1 implies 0 <= #[trigger] perm1[i] < n - 1 by {
            assert(perm[i] != perm[n - 1]);
        }
        assert forall|i: int, k: int| 0 <= i < n - 1 && 0 <= k < n - 1 && i != k implies #[trigger] perm1[i]
            != #[trigger] perm1[k] by {
            assert(perm[i] != perm[k]);
            assert(perm[i] != j && perm[k] != j);
        }
        assert forall|x: int| 0 <= x < n - 1 implies #[trigger] is_image(perm1, x) by {
            let y = if x < j { x } else { x + 1 };
            assert(is_image(perm, y));
            let i = choose|i: int| 0 <= i < perm.len() && #[trigger] perm[i] == y;
            assert(i != n - 1);
            assert(perm1[i] == x);
        }
        assert forall|i: int| 0 <= i < t1.len() implies #[trigger] t1[i] == s1[perm1[i]] by {
            assert(perm[i] != j);
        }
        lemma_relabeled_multiset(s1, t1, perm1);
        assert(t =~= t1.push(t[n - 1]));
        assert(t[n - 1] == s[j]);
        assert(s1.to_multiset() == s.to_multiset().remove(s[j]));
        assert(s.to_multiset().count(s[j]) > 0) by {
            assert(s.contains(s[j]));
        }
        assert(t.to_multiset() =~= s.to_multiset());
    }
}

/// Reordering the sites does not change a report: when the second structure
/// lists the first one's sites in another order (new site `i` is old site
/// `perm[i]`, with the same facts and element, and two new sites coincide
/// exactly when the old ones did), and the caller measured as many over-full
/// disorder groups in both, then input quality is fatal for both or for
/// neither, the two reports hold the same number of findings of every code
/// and severity (only the site indices inside the findings differ), and
/// their verdicts are the same.
pub proof fn lemma_report_ignores_site_order(
    f1: StructureFacts,
    e1: Seq<String>,
    p1: Proximity,
    g1: Seq<Seq<usize>>,
    dup1: Seq<DiagnosisView>,
    over1: Seq<bool>,
    notes1: Seq<Seq<char>>,
    f2: StructureFacts,
    e2: Seq<String>,
    p2: Proximity,
    g2: Seq<Seq<usize>>,
    dup2: Seq<DiagnosisView>,
    over2: Seq<bool>,
    notes2: Seq<Seq<char>>,
    perm: Seq<int>,
)
    requires
        f1.lattice == f2.lattice,
        f1.sites@.len() == e1.len(),
        f2.sites@.len() == e2.len(),
        e1.len() == p1.size(),
        e2.len() == p2.size(),
        is_relabeling(p1, p2, perm),
        forall|i: int| 0 <= i < f2.sites@.len() ==> #[trigger] f2.sites@[i] == f1.sites@[perm[i]],
        forall|i: int| 0 <= i < e2.len() ==> (#[trigger] e2[i])@ == e1[perm[i]]@,
        is_duplicate_report(e1, p1, dup1),
        is_duplicate_report(e2, p2, dup2),
        is_coincidence_grouping(p1, g1),
        is_coincidence_grouping(p2, g2),
        over_full_count(over1, disorder_groups_of(e1, g1).len() as int) == over_full_count(
            over2,
            disorder_groups_of(e2, g2).len() as int,
        ),
    ensures
        input_quality_fatal(f1) == input_quality_fatal(f2),
        forall|c: FindingCode, s: Severity|
            finding_count(
                report_findings(
                    f1,
                    dup1,
                    disorder_findings(disorder_groups_of(e1, g1), over1, notes1),
                ),
                c,
                s,
            ) == #[trigger] finding_count(
                report_findings(
                    f2,
                    dup2,
                    disorder_findings(disorder_groups_of(e2, g2), over2, notes2),
                ),
                c,
                s,
            ),
        report_verdict(
            f1,
            dup1,
            disorder_findings(disorder_groups_of(e1, g1), over1, notes1),
        ) == report_verdict(
            f2,
            dup2,
            disorder_findings(disorder_groups_of(e2, g2), over2, notes2),
        ),
{
    let d1 = disorder_groups_of(e1, g1);
    let d2 = disorder_groups_of(e2, g2);
    let dis1 = disorder_findings(d1, over1, notes1);
    let dis2 = disorder_findings(d2, over2, notes2);
    lemma_relabeled_multiset(f1.sites@, f2.sites@, perm);
    lemma_input_quality_ignores_site_order(f1, f2);
    lemma_duplicates_ignore_site_order(e1, p1, dup1, e2, p2, dup2, perm);
    lemma_disorder_groups_ignore_site_order(e1, p1, g1, e2, p2, g2, perm);
    let r1 = report_findings(f1, dup1, dis1);
    let r2 = report_findings(f2, dup2, dis2);
    assert forall|c: FindingCode, s: Severity| finding_count(r1, c, s) == #[trigger] finding_count(r2, c, s) by {
        if !input_quality_fatal(f1) {
            let q1 = input_quality_findings(f1);
            let q2 = input_quality_findings(f2);
            lemma_finding_count_add(q1 + dup1, dis1, c, s);
            lemma_finding_count_add(q1, dup1, c, s);
            lemma_finding_count_add(q2 + dup2, dis2, c, s);
            lemma_finding_count_add(q2, dup2, c, s);
            lemma_duplicate_count(e1, p1, dup1, c, s);
            lemma_duplicate_count(e2, p2, dup2, c, s);
            lemma_disorder_count(d1, over1, notes1, c, s);
            lemma_disorder_count(d2, over2, notes2, c, s);
        }
    }
    if !input_quality_fatal(f1) {
        lemma_same_counts_same_verdict(r1, r2);
    }
}

} // verus!
