//! Coordination number / local environment: the decisions that need no
//! floating-point geometry.
//!
//! The method, whose distance arithmetic the caller carries out: for each
//! site with a resolvable element and no positional disorder, find every
//! candidate neighbor within the pairwise bound `r_center + r_neighbor +
//! epsilon` (covalent radii from [`crate::radii`], epsilon 0.4 Å), sort the
//! candidates by distance, and cut the shell at the largest relative gap
//! between consecutive distances. This module names the method, resolves
//! each coincidence group's radius and each site's group, decides which
//! sites get no coordination number and why, bounds the neighbor search,
//! tallies the resolved shell by neighbor species, and notes the candidates
//! it had to leave out.

use vstd::prelude::*;
use vstd::string::*;

use crate::element::{is_element_symbol, is_recognized_element};
use crate::finding::string_views;
use crate::report::NeighborSpeciesCount;
use crate::text::{
    char_seq_lt, lemma_char_seq_lt_irreflexive, lemma_char_seq_lt_total,
    lemma_char_seq_lt_transitive, decimal, decimal_text, str_eq, str_lt,
};
use crate::radii::{cordero_radius, covalent_radius_centiangstrom, RADIUS_TABLE_VERSION};
use crate::structure_view::views;

verus! {

/// The method description recorded in provenance whenever coordination ran.
pub open spec fn coordination_method_text() -> Seq<char> {
    "covalent-radius-sum-plus-tolerance(epsilon=0.4A, largest-relative-gap shell detection, "@
        + RADIUS_TABLE_VERSION@ + ")"@
}

/// Description recorded in provenance whenever this component ran.
pub fn method_description() -> (s: String)
    ensures
        s@ == coordination_method_text(),
{
    let s = String::from_str(
        "covalent-radius-sum-plus-tolerance(epsilon=0.4A, largest-relative-gap shell detection, ",
    );
    let s = s.concat(RADIUS_TABLE_VERSION);
    s.concat(")")
}

/// An optional radius as a natural number.
pub open spec fn radius_view(r: Option<u16>) -> Option<nat> {
    match r {
        Some(v) => Some(v as nat),
        None => None,
    }
}

/// An optional string as its characters.
pub open spec fn text_view(t: Option<String>) -> Option<Seq<char>> {
    match t {
        Some(s) => Some(s@),
        None => None,
    }
}

/// Every member of every group is a site index below `n`.
pub open spec fn members_below(groups: Seq<Seq<usize>>, n: int) -> bool {
    forall|g: int, k: int| 0 <= g < groups.len() && 0 <= k < groups[g].len() ==> groups[g][k] < n
}

/// Site `i` is a member of some group.
pub open spec fn is_member(groups: Seq<Seq<usize>>, i: int) -> bool {
    exists|g: int, k: int| 0 <= g < groups.len() && 0 <= k < groups[g].len() && #[trigger] groups[g][k] == i
}

/// The covalent radius (centi-Angstrom) with which a coincidence group takes
/// part in coordination, as a center or as a counted neighbor: that of its
/// one site's element, when the group is a single site whose element is
/// recognized and listed in the radius table. A group of several sites (a
/// disordered position) has none.
pub open spec fn group_radius(elements: Seq<Seq<char>>, g: Seq<usize>) -> Option<nat> {
    if g.len() == 1 && is_element_symbol(elements[g[0] as int]) {
        cordero_radius(elements[g[0] as int])
    } else {
        None
    }
}

/// The radius of a coincidence group given which element symbols are
/// recognized (`element_known[k]` for site `k`): that of its one site's
/// element, when the group is a single site whose element is recognized and
/// listed in the radius table.
pub open spec fn group_radius_given(elements: Seq<Seq<char>>, element_known: Seq<bool>, g: Seq<usize>) -> Option<nat> {
    if g.len() == 1 && element_known[g[0] as int] {
        cordero_radius(elements[g[0] as int])
    } else {
        None
    }
}

/// The radius of each coincidence group (see [`group_radius_given`]), in
/// group order, given which element symbols are recognized.
pub fn group_radii_with(groups: &Vec<Vec<usize>>, elements: &Vec<String>, element_known: &Vec<bool>) -> (r: Vec<
    Option<u16>,
>)
    requires
        members_below(views(groups@), elements@.len() as int),
        element_known@.len() == elements@.len(),
    ensures
        r@.len() == groups@.len(),
        forall|g: int|
            0 <= g < groups@.len() ==> radius_view(#[trigger] r@[g]) == group_radius_given(
                string_views(elements@),
                element_known@,
                groups@[g]@,
            ),
{
    let mut r: Vec<Option<u16>> = Vec::new();
    let mut g: usize = 0;
    while g < groups.len()
        invariant
            g <= groups@.len(),
            members_below(views(groups@), elements@.len() as int),
            element_known@.len() == elements@.len(),
            r@.len() == g,
            forall|h: int|
                0 <= h < g ==> radius_view(#[trigger] r@[h]) == group_radius_given(
                    string_views(elements@),
                    element_known@,
                    groups@[h]@,
                ),
        decreases groups@.len() - g,
    {
        let group = &groups[g];
        let radius = if group.len() == 1 {
            let site = group[0];
            assert(views(groups@)[g as int][0] == site);
            if element_known[site] {
                covalent_radius_centiangstrom(elements[site].as_str())
            } else {
                None
            }
        } else {
            None
        };
        r.push(radius);
        g = g + 1;
    }
    r
}

/// The radius of each coincidence group (see [`group_radius`]), in group
/// order, asking `chematic_core` whether each site's element symbol is
/// recognized.
pub fn group_radii(groups: &Vec<Vec<usize>>, elements: &Vec<String>) -> (r: Vec<Option<u16>>)
    requires
        members_below(views(groups@), elements@.len() as int),
    ensures
        r@.len() == groups@.len(),
        forall|g: int|
            0 <= g < groups@.len() ==> radius_view(#[trigger] r@[g]) == group_radius(
                string_views(elements@),
                groups@[g]@,
            ),
{
    let mut known: Vec<bool> = Vec::new();
    let mut k: usize = 0;
    while k < elements.len()
        invariant
            k <= elements@.len(),
            known@.len() == k,
            forall|m: int| 0 <= m < k ==> known@[m] == is_element_symbol((#[trigger] elements@[m])@),
        decreases elements@.len() - k,
    {
        known.push(is_recognized_element(elements[k].as_str()));
        k = k + 1;
    }
    let r = group_radii_with(groups, elements, &known);
    assert forall|g: int| 0 <= g < groups@.len() implies radius_view(#[trigger] r@[g]) == group_radius(
        string_views(elements@),
        groups@[g]@,
    ) by {
        let grp = groups@[g]@;
        assert(views(groups@)[g] == grp);
        if grp.len() == 1 {
            assert(known@[grp[0] as int] == is_element_symbol(elements@[grp[0] as int]@));
        }
    }
    r
}

/// The group of each of the sites `0..n`: entry `i` is the index of a
/// group that has site `i` as a member, or `groups.len()` when no group
/// does. Members at or beyond `n` are ignored.
pub fn site_groups(groups: &Vec<Vec<usize>>, n: usize) -> (r: Vec<usize>)
    ensures
        r@.len() == n,
        forall|i: int|
            0 <= i < n ==> ((#[trigger] r@[i]) < groups@.len() && groups@[r@[i] as int]@.contains(
                i as usize,
            )) || (r@[i] == groups@.len() && !is_member(views(groups@), i)),
{
    let ghost gv = views(groups@);
    let none = groups.len();
    let mut r: Vec<usize> = Vec::new();
    let mut i: usize = 0;
    while i < n
        invariant
            i <= n,
            r@.len() == i,
            forall|x: int| 0 <= x < i ==> r@[x] == none,
        decreases n - i,
    {
        r.push(none);
        i = i + 1;
    }
    let mut g: usize = 0;
    while g < groups.len()
        invariant
            gv == views(groups@),
            none == groups@.len(),
            g <= groups@.len(),
            r@.len() == n,
            forall|x: int|
                0 <= x < n ==> (#[trigger] r@[x]) == none || (r@[x] < none && gv[r@[x] as int].contains(
                    x as usize,
                )),
            forall|h: int, k: int|
                0 <= h < g && 0 <= k < gv[h].len() && gv[h][k] < n ==> r@[#[trigger] gv[h][k] as int]
                    != none,
        decreases groups@.len() - g,
    {
        let group = &groups[g];
        assert(gv[g as int] == group@);
        let mut k: usize = 0;
        while k < group.len()
            invariant
                gv == views(groups@),
                gv[g as int] == group@,
                none == groups@.len(),
                g < groups@.len(),
                k <= group@.len(),
                r@.len() == n,
                forall|x: int|
                    0 <= x < n ==> (#[trigger] r@[x]) == none || (r@[x] < none && gv[r@[x] as int].contains(
                        x as usize,
                    )),
                forall|h: int, m: int|
                    0 <= h < g && 0 <= m < gv[h].len() && gv[h][m] < n ==> r@[#[trigger] gv[h][m] as int]
                        != none,
                forall|m: int| 0 <= m < k && group@[m] < n ==> r@[#[trigger] group@[m] as int] != none,
            decreases group@.len() - k,
        {
            let site = group[k];
            assert(gv[g as int][k as int] == site);
            assert(group@.contains(site));
            if site < n {
                r.set(site, g);
            }
            k = k + 1;
        }
        g = g + 1;
    }
    assert forall|x: int| 0 <= x < n implies ((#[trigger] r@[x]) < groups@.len() && groups@[r@[x] as int]@.contains(
        x as usize,
    )) || (r@[x] == groups@.len() && !is_member(views(groups@), x)) by {
        if r@[x] != none {
            assert(gv[r@[x] as int] == groups@[r@[x] as int]@);
        } else if is_member(gv, x) {
            let (h, m) = choose|h: int, m: int|
                0 <= h < gv.len() && 0 <= m < gv[h].len() && #[trigger] gv[h][m] == x;
            assert(r@[gv[h][m] as int] != none);
        }
    }
    r
}

/// The reason recorded for a site of a disordered position.
pub open spec fn disorder_reason() -> Seq<char> {
    "site belongs to a disordered (multi-species) position; combined coordination number for disorder is not computed in v0.1"@
}

/// The reason recorded for a site whose element has no covalent radius.
pub open spec fn no_radius_reason(element: Seq<char>) -> Seq<char> {
    "no covalent radius available for element \""@ + element
        + "\" (unrecognized, or outside Cordero et al. 2008's Z=1-96 coverage)"@
}

/// Why a site gets no coordination number, if it does not: it shares its
/// position with other sites (a disordered position), or its group has no
/// radius (its element is unrecognized or beyond the table).
pub open spec fn not_computed_text(group_size: nat, radius: Option<nat>, element: Seq<char>) -> Option<
    Seq<char>,
> {
    if group_size > 1 {
        Some(disorder_reason())
    } else if radius is None {
        Some(no_radius_reason(element))
    } else {
        None
    }
}

/// Why the site with element `element`, in a coincidence group of
/// `group_size` sites with radius `radius`, gets no coordination number;
/// `None` when it gets one.
pub fn not_computed_reason(group_size: usize, radius: Option<u16>, element: &str) -> (r: Option<
    String,
>)
    ensures
        text_view(r) == not_computed_text(group_size as nat, radius_view(radius), element@),
{
    if group_size > 1 {
        Some(
            String::from_str(
                "site belongs to a disordered (multi-species) position; combined coordination number for disorder is not computed in v0.1",
            ),
        )
    } else {
        match radius {
            Some(_) => None,
            None => {
                let s = String::from_str("no covalent radius available for element \"");
                let s = s.concat(element);
                Some(
                    s.concat(
                        "\" (unrecognized, or outside Cordero et al. 2008's Z=1-96 coverage)",
                    ),
                )
            },
        }
    }
}

/// How many times `e` occurs in `s`.
pub open spec fn occurrences(s: Seq<Seq<char>>, e: Seq<char>) -> nat
    decreases s.len(),
{
    if s.len() == 0 {
        0
    } else {
        occurrences(s.drop_last(), e) + if s.last() == e {
            1nat
        } else {
            0nat
        }
    }
}

/// A species tally as symbols and counts.
pub open spec fn tally_view(t: Seq<NeighborSpeciesCount>) -> Seq<(Seq<char>, nat)> {
    t.map_values(|c: NeighborSpeciesCount| (c.element@, c.count as nat))
}

/// The sum of a tally's counts.
pub open spec fn tally_total(t: Seq<(Seq<char>, nat)>) -> nat
    decreases t.len(),
{
    if t.len() == 0 {
        0
    } else {
        tally_total(t.drop_last()) + t.last().1
    }
}

/// `t` tallies the element symbols of `shell`: one entry per distinct
/// symbol, in strictly increasing symbol order, each with the number of
/// times that symbol occurs in `shell`.
pub open spec fn is_species_tally(shell: Seq<Seq<char>>, t: Seq<(Seq<char>, nat)>) -> bool {
    &&& forall|i: int, j: int| 0 <= i < j < t.len() ==> char_seq_lt(#[trigger] t[i].0, #[trigger] t[j].0)
    &&& forall|i: int|
        0 <= i < t.len() ==> (#[trigger] t[i]).1 == occurrences(shell, t[i].0) && t[i].1 > 0
    &&& forall|k: int|
        0 <= k < shell.len() ==> exists|i: int| 0 <= i < t.len() && (#[trigger] t[i]).0 == #[trigger] shell[k]
}

proof fn lemma_occurrences_bound(s: Seq<Seq<char>>, e: Seq<char>)
    ensures
        occurrences(s, e) <= s.len(),
    decreases s.len(),
{
    if s.len() > 0 {
        lemma_occurrences_bound(s.drop_last(), e);
    }
}

proof fn lemma_occurrences_witness(s: Seq<Seq<char>>, e: Seq<char>)
    requires
        occurrences(s, e) > 0,
    ensures
        exists|k: int| 0 <= k < s.len() && s[k] == e,
    decreases s.len(),
{
    if s.last() != e {
        lemma_occurrences_witness(s.drop_last(), e);
        let k = choose|k: int| 0 <= k < s.drop_last().len() && s.drop_last()[k] == e;
        assert(s[k] == e);
    } else {
        assert(s[s.len() - 1] == e);
    }
}

proof fn lemma_total_update(t: Seq<(Seq<char>, nat)>, p: int, x: (Seq<char>, nat))
    requires
        0 <= p < t.len(),
    ensures
        tally_total(t.update(p, x)) + t[p].1 == tally_total(t) + x.1,
    decreases t.len(),
{
    let u = t.update(p, x);
    if p == t.len() - 1 {
        assert(u.drop_last() =~= t.drop_last());
    } else {
        assert(u.drop_last() =~= t.drop_last().update(p, x));
        lemma_total_update(t.drop_last(), p, x);
    }
}

proof fn lemma_total_insert(t: Seq<(Seq<char>, nat)>, p: int, x: (Seq<char>, nat))
    requires
        0 <= p <= t.len(),
    ensures
        tally_total(t.insert(p, x)) == tally_total(t) + x.1,
    decreases t.len(),
{
    let u = t.insert(p, x);
    if p == t.len() {
        assert(u.drop_last() =~= t);
    } else {
        assert(u.drop_last() =~= t.drop_last().insert(p, x));
        lemma_total_insert(t.drop_last(), p, x);
    }
}

/// Tallies the element symbols of a resolved coordination shell by species:
/// one entry per distinct symbol, in increasing symbol order, with how many
/// neighbors of that element the shell holds. The counts add up to the
/// shell's size, the coordination number.
pub fn species_tally(shell: &Vec<String>) -> (t: Vec<NeighborSpeciesCount>)
    ensures
        is_species_tally(string_views(shell@), tally_view(t@)),
        tally_total(tally_view(t@)) == shell@.len(),
{
    let ghost sv = string_views(shell@);
    let mut out: Vec<NeighborSpeciesCount> = Vec::new();
    let mut k: usize = 0;
    while k < shell.len()
        invariant
            sv == string_views(shell@),
            k <= shell@.len(),
            is_species_tally(sv.take(k as int), tally_view(out@)),
            tally_total(tally_view(out@)) == k,
        decreases shell@.len() - k,
    {
        let ghost tv = tally_view(out@);
        let ghost pre = sv.take(k as int);
        let ghost post = sv.take(k + 1);
        let e = shell[k].as_str();
        proof {
            assert(post.drop_last() =~= pre);
            assert(post.last() == e@);
            assert forall|x: Seq<char>| #[trigger] occurrences(post, x) == occurrences(pre, x) + if x
                == e@ {
                1nat
            } else {
                0nat
            } by {}
            assert forall|i: int| 0 <= i < tv.len() implies (#[trigger] tv[i]).0 == out@[i].element@
                && tv[i].1 == out@[i].count by {}
        }
        let mut p: usize = 0;
        while p < out.len() && str_lt(out[p].element.as_str(), e)
            invariant
                tv == tally_view(out@),
                p <= out@.len(),
                forall|i: int| 0 <= i < p ==> char_seq_lt(#[trigger] tv[i].0, e@),
            decreases out@.len() - p,
        {
            p = p + 1;
        }
        if p < out.len() && str_eq(out[p].element.as_str(), e) {
            let c = out[p].count;
            proof {
                lemma_occurrences_bound(pre, e@);
                assert(tv[p as int].1 == occurrences(pre, tv[p as int].0));
            }
            let entry = NeighborSpeciesCount { element: out[p].element.clone(), count: c + 1 };
            out.set(p, entry);
            proof {
                let nv = tally_view(out@);
                assert(nv =~= tv.update(p as int, (e@, (c + 1) as nat)));
                lemma_total_update(tv, p as int, (e@, (c + 1) as nat));
                assert forall|i: int| 0 <= i < nv.len() implies (#[trigger] nv[i]).1 == occurrences(
                    post,
                    nv[i].0,
                ) && nv[i].1 > 0 by {
                    if i != p {
                        if tv[i].0 == e@ {
                            if i < p {
                                assert(char_seq_lt(tv[i].0, tv[p as int].0));
                            } else {
                                assert(char_seq_lt(tv[p as int].0, tv[i].0));
                            }
                            lemma_char_seq_lt_irreflexive(e@);
                        }
                    }
                }
                assert forall|m: int| 0 <= m < post.len() implies exists|i: int|
                    0 <= i < nv.len() && (#[trigger] nv[i]).0 == #[trigger] post[m] by {
                    if m < k {
                        assert(pre[m] == post[m]);
                        let i = choose|i: int| 0 <= i < tv.len() && (#[trigger] tv[i]).0 == pre[m];
                        assert(nv[i].0 == tv[i].0);
                    } else {
                        assert(nv[p as int].0 == post[m]);
                    }
                }
            }
        } else {
            proof {
                if p < out@.len() {
                    assert(tv[p as int].0 != e@);
                    lemma_char_seq_lt_total(tv[p as int].0, e@);
                }
                assert forall|i: int| 0 <= i < tv.len() implies tv[i].0 != e@ by {
                    if i < p {
                        if tv[i].0 == e@ {
                            lemma_char_seq_lt_irreflexive(e@);
                        }
                    } else {
                        if i > p {
                            assert(char_seq_lt(tv[p as int].0, tv[i].0));
                            lemma_char_seq_lt_transitive(e@, tv[p as int].0, tv[i].0);
                        }
                        if tv[i].0 == e@ {
                            lemma_char_seq_lt_irreflexive(e@);
                        }
                    }
                }
                if occurrences(pre, e@) > 0 {
                    lemma_occurrences_witness(pre, e@);
                    let m = choose|m: int| 0 <= m < pre.len() && pre[m] == e@;
                    let i = choose|i: int| 0 <= i < tv.len() && (#[trigger] tv[i]).0 == pre[m];
                    assert(tv[i].0 == e@);
                }
            }
            let entry = NeighborSpeciesCount { element: shell[k].clone(), count: 1 };
            out.insert(p, entry);
            proof {
                let nv = tally_view(out@);
                assert(nv =~= tv.insert(p as int, (e@, 1nat)));
                lemma_total_insert(tv, p as int, (e@, 1nat));
                assert forall|i: int, j: int| 0 <= i < j < nv.len() implies char_seq_lt(
                    #[trigger] nv[i].0,
                    #[trigger] nv[j].0,
                ) by {
                    if j == p {
                        assert(nv[i].0 == tv[i].0);
                    } else if i == p {
                        assert(nv[j].0 == tv[j - 1].0);
                        if j - 1 > p {
                            assert(char_seq_lt(tv[p as int].0, tv[j - 1].0));
                            lemma_char_seq_lt_transitive(e@, tv[p as int].0, tv[j - 1].0);
                        }
                    } else if j < p {
                        assert(nv[i].0 == tv[i].0 && nv[j].0 == tv[j].0);
                    } else if i < p {
                        assert(nv[i].0 == tv[i].0 && nv[j].0 == tv[j - 1].0);
                        assert(char_seq_lt(tv[i].0, e@));
                        if j - 1 > p {
                            assert(char_seq_lt(tv[p as int].0, tv[j - 1].0));
                            lemma_char_seq_lt_transitive(e@, tv[p as int].0, tv[j - 1].0);
                        }
                        lemma_char_seq_lt_transitive(tv[i].0, e@, tv[j - 1].0);
                    } else {
                        assert(nv[i].0 == tv[i - 1].0 && nv[j].0 == tv[j - 1].0);
                    }
                }
                assert forall|i: int| 0 <= i < nv.len() implies (#[trigger] nv[i]).1 == occurrences(
                    post,
                    nv[i].0,
                ) && nv[i].1 > 0 by {
                    if i < p {
                        assert(nv[i] == tv[i]);
                    } else if i > p {
                        assert(nv[i] == tv[i - 1]);
                    }
                }
                assert forall|m: int| 0 <= m < post.len() implies exists|i: int|
                    0 <= i < nv.len() && (#[trigger] nv[i]).0 == #[trigger] post[m] by {
                    if m < k {
                        assert(pre[m] == post[m]);
                        let i = choose|i: int| 0 <= i < tv.len() && (#[trigger] tv[i]).0 == pre[m];
                        if i < p {
                            assert(nv[i].0 == tv[i].0);
                        } else {
                            assert(nv[i + 1].0 == tv[i].0);
                        }
                    } else {
                        assert(nv[p as int].0 == post[m]);
                    }
                }
            }
        }
        k = k + 1;
    }
    assert(sv.take(shell@.len() as int) =~= sv);
    out
}

/// The limitation noted when candidate neighbors were left out of a shell.
pub open spec fn excluded_text(excluded: usize) -> Seq<char> {
    decimal_text(excluded)
        + " candidate neighbor(s) excluded: disordered position or unresolvable element"@
}

/// The limitations of a site's coordination number: none when every
/// candidate neighbor could be counted, otherwise one noting how many
/// candidates were left out (a neighbor at a disordered position, or with
/// no radius, is not counted, so the number may undercount).
pub fn excluded_limitations(excluded: usize) -> (v: Vec<String>)
    ensures
        excluded == 0 ==> v@.len() == 0,
        excluded > 0 ==> string_views(v@) == seq![excluded_text(excluded)],
{
    let mut v: Vec<String> = Vec::new();
    if excluded > 0 {
        let count = decimal(excluded);
        let text = count.concat(
            " candidate neighbor(s) excluded: disordered position or unresolvable element",
        );
        v.push(text);
        assert(string_views(v@) =~= seq![excluded_text(excluded)]);
    }
    v
}

/// The largest radius among the groups that have one; 0 when none has.
pub open spec fn max_radius(radii: Seq<Option<u16>>) -> nat
    decreases radii.len(),
{
    if radii.len() == 0 {
        0
    } else {
        let m = max_radius(radii.drop_last());
        match radii.last() {
            Some(v) => if v > m {
                v as nat
            } else {
                m
            },
            None => m,
        }
    }
}

/// The largest radius among the coincidence groups that have one (0 when
/// none has), which bounds the neighbor search: no pair of groups can be
/// within its radius-sum bound beyond twice this radius plus the tolerance.
pub fn largest_radius(radii: &Vec<Option<u16>>) -> (m: u16)
    ensures
        m == max_radius(radii@),
        forall|g: int| 0 <= g < radii@.len() && (#[trigger] radii@[g]) is Some ==> radii@[g]->0 <= m,
{
    let mut m: u16 = 0;
    let mut k: usize = 0;
    while k < radii.len()
        invariant
            k <= radii@.len(),
            m == max_radius(radii@.take(k as int)),
            forall|g: int| 0 <= g < k && (#[trigger] radii@[g]) is Some ==> radii@[g]->0 <= m,
        decreases radii@.len() - k,
    {
        proof {
            assert(radii@.take(k + 1).drop_last() =~= radii@.take(k as int));
            assert(radii@.take(k + 1).last() == radii@[k as int]);
        }
        match radii[k] {
            Some(v) => {
                if v > m {
                    m = v;
                }
            },
            None => {},
        }
        k = k + 1;
    }
    assert(radii@.take(radii@.len() as int) =~= radii@);
    m
}

} // verus!
