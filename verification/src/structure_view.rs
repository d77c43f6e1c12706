//! Which sites of a periodic structure coincide, and how that was measured.
//!
//! The caller measures minimum-image distances between fractional positions
//! (floating-point geometry) and records, in a [`Proximity`], which pairs of
//! sites fall within the numerical-identity tolerance and which distance
//! method produced them. Everything decided from that relation lives here:
//! grouping sites into coincidence groups (the connected components of the
//! relation, which the relation alone determines), and the caveat attached
//! to findings built from an approximate distance method. Relabeling the
//! sites ([`is_relabeling`]) is what the site-order laws of the diagnostics
//! are stated over.

use vstd::prelude::*;
use vstd::string::*;

verus! {

/// How the minimum-image distances behind a [`Proximity`] were computed.
#[derive(Debug, Clone, PartialEq, Eq)]
pub enum PeriodicDistanceMethod {
    /// The exact, reciprocal-lattice-bounded minimum-image search of
    /// `chematic_crystal`, used for every lattice it accepts.
    Exact,
    /// The per-axis-rounding approximation, used only because
    /// `chematic_crystal::Lattice::from_matrix` rejected the lattice.
    ApproximateFallback {
        /// Why the lattice was rejected, in `chematic_crystal`'s own words.
        reason: String,
    },
}

/// The caveat text for a distance computed by the fallback method, around
/// the rejection reason.
pub open spec fn fallback_limitation_text(reason: Seq<char>) -> Seq<char> {
    "periodic distance approximated by independent per-axis rounding, not the exact minimum-image search, because the lattice was rejected by chematic_crystal::Lattice::from_matrix ("@
        + reason
        + "); may not be the true minimum image on a sufficiently skewed cell"@
}

/// The finding limitation a distance method implies: none for the exact
/// search, a caveat naming the rejection reason for the fallback.
pub open spec fn method_limitation(m: PeriodicDistanceMethod) -> Option<Seq<char>> {
    match m {
        PeriodicDistanceMethod::Exact => None,
        PeriodicDistanceMethod::ApproximateFallback { reason } => Some(
            fallback_limitation_text(reason@),
        ),
    }
}

impl PeriodicDistanceMethod {
    /// A finding limitation for this method, or `None` for the exact path
    /// (nothing to caveat).
    pub fn limitation(&self) -> (res: Option<String>)
        ensures
            res is None <==> method_limitation(*self) is None,
            res matches Some(s) ==> method_limitation(*self) == Some(s@),
    {
        match self {
            PeriodicDistanceMethod::Exact => None,
            PeriodicDistanceMethod::ApproximateFallback { reason } => {
                let s = String::from_str(
                    "periodic distance approximated by independent per-axis rounding, not the exact minimum-image search, because the lattice was rejected by chematic_crystal::Lattice::from_matrix (",
                );
                let s = s.concat(reason.as_str());
                let s = s.concat(
                    "); may not be the true minimum image on a sufficiently skewed cell",
                );
                Some(s)
            },
        }
    }
}

/// Which pairs of a structure's sites coincide under periodic boundary
/// conditions (their minimum-image distance is below the numerical-identity
/// tolerance), together with the distance method that decided it.
pub struct Proximity {
    near: Vec<Vec<bool>>,
    method: PeriodicDistanceMethod,
}

impl Proximity {
    /// Number of sites the relation is over.
    pub closed spec fn size(&self) -> nat {
        self.near@.len()
    }

    /// The matrix is square.
    pub closed spec fn wf(&self) -> bool {
        forall|i: int| 0 <= i < self.near@.len() ==> #[trigger] self.near@[i]@.len() == self.near@.len()
    }

    /// Sites `i` and `j` are distinct, in range, and coincide. Symmetric.
    pub closed spec fn close(&self, i: int, j: int) -> bool {
        &&& 0 <= i < self.size()
        &&& 0 <= j < self.size()
        &&& i != j
        &&& if i < j {
            self.near@[i]@[j]
        } else {
            self.near@[j]@[i]
        }
    }

    /// The distance method the relation was measured with.
    pub closed spec fn distance_method(&self) -> PeriodicDistanceMethod {
        self.method
    }

    /// A relation over `n` sites in which no two sites coincide yet.
    pub fn new(n: usize, method: PeriodicDistanceMethod) -> (p: Proximity)
        ensures
            p.wf(),
            p.size() == n,
            p.distance_method() == method,
            forall|i: int, j: int| !p.close(i, j),
    {
        let mut near: Vec<Vec<bool>> = Vec::new();
        let mut k: usize = 0;
        while k < n
            invariant
                k <= n,
                near@.len() == k,
                forall|i: int| 0 <= i < k ==> #[trigger] near@[i]@ == Seq::new(n as nat, |x: int| false),
            decreases n - k,
        {
            let row: Vec<bool> = vec![false; n];
            assert(row@ =~= Seq::new(n as nat, |x: int| false));
            near.push(row);
            k = k + 1;
        }
        Proximity { near, method }
    }

    /// Number of sites the relation is over.
    pub fn len(&self) -> (n: usize)
        ensures
            n == self.size(),
    {
        self.near.len()
    }

    /// Records that sites `i` and `j` coincide. Out-of-range indices and
    /// `i == j` leave the relation unchanged.
    pub fn mark(&mut self, i: usize, j: usize)
        requires
            old(self).wf(),
        ensures
            final(self).wf(),
            final(self).size() == old(self).size(),
            final(self).distance_method() == old(self).distance_method(),
            forall|a: int, b: int|
                #![trigger final(self).close(a, b)]
                final(self).close(a, b) == (old(self).close(a, b) || (
                a != b && a < old(self).size() && b < old(self).size() && ((a == i && b == j) || (a
                    == j && b == i)))),
    {
        let n = self.near.len();
        if i < n && j < n && i != j {
            let (lo, hi) = if i < j {
                (i, j)
            } else {
                (j, i)
            };
            let ghost before = self.near@;
            let mut row = self.near[lo].clone();
            row.set(hi, true);
            self.near.set(lo, row);
            assert forall|x: int| 0 <= x < self.near@.len() implies #[trigger] self.near@[x]@.len()
                == self.near@.len() by {
                if x != lo {
                    assert(self.near@[x] == before[x]);
                }
            }
        }
    }

    /// Whether sites `i` and `j` coincide (false for `i == j` and for
    /// out-of-range indices).
    pub fn is_close(&self, i: usize, j: usize) -> (r: bool)
        requires
            self.wf(),
        ensures
            r == self.close(i as int, j as int),
    {
        let n = self.near.len();
        if i >= n || j >= n || i == j {
            false
        } else if i < j {
            self.near[i][j]
        } else {
            self.near[j][i]
        }
    }

    /// The distance method the relation was measured with.
    pub fn method(&self) -> (m: &PeriodicDistanceMethod)
        ensures
            *m == self.distance_method(),
    {
        &self.method
    }
}

/// `path` is a walk through coinciding sites: consecutive entries coincide.
pub open spec fn is_path(p: Proximity, path: Seq<int>) -> bool {
    &&& path.len() >= 1
    &&& forall|k: int| 0 <= k < path.len() ==> 0 <= #[trigger] path[k] < p.size()
    &&& forall|k: int|
        #![trigger path[k], path[k + 1]]
        0 <= k < path.len() - 1 ==> p.close(path[k], path[k + 1])
}

/// Sites `x` and `y` are linked by a chain of pairwise coincidences
/// (the transitive closure of the relation, plus each site with itself).
pub open spec fn connected(p: Proximity, x: int, y: int) -> bool {
    exists|path: Seq<int>| is_path(p, path) && path[0] == x && path[path.len() - 1] == y
}

/// Every site is connected to itself.
pub proof fn lemma_connected_refl(p: Proximity, x: int)
    requires
        0 <= x < p.size(),
    ensures
        connected(p, x, x),
{
    let path = seq![x];
    assert(is_path(p, path));
}

/// Two coinciding sites are connected.
pub proof fn lemma_close_connected(p: Proximity, x: int, y: int)
    requires
        p.close(x, y),
    ensures
        connected(p, x, y),
{
    let path = seq![x, y];
    assert(path[0] == x && path[1] == y);
    assert(is_path(p, path));
}

/// Only distinct, in-range sites coincide.
pub proof fn lemma_close_in_range(p: Proximity, x: int, y: int)
    ensures
        p.close(x, y) ==> 0 <= x < p.size() && 0 <= y < p.size() && x != y,
{
}

/// The coincidence relation is symmetric.
pub proof fn lemma_close_symmetric(p: Proximity, x: int, y: int)
    ensures
        p.close(x, y) == p.close(y, x),
{
}

/// Connectedness is symmetric.
pub proof fn lemma_connected_symm(p: Proximity, x: int, y: int)
    requires
        connected(p, x, y),
    ensures
        connected(p, y, x),
{
    let path = choose|path: Seq<int>| is_path(p, path) && path[0] == x && path[path.len() - 1] == y;
    let rev = path.reverse();
    assert forall|k: int| 0 <= k < rev.len() - 1 implies p.close(#[trigger] rev[k], rev[k + 1]) by {
        let m = path.len() - 2 - k;
        assert(rev[k] == path[m + 1]);
        assert(rev[k + 1] == path[m]);
        assert(p.close(path[m], path[m + 1]));
        lemma_close_symmetric(p, path[m], path[m + 1]);
    }
    assert forall|k: int| 0 <= k < rev.len() implies 0 <= #[trigger] rev[k] < p.size() by {
        assert(rev[k] == path[path.len() - 1 - k]);
    }
    assert(is_path(p, rev));
    assert(rev[0] == y);
    assert(rev[rev.len() - 1] == x);
}

/// Connectedness is transitive.
pub proof fn lemma_connected_trans(p: Proximity, x: int, y: int, z: int)
    requires
        connected(p, x, y),
        connected(p, y, z),
    ensures
        connected(p, x, z),
{
    let p1 = choose|path: Seq<int>| is_path(p, path) && path[0] == x && path[path.len() - 1] == y;
    let p2 = choose|path: Seq<int>| is_path(p, path) && path[0] == y && path[path.len() - 1] == z;
    let joined = p1 + p2.skip(1);
    assert forall|k: int| 0 <= k < joined.len() implies 0 <= #[trigger] joined[k] < p.size() by {
        if k >= p1.len() {
            assert(joined[k] == p2[k - p1.len() + 1]);
        }
    }
    assert forall|k: int| 0 <= k < joined.len() - 1 implies p.close(
        #[trigger] joined[k],
        joined[k + 1],
    ) by {
        if k + 1 < p1.len() {
            assert(p.close(p1[k], p1[k + 1]));
        } else if k + 1 == p1.len() {
            assert(joined[k] == p1[k]);
            assert(joined[k + 1] == p2[1]);
            assert(p1[k] == p2[0]);
            assert(p.close(p2[0], p2[1]));
        } else {
            let m = k - p1.len() + 1;
            assert(joined[k] == p2[m]);
            assert(joined[k + 1] == p2[m + 1]);
            assert(p.close(p2[m], p2[m + 1]));
        }
    }
    assert(is_path(p, joined));
    if p2.len() == 1 {
        assert(joined =~= p1);
    } else {
        assert(joined[joined.len() - 1] == p2[p2.len() - 1]);
    }
}


/// The largest entry of a sequence of naturals (0 when empty).
spec fn seq_max(s: Seq<nat>) -> nat
    decreases s.len(),
{
    if s.len() == 0 {
        0
    } else {
        let m = seq_max(s.drop_last());
        if s.last() > m {
            s.last()
        } else {
            m
        }
    }
}

proof fn lemma_seq_max(s: Seq<nat>)
    ensures
        forall|i: int| 0 <= i < s.len() ==> s[i] <= seq_max(s),
    decreases s.len(),
{
    if s.len() > 0 {
        lemma_seq_max(s.drop_last());
        assert forall|i: int| 0 <= i < s.len() implies s[i] <= seq_max(s) by {
            if i < s.len() - 1 {
                assert(s[i] == s.drop_last()[i]);
            }
        }
    }
}

/// A union-find parent array whose parent links strictly raise a ghost
/// rank, so that following parents always ends at a root.
spec fn forest(parent: Seq<usize>, rank: Seq<nat>) -> bool {
    &&& rank.len() == parent.len()
    &&& forall|x: int| 0 <= x < parent.len() ==> (#[trigger] parent[x] as int) < parent.len()
    &&& forall|x: int|
        0 <= x < parent.len() && #[trigger] parent[x] as int != x ==> rank[x] < rank[parent[x] as int]
}

/// The root reached from `x` by following parent links.
spec fn find_root(parent: Seq<usize>, rank: Seq<nat>, x: int) -> int
    decreases seq_max(rank) - rank[x],
    when forest(parent, rank) && 0 <= x < parent.len()
    via find_root_decreases
{
    if parent[x] as int == x {
        x
    } else {
        find_root(parent, rank, parent[x] as int)
    }
}

#[via_fn]
proof fn find_root_decreases(parent: Seq<usize>, rank: Seq<nat>, x: int) {
    lemma_seq_max(rank);
    if parent[x] as int != x {
        assert(rank[parent[x] as int] <= seq_max(rank));
    }
}

/// Two parent arrays over the same ranks lead every site to the same root.
spec fn same_roots(p1: Seq<usize>, p2: Seq<usize>, rank: Seq<nat>) -> bool {
    &&& p1.len() == p2.len()
    &&& forall|y: int|
        0 <= y < p1.len() ==> #[trigger] find_root(p1, rank, y) == find_root(p2, rank, y)
}

proof fn lemma_root_props(parent: Seq<usize>, rank: Seq<nat>, x: int)
    requires
        forest(parent, rank),
        0 <= x < parent.len(),
    ensures
        0 <= find_root(parent, rank, x) < parent.len(),
        parent[find_root(parent, rank, x)] as int == find_root(parent, rank, x),
        find_root(parent, rank, x) == x || rank[x] < rank[find_root(parent, rank, x)],
    decreases seq_max(rank) - rank[x],
{
    lemma_seq_max(rank);
    if parent[x] as int != x {
        lemma_root_props(parent, rank, parent[x] as int);
    }
}

proof fn lemma_compress_root(parent: Seq<usize>, rank: Seq<nat>, x: int, y: int)
    requires
        forest(parent, rank),
        0 <= x < parent.len(),
        0 <= y < parent.len(),
        forest(parent.update(x, find_root(parent, rank, x) as usize), rank),
    ensures
        find_root(parent.update(x, find_root(parent, rank, x) as usize), rank, y) == find_root(
            parent,
            rank,
            y,
        ),
    decreases seq_max(rank) - rank[y],
{
    lemma_seq_max(rank);
    let r = find_root(parent, rank, x);
    let p2 = parent.update(x, r as usize);
    lemma_root_props(parent, rank, x);
    if y == x {
        if r != x {
            assert(p2[x] as int == r);
            assert(p2[r] as int == r);
            assert(find_root(p2, rank, r) == r);
        }
    } else {
        assert(p2[y] == parent[y]);
        if parent[y] as int != y {
            lemma_compress_root(parent, rank, x, parent[y] as int);
        }
    }
}

/// Pointing `x` straight at its root keeps the forest shape and every
/// site's root.
proof fn lemma_compress(parent: Seq<usize>, rank: Seq<nat>, x: int)
    requires
        forest(parent, rank),
        0 <= x < parent.len(),
    ensures
        forest(parent.update(x, find_root(parent, rank, x) as usize), rank),
        same_roots(parent.update(x, find_root(parent, rank, x) as usize), parent, rank),
{
    let r = find_root(parent, rank, x);
    lemma_root_props(parent, rank, x);
    let p2 = parent.update(x, r as usize);
    assert forall|z: int| 0 <= z < p2.len() && #[trigger] p2[z] as int != z implies rank[z]
        < rank[p2[z] as int] by {
        if z != x {
            assert(p2[z] == parent[z]);
        }
    }
    assert(forest(p2, rank));
    assert forall|y: int| 0 <= y < p2.len() implies #[trigger] find_root(p2, rank, y) == find_root(
        parent,
        rank,
        y,
    ) by {
        lemma_compress_root(parent, rank, x, y);
    }
}

/// The rank a root takes when another root is linked beneath it.
spec fn linked_rank(rank: Seq<nat>, ri: int, rj: int) -> Seq<nat> {
    rank.update(
        rj,
        if rank[rj] > rank[ri] + 1 {
            rank[rj]
        } else {
            rank[ri] + 1
        },
    )
}

proof fn lemma_link_root(parent: Seq<usize>, rank: Seq<nat>, ri: int, rj: int, y: int)
    requires
        forest(parent, rank),
        0 <= ri < parent.len(),
        0 <= rj < parent.len(),
        ri != rj,
        parent[ri] as int == ri,
        parent[rj] as int == rj,
        forest(parent.update(ri, rj as usize), linked_rank(rank, ri, rj)),
        0 <= y < parent.len(),
    ensures
        find_root(parent.update(ri, rj as usize), linked_rank(rank, ri, rj), y) == (if find_root(
            parent,
            rank,
            y,
        ) == ri {
            rj
        } else {
            find_root(parent, rank, y)
        }),
    decreases seq_max(rank) - rank[y],
{
    lemma_seq_max(rank);
    let p2 = parent.update(ri, rj as usize);
    let k2 = linked_rank(rank, ri, rj);
    if parent[y] as int == y {
        if y == ri {
            assert(p2[ri] as int == rj);
            assert(p2[rj] as int == rj);
            assert(find_root(p2, k2, rj) == rj);
        }
    } else {
        assert(p2[y] == parent[y]);
        lemma_link_root(parent, rank, ri, rj, parent[y] as int);
    }
}

/// Linking root `ri` beneath root `rj` keeps the forest shape and moves
/// exactly the sites rooted at `ri` to `rj`.
proof fn lemma_link(parent: Seq<usize>, rank: Seq<nat>, ri: int, rj: int)
    requires
        forest(parent, rank),
        0 <= ri < parent.len(),
        0 <= rj < parent.len(),
        ri != rj,
        parent[ri] as int == ri,
        parent[rj] as int == rj,
    ensures
        forest(parent.update(ri, rj as usize), linked_rank(rank, ri, rj)),
        forall|y: int|
            0 <= y < parent.len() ==> #[trigger] find_root(
                parent.update(ri, rj as usize),
                linked_rank(rank, ri, rj),
                y,
            ) == (if find_root(parent, rank, y) == ri {
                rj
            } else {
                find_root(parent, rank, y)
            }),
{
    let p2 = parent.update(ri, rj as usize);
    let k2 = linked_rank(rank, ri, rj);
    assert forall|z: int| 0 <= z < p2.len() && #[trigger] p2[z] as int != z implies k2[z]
        < k2[p2[z] as int] by {
        if z != ri {
            assert(p2[z] == parent[z]);
        }
    }
    assert(forest(p2, k2));
    assert forall|y: int| 0 <= y < parent.len() implies #[trigger] find_root(p2, k2, y) == (if find_root(
        parent,
        rank,
        y,
    ) == ri {
        rj
    } else {
        find_root(parent, rank, y)
    }) by {
        lemma_link_root(parent, rank, ri, rj, y);
    }
}

/// Site `y` lies on the path of parent links from `x` to its root (both
/// ends included).
spec fn on_path(parent: Seq<usize>, rank: Seq<nat>, x: int, y: int) -> bool
    decreases seq_max(rank) - rank[x],
    when forest(parent, rank) && 0 <= x < parent.len()
    via on_path_decreases
{
    if x == y {
        true
    } else if parent[x] as int == x {
        false
    } else {
        on_path(parent, rank, parent[x] as int, y)
    }
}

#[via_fn]
proof fn on_path_decreases(parent: Seq<usize>, rank: Seq<nat>, x: int, y: int) {
    lemma_seq_max(rank);
    if parent[x] as int != x {
        assert(rank[parent[x] as int] <= seq_max(rank));
    }
}

/// Follows parent links from `x` to its root, pointing every site on the
/// way straight at that root and writing no other entry.
fn union_find(parent: &mut Vec<usize>, x: usize, Ghost(rank): Ghost<Seq<nat>>) -> (r: usize)
    requires
        forest(old(parent)@, rank),
        x < old(parent)@.len(),
    ensures
        forest(final(parent)@, rank),
        r as int == find_root(old(parent)@, rank, x as int),
        final(parent)@[x as int] == r,
        final(parent)@[r as int] == r,
        same_roots(final(parent)@, old(parent)@, rank),
        forall|y: int|
            0 <= y < old(parent)@.len() ==> if on_path(old(parent)@, rank, x as int, y) {
                final(parent)@[y] == r
            } else {
                final(parent)@[y] == old(parent)@[y]
            },
    decreases seq_max(rank) - rank[x as int],
{
    proof {
        lemma_seq_max(rank);
    }
    if parent[x] != x {
        let p = parent[x];
        let ghost before = parent@;
        let r = union_find(parent, p, Ghost(rank));
        let ghost mid = parent@;
        proof {
            assert(find_root(mid, rank, x as int) == find_root(before, rank, x as int));
            lemma_compress(mid, rank, x as int);
        }
        parent.set(x, r);
        proof {
            assert(parent@ == mid.update(x as int, find_root(mid, rank, x as int) as usize));
            assert forall|y: int| 0 <= y < parent@.len() implies #[trigger] find_root(
                parent@,
                rank,
                y,
            ) == find_root(before, rank, y) by {
                assert(find_root(mid, rank, y) == find_root(before, rank, y));
            }
            assert forall|y: int| 0 <= y < before.len() implies if on_path(before, rank, x as int, y) {
                parent@[y] == r
            } else {
                parent@[y] == before[y]
            } by {
                assert(on_path(before, rank, x as int, y) == (y == x as int || on_path(
                    before,
                    rank,
                    p as int,
                    y,
                )));
            }
            lemma_root_props(before, rank, x as int);
            assert(find_root(before, rank, x as int) == find_root(before, rank, p as int));
            lemma_root_props(before, rank, p as int);
        }
        r
    } else {
        proof {
            lemma_root_props(parent@, rank, x as int);
            assert forall|y: int| 0 <= y < parent@.len() implies if on_path(parent@, rank, x as int, y) {
                parent@[y] == x
            } else {
                parent@[y] == parent@[y]
            } by {}
        }
        x
    }
}


/// `groups` are the coincidence groups of `p`: each group is non-empty and
/// strictly increasing, groups are ordered by their first member, every site
/// lies in some group, members of one group are connected, and connected
/// sites lie in the same group (so no site lies in two groups).
pub open spec fn is_coincidence_grouping(p: Proximity, groups: Seq<Seq<usize>>) -> bool {
    &&& forall|g: int| 0 <= g < groups.len() ==> #[trigger] groups[g].len() > 0
    &&& forall|g: int, a: int, b: int|
        0 <= g < groups.len() && 0 <= a < b < groups[g].len() ==> #[trigger] groups[g][a]
            < #[trigger] groups[g][b]
    &&& forall|g: int, a: int|
        0 <= g < groups.len() && 0 <= a < groups[g].len() ==> #[trigger] groups[g][a] < p.size()
    &&& forall|g: int, h: int|
        0 <= g < h < groups.len() ==> #[trigger] groups[g][0] < #[trigger] groups[h][0]
    &&& forall|i: int| 0 <= i < p.size() ==> #[trigger] in_some_group(groups, i)
    &&& forall|g: int, a: int, b: int|
        0 <= g < groups.len() && 0 <= a < groups[g].len() && 0 <= b < groups[g].len()
            ==> connected(p, #[trigger] groups[g][a] as int, #[trigger] groups[g][b] as int)
    &&& forall|g: int, h: int, x: usize|
        0 <= g < groups.len() && 0 <= h < groups.len() && #[trigger] groups[g].contains(x)
            && #[trigger] groups[h].contains(x) ==> g == h
    &&& forall|g: int, h: int, x: int, y: int|
        #![trigger connected(p, x, y), groups[g].contains(x as usize), groups[h].contains(y as usize)]
        0 <= g < groups.len() && 0 <= h < groups.len() && groups[g].contains(x as usize)
            && groups[h].contains(y as usize) && connected(p, x, y) ==> g == h
}

/// Site `i` is a member of one of `groups`.
pub open spec fn in_some_group(groups: Seq<Seq<usize>>, i: int) -> bool {
    exists|g: int| 0 <= g < groups.len() && #[trigger] groups[g].contains(i as usize)
}

/// The views of a vector of vectors.
pub open spec fn views(v: Seq<Vec<usize>>) -> Seq<Seq<usize>> {
    v.map_values(|g: Vec<usize>| g@)
}

/// A path whose consecutive sites share a root has equal roots at both ends.
proof fn lemma_path_same_root(p: Proximity, roots: Seq<int>, path: Seq<int>, k: int)
    requires
        is_path(p, path),
        roots.len() == p.size(),
        forall|a: int, b: int| #[trigger] p.close(a, b) ==> roots[a] == roots[b],
        0 <= k < path.len(),
    ensures
        roots[path[0]] == roots[path[k]],
    decreases k,
{
    if k > 0 {
        lemma_path_same_root(p, roots, path, k - 1);
        let m = k - 1;
        assert(p.close(path[m], path[m + 1]));
    }
}

/// Groups the sites of `p` into coincidence groups (the connected
/// components of the coincidence relation), together with the caveat of the
/// distance method whenever at least one pair of sites was compared.
pub fn coincidence_groups(p: &Proximity) -> (res: (Vec<Vec<usize>>, Option<String>))
    requires
        p.wf(),
    ensures
        is_coincidence_grouping(*p, views(res.0@)),
        res.1 is None <==> (p.size() < 2 || method_limitation(p.distance_method()) is None),
        res.1 matches Some(s) ==> method_limitation(p.distance_method()) == Some(s@),
{
    let n = p.len();
    let mut parent: Vec<usize> = Vec::new();
    let mut k: usize = 0;
    while k < n
        invariant
            k <= n,
            parent@.len() == k,
            forall|y: int| 0 <= y < k ==> parent@[y] as int == y,
        decreases n - k,
    {
        parent.push(k);
        k = k + 1;
    }
    let ghost mut rank: Seq<nat> = Seq::new(n as nat, |y: int| 0nat);
    proof {
        assert forall|x: int| 0 <= x < n implies #[trigger] find_root(parent@, rank, x) == x by {}
        assert forall|y: int| 0 <= y < n implies connected(*p, y, #[trigger] find_root(parent@, rank, y)) by {
            lemma_connected_refl(*p, y);
        }
    }
    // Union every coinciding pair.
    let mut i: usize = 0;
    while i < n
        invariant
            n == p.size(),
            p.wf(),
            i <= n,
            parent@.len() == n,
            forest(parent@, rank),
            forall|y: int| 0 <= y < n ==> connected(*p, y, #[trigger] find_root(parent@, rank, y)),
            forall|a: int, b: int|
                0 <= a < i && #[trigger] p.close(a, b) ==> find_root(parent@, rank, a) == find_root(
                    parent@,
                    rank,
                    b,
                ),
        decreases n - i,
    {
        proof {
            assert forall|a: int, b: int|
                (0 <= a < i || (a == i && b < i + 1)) && #[trigger] p.close(a, b) implies find_root(
                parent@,
                rank,
                a,
            ) == find_root(parent@, rank, b) by {
                if a == i {
                    lemma_close_symmetric(*p, a, b);
                    assert(p.close(b, a));
                }
            }
        }
        let mut j: usize = i + 1;
        while j < n
            invariant
                n == p.size(),
                p.wf(),
                i < n,
                i + 1 <= j <= n,
                parent@.len() == n,
                forest(parent@, rank),
                forall|y: int| 0 <= y < n ==> connected(*p, y, #[trigger] find_root(parent@, rank, y)),
                forall|a: int, b: int|
                    (0 <= a < i || (a == i && b < j)) && #[trigger] p.close(a, b) ==> find_root(
                        parent@,
                        rank,
                        a,
                    ) == find_root(parent@, rank, b),
            decreases n - j,
        {
            if p.is_close(i, j) {
                let ghost p0 = parent@;
                let ri = union_find(&mut parent, i, Ghost(rank));
                let ghost p1 = parent@;
                let rj = union_find(&mut parent, j, Ghost(rank));
                let ghost p2 = parent@;
                proof {
                    assert forall|y: int| 0 <= y < n implies #[trigger] find_root(p2, rank, y)
                        == find_root(p0, rank, y) by {
                        assert(find_root(p2, rank, y) == find_root(p1, rank, y));
                        assert(find_root(p1, rank, y) == find_root(p0, rank, y));
                    }
                    lemma_root_props(p2, rank, i as int);
                    lemma_root_props(p2, rank, j as int);
                }
                if ri != rj {
                    let ghost old_rank = rank;
                    proof {
                        lemma_link(p2, old_rank, ri as int, rj as int);
                        rank = linked_rank(old_rank, ri as int, rj as int);
                    }
                    parent.set(ri, rj);
                    proof {
                        assert(parent@ == p2.update(ri as int, rj as usize));
                        // connectivity of every site with its (possibly new) root
                        assert forall|y: int| 0 <= y < n implies connected(
                            *p,
                            y,
                            #[trigger] find_root(parent@, rank, y),
                        ) by {
                            assert(connected(*p, y, find_root(p0, old_rank, y)));
                            if find_root(p2, old_rank, y) == ri as int {
                                // y -> ri -> i -> j -> rj
                                assert(connected(*p, i as int, find_root(p0, old_rank, i as int)));
                                lemma_connected_symm(*p, i as int, ri as int);
                                lemma_connected_trans(*p, y, ri as int, i as int);
                                lemma_close_connected(*p, i as int, j as int);
                                lemma_connected_trans(*p, y, i as int, j as int);
                                assert(connected(*p, j as int, find_root(p0, old_rank, j as int)));
                                lemma_connected_trans(*p, y, j as int, rj as int);
                            }
                        }
                        assert forall|a: int, b: int|
                            (0 <= a < i || (a == i && b < j + 1)) && #[trigger] p.close(
                                a,
                                b,
                            ) implies find_root(parent@, rank, a) == find_root(parent@, rank, b) by {
                            if a == i && b == j {
                            } else {
                                assert(find_root(p0, old_rank, a) == find_root(p0, old_rank, b));
                            }
                        }
                    }
                } else {
                    proof {
                        assert forall|y: int| 0 <= y < n implies connected(
                            *p,
                            y,
                            #[trigger] find_root(parent@, rank, y),
                        ) by {
                            assert(connected(*p, y, find_root(p0, rank, y)));
                        }
                        assert forall|a: int, b: int|
                            (0 <= a < i || (a == i && b < j + 1)) && #[trigger] p.close(
                                a,
                                b,
                            ) implies find_root(parent@, rank, a) == find_root(parent@, rank, b) by {
                            if a == i && b == j {
                            } else {
                                assert(find_root(p0, rank, a) == find_root(p0, rank, b));
                            }
                        }
                    }
                }
            } else {
                proof {
                    assert forall|a: int, b: int|
                        (0 <= a < i || (a == i && b < j + 1)) && #[trigger] p.close(
                            a,
                            b,
                        ) implies find_root(parent@, rank, a) == find_root(parent@, rank, b) by {
                        if a == i && b == j {
                            assert(!p.close(i as int, j as int));
                        }
                    }
                }
            }
            j = j + 1;
        }
        proof {
            assert forall|a: int, b: int| 0 <= a < i + 1 && #[trigger] p.close(a, b) implies find_root(
                parent@,
                rank,
                a,
            ) == find_root(parent@, rank, b) by {
                if a == i && b <= i {
                    if b < i {
                        lemma_close_symmetric(*p, a, b);
                        assert(p.close(b, a));
                    }
                }
            }
        }
        i = i + 1;
    }
    let ghost settled = parent@;
    let ghost roots: Seq<int> = Seq::new(n as nat, |y: int| find_root(settled, rank, y));
    proof {
        assert forall|a: int, b: int| #[trigger] p.close(a, b) implies roots[a] == roots[b] by {}
    }
    // Collect the sites of each root, in order of first appearance.
    let mut groups: Vec<Vec<usize>> = Vec::new();
    let mut slot: Vec<usize> = vec![n; n];
    let ghost mut group_root: Seq<int> = Seq::empty();
    let mut i: usize = 0;
    while i < n
        invariant
            n == p.size(),
            p.wf(),
            i <= n,
            parent@.len() == n,
            forest(parent@, rank),
            same_roots(parent@, settled, rank),
            roots.len() == n,
            forall|y: int| 0 <= y < n ==> #[trigger] roots[y] == find_root(settled, rank, y),
            forall|y: int| 0 <= y < n ==> 0 <= #[trigger] roots[y] < n,
            slot@.len() == n,
            groups@.len() == group_root.len(),
            groups@.len() <= i,
            forall|g: int|
                0 <= g < groups@.len() ==> 0 <= #[trigger] group_root[g] < n && slot@[group_root[g]]
                    as int == g,
            forall|r: int|
                0 <= r < n ==> (#[trigger] slot@[r] as int == n || (slot@[r] < groups@.len()
                    && group_root[slot@[r] as int] == r)),
            forall|g: int| 0 <= g < groups@.len() ==> #[trigger] groups@[g]@.len() > 0,
            forall|g: int, k: int|
                0 <= g < groups@.len() && 0 <= k < groups@[g]@.len() ==> #[trigger] groups@[g]@[k]
                    < i && roots[groups@[g]@[k] as int] == group_root[g],
            forall|g: int, a: int, b: int|
                0 <= g < groups@.len() && 0 <= a < b < groups@[g]@.len() ==> #[trigger] groups@[g]@[a]
                    < #[trigger] groups@[g]@[b],
            forall|g: int, h: int|
                0 <= g < h < groups@.len() ==> #[trigger] groups@[g]@[0] < #[trigger] groups@[h]@[0],
            forall|y: int|
                0 <= y < i ==> (slot@[#[trigger] roots[y]] as int) < groups@.len() && groups@[slot@[roots[y]] as int]@.contains(
                    y as usize,
                ),
        decreases n - i,
    {
        let ghost before = parent@;
        let r = union_find(&mut parent, i, Ghost(rank));
        proof {
            assert(r as int == roots[i as int]);
            assert forall|y: int| 0 <= y < n implies #[trigger] find_root(parent@, rank, y)
                == find_root(settled, rank, y) by {
                assert(find_root(parent@, rank, y) == find_root(before, rank, y));
            }
        }
        let ghost old_groups = groups@;
        if slot[r] == n {
            let fresh = groups.len();
            groups.push(vec![i]);
            slot.set(r, fresh);
            proof {
                group_root = group_root.push(r as int);
                assert(groups@[fresh as int]@ =~= seq![i]);
                assert forall|y: int| 0 <= y < i + 1 implies (slot@[#[trigger] roots[y]] as int)
                    < groups@.len() && groups@[slot@[roots[y]] as int]@.contains(y as usize) by {
                    if y == i {
                        assert(groups@[fresh as int]@[0] == i);
                    } else {
                        assert(groups@[slot@[roots[y]] as int] == old_groups[slot@[roots[y]] as int]);
                    }
                }
            }
        } else {
            let g = slot[r];
            groups[g].push(i);
            proof {
                assert forall|h: int| 0 <= h < groups@.len() && h != g implies #[trigger] groups@[h]
                    == old_groups[h] by {}
                assert(groups@[g as int]@ == old_groups[g as int]@.push(i));
                assert forall|y: int| 0 <= y < i + 1 implies (slot@[#[trigger] roots[y]] as int)
                    < groups@.len() && groups@[slot@[roots[y]] as int]@.contains(y as usize) by {
                    if y == i {
                        assert(groups@[g as int]@[groups@[g as int]@.len() - 1] == i);
                    } else {
                        let gy = slot@[roots[y]] as int;
                        let k = choose|k: int| 0 <= k < old_groups[gy]@.len() && old_groups[gy]@[k] == y as usize;
                        assert(groups@[gy]@[k] == y as usize);
                    }
                }
            }
        }
        i = i + 1;
    }
    proof {
        let gs = views(groups@);
        assert forall|g: int| 0 <= g < gs.len() implies #[trigger] gs[g] == groups@[g]@ by {}
        assert forall|g: int, a: int| 0 <= g < gs.len() && 0 <= a < gs[g].len() implies #[trigger] gs[g][a]
            < p.size() by {
            assert(gs[g][a] == groups@[g]@[a]);
        }
        assert forall|i: int| 0 <= i < p.size() implies #[trigger] in_some_group(gs, i) by {
            let g = slot@[roots[i]] as int;
            assert(gs[g] == groups@[g]@);
            assert(gs[g].contains(i as usize));
        }
        // a member's root is its group's root
        assert forall|g: int, x: usize| 0 <= g < gs.len() && #[trigger] gs[g].contains(x) implies roots[x as int] == group_root[g] by {
            let k = choose|k: int| 0 <= k < gs[g].len() && gs[g][k] == x;
            assert(groups@[g]@[k] == x);
        }
        assert forall|g: int, a: int, b: int|
            0 <= g < gs.len() && 0 <= a < gs[g].len() && 0 <= b < gs[g].len() implies connected(
            *p,
            #[trigger] gs[g][a] as int,
            #[trigger] gs[g][b] as int,
        ) by {
            let x = gs[g][a] as int;
            let y = gs[g][b] as int;
            assert(gs[g].contains(x as usize));
            assert(gs[g].contains(y as usize));
            let r = group_root[g];
            assert(connected(*p, x, find_root(settled, rank, x)));
            assert(connected(*p, y, find_root(settled, rank, y)));
            lemma_connected_symm(*p, y, r);
            lemma_connected_trans(*p, x, r, y);
        }
        assert forall|g: int, h: int, x: usize|
            0 <= g < gs.len() && 0 <= h < gs.len() && #[trigger] gs[g].contains(x)
                && #[trigger] gs[h].contains(x) implies g == h by {
            assert(slot@[group_root[g]] as int == g);
            assert(slot@[group_root[h]] as int == h);
        }
        assert forall|g: int, h: int, x: int, y: int|
            #![trigger connected(*p, x, y), gs[g].contains(x as usize), gs[h].contains(y as usize)]
            0 <= g < gs.len() && 0 <= h < gs.len() && gs[g].contains(x as usize)
                && gs[h].contains(y as usize) && connected(*p, x, y) implies g == h by {
            let path = choose|path: Seq<int>| is_path(*p, path) && path[0] == x && path[path.len() - 1] == y;
            lemma_path_same_root(*p, roots, path, path.len() - 1);
            assert(roots[(x as usize) as int] == group_root[g]);
            assert(roots[(y as usize) as int] == group_root[h]);
            assert(slot@[group_root[g]] as int == g);
            assert(slot@[group_root[h]] as int == h);
        }
        assert(is_coincidence_grouping(*p, gs));
    }
    let note = if n >= 2 {
        p.method().limitation()
    } else {
        None
    };
    (groups, note)
}

/// Site `x` is the image of some site under `perm`.
pub open spec fn is_image(perm: Seq<int>, x: int) -> bool {
    exists|i: int| 0 <= i < perm.len() && #[trigger] perm[i] == x
}

/// `perm` is a permutation of the site indices `0..n`.
pub open spec fn is_permutation(perm: Seq<int>, n: int) -> bool {
    &&& perm.len() == n
    &&& forall|i: int| 0 <= i < n ==> 0 <= #[trigger] perm[i] < n
    &&& forall|i: int, j: int| 0 <= i < n && 0 <= j < n && i != j ==> #[trigger] perm[i] != #[trigger] perm[j]
    &&& forall|x: int| 0 <= x < n ==> #[trigger] is_image(perm, x)
}

/// `q` is `p` with its sites relabeled: new site `i` is old site `perm[i]`,
/// and two new sites coincide exactly when the old ones do.
pub open spec fn is_relabeling(p: Proximity, q: Proximity, perm: Seq<int>) -> bool {
    &&& p.size() == q.size()
    &&& is_permutation(perm, p.size() as int)
    &&& forall|i: int, j: int|
        0 <= i < q.size() && 0 <= j < q.size() ==> #[trigger] q.close(i, j) == p.close(perm[i], perm[j])
}

/// The new label of old site `x` under `perm`.
pub open spec fn preimage(perm: Seq<int>, x: int) -> int {
    choose|i: int| 0 <= i < perm.len() && perm[i] == x
}

proof fn lemma_preimage(perm: Seq<int>, n: int, x: int)
    requires
        is_permutation(perm, n),
        0 <= x < n,
    ensures
        0 <= preimage(perm, x) < n,
        perm[preimage(perm, x)] == x,
{
    assert(is_image(perm, x));
}

/// Relabeling preserves connectedness: new sites are connected exactly when
/// the old sites they stand for are.
pub proof fn lemma_relabeling_connected(p: Proximity, q: Proximity, perm: Seq<int>, a: int, b: int)
    requires
        is_relabeling(p, q, perm),
        0 <= a < q.size(),
        0 <= b < q.size(),
    ensures
        connected(q, a, b) == connected(p, perm[a], perm[b]),
{
    let n = q.size() as int;
    if connected(q, a, b) {
        let path = choose|path: Seq<int>| is_path(q, path) && path[0] == a && path[path.len() - 1] == b;
        let mapped = path.map_values(|v: int| perm[v]);
        assert forall|k: int| 0 <= k < mapped.len() implies 0 <= #[trigger] mapped[k] < p.size() by {
            assert(0 <= path[k] < n);
        }
        assert forall|k: int| 0 <= k < mapped.len() - 1 implies p.close(
            #[trigger] mapped[k],
            mapped[k + 1],
        ) by {
            assert(q.close(path[k], path[k + 1]));
            assert(0 <= path[k] < n && 0 <= path[k + 1] < n);
        }
        assert(is_path(p, mapped));
        assert(mapped[0] == perm[a]);
        assert(mapped[mapped.len() - 1] == perm[b]);
    }
    if connected(p, perm[a], perm[b]) {
        let path = choose|path: Seq<int>|
            is_path(p, path) && path[0] == perm[a] && path[path.len() - 1] == perm[b];
        let back = path.map_values(|v: int| preimage(perm, v));
        assert forall|k: int| 0 <= k < back.len() implies 0 <= #[trigger] back[k] < q.size() by {
            lemma_preimage(perm, n, path[k]);
        }
        assert forall|k: int| 0 <= k < back.len() - 1 implies q.close(
            #[trigger] back[k],
            back[k + 1],
        ) by {
            lemma_preimage(perm, n, path[k]);
            lemma_preimage(perm, n, path[k + 1]);
            assert(p.close(path[k], path[k + 1]));
        }
        assert(is_path(q, back));
        lemma_preimage(perm, n, perm[a]);
        lemma_preimage(perm, n, perm[b]);
        assert(back[0] == a);
        assert(back[back.len() - 1] == b);
    }
}

/// A relation is over at most `usize::MAX` sites.
pub proof fn lemma_size_fits(p: Proximity)
    ensures
        p.size() <= usize::MAX,
{
    assert(p.near.len() == p.near@.len());
}

/// The position of the group of `gs` that holds site `x`.
pub open spec fn group_of(gs: Seq<Seq<usize>>, x: int) -> int {
    choose|g: int| 0 <= g < gs.len() && gs[g].contains(x as usize)
}

/// Every site lies in the group [`group_of`] names for it.
pub proof fn lemma_group_of(p: Proximity, gs: Seq<Seq<usize>>, x: int)
    requires
        is_coincidence_grouping(p, gs),
        0 <= x < p.size(),
    ensures
        0 <= group_of(gs, x) < gs.len(),
        gs[group_of(gs, x)].contains(x as usize),
{
    assert(in_some_group(gs, x));
}

/// Two members of one group are connected.
pub proof fn lemma_members_connected(p: Proximity, gs: Seq<Seq<usize>>, g: int, x: int, y: int)
    requires
        is_coincidence_grouping(p, gs),
        0 <= g < gs.len(),
        gs[g].contains(x as usize),
        gs[g].contains(y as usize),
        0 <= x < p.size(),
        0 <= y < p.size(),
    ensures
        connected(p, x, y),
{
    lemma_size_fits(p);
    let a = choose|a: int| 0 <= a < gs[g].len() && gs[g][a] == x as usize;
    let b = choose|b: int| 0 <= b < gs[g].len() && gs[g][b] == y as usize;
    assert(connected(p, gs[g][a] as int, gs[g][b] as int));
}

/// Connected sites lie in the same group.
pub proof fn lemma_connected_same_group(p: Proximity, gs: Seq<Seq<usize>>, g: int, h: int, x: int, y: int)
    requires
        is_coincidence_grouping(p, gs),
        0 <= g < gs.len(),
        0 <= h < gs.len(),
        gs[g].contains(x as usize),
        gs[h].contains(y as usize),
        0 <= x,
        0 <= y,
        connected(p, x, y),
    ensures
        g == h,
{
}

proof fn lemma_sorted_same_members(s: Seq<usize>, t: Seq<usize>)
    requires
        forall|i: int, j: int| 0 <= i < j < s.len() ==> #[trigger] s[i] < #[trigger] s[j],
        forall|i: int, j: int| 0 <= i < j < t.len() ==> #[trigger] t[i] < #[trigger] t[j],
        forall|x: usize| s.contains(x) <==> t.contains(x),
    ensures
        s == t,
    decreases s.len(),
{
    if s.len() == 0 {
        if t.len() > 0 {
            assert(t.contains(t[0]));
        }
        assert(s =~= t);
    } else {
        assert(s.contains(s[0]));
        assert(t.len() > 0);
        assert(t.contains(t[0]));
        let ks = choose|k: int| 0 <= k < s.len() && s[k] == t[0];
        let kt = choose|k: int| 0 <= k < t.len() && t[k] == s[0];
        if ks > 0 {
            assert(s[0] < s[ks]);
        }
        if kt > 0 {
            assert(t[0] < t[kt]);
        }
        assert(s[0] == t[0]);
        let s1 = s.drop_first();
        let t1 = t.drop_first();
        assert forall|x: usize| s1.contains(x) <==> t1.contains(x) by {
            if s1.contains(x) {
                let k = choose|k: int| 0 <= k < s1.len() && s1[k] == x;
                assert(s[k + 1] == x);
                assert(s[0] < s[k + 1]);
                assert(s.contains(x));
                let m = choose|m: int| 0 <= m < t.len() && t[m] == x;
                assert(m != 0);
                assert(t1[m - 1] == x);
            }
            if t1.contains(x) {
                let k = choose|k: int| 0 <= k < t1.len() && t1[k] == x;
                assert(t[k + 1] == x);
                assert(t[0] < t[k + 1]);
                assert(t.contains(x));
                let m = choose|m: int| 0 <= m < s.len() && s[m] == x;
                assert(m != 0);
                assert(s1[m - 1] == x);
            }
        }
        lemma_sorted_same_members(s1, t1);
        assert(s =~= seq![s[0]] + s1);
        assert(t =~= seq![t[0]] + t1);
    }
}

/// A member `x` of a group is exactly a site connected to the group's first
/// member.
proof fn lemma_group_is_component(p: Proximity, gs: Seq<Seq<usize>>, g: int, x: int)
    requires
        is_coincidence_grouping(p, gs),
        0 <= g < gs.len(),
        0 <= x < p.size(),
    ensures
        gs[g].contains(x as usize) <==> connected(p, gs[g][0] as int, x),
{
    lemma_size_fits(p);
    let r = gs[g][0] as int;
    assert(gs[g].contains(r as usize));
    if gs[g].contains(x as usize) {
        lemma_members_connected(p, gs, g, r, x);
    }
    if connected(p, r, x) {
        lemma_group_of(p, gs, x);
        lemma_connected_same_group(p, gs, g, group_of(gs, x), r, x);
    }
}

/// Some `i` in `0..m` is sent to `h` by `f`.
spec fn hits(f: spec_fn(int) -> int, m: int, h: int) -> bool {
    exists|i: int| 0 <= i < m && #[trigger] f(i) == h
}

proof fn lemma_monotone_onto_is_identity(f: spec_fn(int) -> int, m: int, k: int, g: int)
    requires
        0 <= g < m,
        forall|i: int| 0 <= i < m ==> 0 <= #[trigger] f(i) < k,
        forall|i: int, j: int| 0 <= i < j < m ==> #[trigger] f(i) < #[trigger] f(j),
        forall|h: int| 0 <= h < k ==> #[trigger] hits(f, m, h),
    ensures
        forall|j: int| 0 <= j <= g ==> #[trigger] f(j) == j,
    decreases g,
{
    if g > 0 {
        lemma_monotone_onto_is_identity(f, m, k, g - 1);
        assert(f(g - 1) == g - 1);
        assert(f(g) > f(g - 1));
    }
    if f(g) != g {
        assert(f(g) > g) by {
            if g > 0 {
                assert(f(g) > f(g - 1));
            }
        }
        assert(hits(f, m, g));
        let i = choose|i: int| 0 <= i < m && #[trigger] f(i) == g;
        if i < g {
            assert(f(i) == i);
        } else {
            assert(f(i) >= f(g)) by {
                if i > g {
                    assert(f(g) < f(i));
                }
            }
        }
    }
}

/// The coincidence grouping of sites is determined by which pairs coincide:
/// any two groupings of the same relation are the same sequence of groups.
pub proof fn lemma_grouping_unique(p: Proximity, a: Seq<Seq<usize>>, b: Seq<Seq<usize>>)
    requires
        is_coincidence_grouping(p, a),
        is_coincidence_grouping(p, b),
    ensures
        a == b,
{
    lemma_size_fits(p);
    let f = |g: int| group_of(b, a[g][0] as int);
    // Group g of `a` is group f(g) of `b`.
    assert forall|g: int| 0 <= g < a.len() implies 0 <= #[trigger] f(g) < b.len() && a[g] == b[f(g)] by {
        let r = a[g][0] as int;
        assert(a[g].contains(r as usize));
        lemma_group_of(p, b, r);
        let h = f(g);
        let rb = b[h][0] as int;
        assert(b[h].contains(rb as usize));
        lemma_members_connected(p, b, h, rb, r);
        assert forall|x: usize| a[g].contains(x) <==> b[h].contains(x) by {
            if a[g].contains(x) {
                let k = choose|k: int| 0 <= k < a[g].len() && a[g][k] == x;
                assert(x < p.size());
                lemma_group_is_component(p, a, g, x as int);
                lemma_connected_trans(p, rb, r, x as int);
                lemma_group_is_component(p, b, h, x as int);
            }
            if b[h].contains(x) {
                let k = choose|k: int| 0 <= k < b[h].len() && b[h][k] == x;
                assert(x < p.size());
                lemma_group_is_component(p, b, h, x as int);
                lemma_connected_symm(p, rb, r);
                lemma_connected_trans(p, r, rb, x as int);
                lemma_group_is_component(p, a, g, x as int);
            }
        }
        lemma_sorted_same_members(a[g], b[h]);
    }
    // f is strictly increasing and onto the groups of `b`.
    assert forall|i: int, j: int| 0 <= i < j < a.len() implies #[trigger] f(i) < #[trigger] f(j) by {
        assert(a[i][0] < a[j][0]);
        if f(i) > f(j) {
            assert(b[f(j)][0] < b[f(i)][0]);
        }
    }
    assert forall|h: int| 0 <= h < b.len() implies #[trigger] hits(f, a.len() as int, h) by {
        let x = b[h][0] as int;
        assert(b[h].contains(x as usize));
        assert(in_some_group(a, x));
        let g = choose|g: int| 0 <= g < a.len() && #[trigger] a[g].contains(x as usize);
        assert(a[g] == b[f(g)]);
        assert(b[f(g)].contains(x as usize));
    }
    if a.len() > 0 {
        lemma_monotone_onto_is_identity(f, a.len() as int, b.len() as int, a.len() - 1);
        let last = a.len() - 1;
        assert(f(last) == last);
        assert(0 <= f(last) < b.len());
        if b.len() > a.len() {
            assert(hits(f, a.len() as int, b.len() - 1));
            let i = choose|i: int| 0 <= i < a.len() && #[trigger] f(i) == b.len() - 1;
            assert(f(i) == i);
        }
    } else if b.len() > 0 {
        assert(hits(f, a.len() as int, 0));
    }
    assert(a.len() == b.len());
    assert forall|g: int| 0 <= g < a.len() implies a[g] == b[g] by {
        assert(f(g) == g);
    }
    assert(a =~= b);
}

} // verus!
