//! Nearest-neighbour index over lattice positions, backed by an R*-tree.
//!
//! Positions are points of the integer lattice. Squared distances between
//! them are exact integers, so "ascending by distance" has one meaning on
//! every machine; only the order among equally distant positions is left to
//! the tree.

use rstar::primitives::PointWithData;
use rstar::RTree;
use vstd::prelude::*;
use vstd::set_lib::{lemma_int_range, lemma_len_subset, lemma_subset_equality, set_int_range};

verus! {

/// Squared Euclidean distance between the lattice points `(px, py)` and `(qx, qy)`.
pub open spec fn dist_sq(px: int, py: int, qx: int, qy: int) -> int {
    (px - qx) * (px - qx) + (py - qy) * (py - qy)
}

/// Squared distance from site number `i` to the query point.
pub open spec fn site_dist(sites: Seq<(usize, i32, i32)>, i: int, qx: i32, qy: i32) -> int {
    dist_sq(sites[i].1 as int, sites[i].2 as int, qx as int, qy as int)
}

/// `order` lists each of `0..n` exactly once.
pub open spec fn is_rearrangement(order: Seq<int>, n: nat) -> bool {
    &&& order.len() == n
    &&& forall|k: int| 0 <= k < n ==> 0 <= #[trigger] order[k] < n
    &&& forall|j: int, k: int| 0 <= j < k < n ==> #[trigger] order[j] != #[trigger] order[k]
}

/// Along `order`, the distance to the query point never decreases.
pub open spec fn is_ascending(sites: Seq<(usize, i32, i32)>, order: Seq<int>, qx: i32, qy: i32) -> bool {
    forall|j: int, k: int|
        0 <= j <= k < order.len() ==> site_dist(sites, #[trigger] order[j], qx, qy) <= site_dist(
            sites,
            #[trigger] order[k],
            qx,
            qy,
        )
}

/// The smaller of a limit and a length.
pub open spec fn capped(limit: usize, len: nat) -> nat {
    if limit <= len {
        limit as nat
    } else {
        len
    }
}

/// `order` lists every site once, nearest first, and `out` is the first
/// `limit` sites along it (all of them where there are fewer), each with its
/// tag and its squared distance to the query point.
pub open spec fn is_nearest_prefix(
    sites: Seq<(usize, i32, i32)>,
    order: Seq<int>,
    qx: i32,
    qy: i32,
    limit: usize,
    out: Seq<Neighbor>,
) -> bool {
    &&& is_rearrangement(order, sites.len())
    &&& is_ascending(sites, order, qx, qy)
    &&& out.len() == capped(limit, sites.len())
    &&& forall|k: int|
        0 <= k < out.len() ==> (#[trigger] out[k]).object == sites[order[k]].0 && out[k].dist_sq
            == site_dist(sites, order[k], qx, qy)
}

/// One step of a nearest-neighbour enumeration: an object and its squared
/// distance to the query point.
#[derive(Clone, Copy, Debug, PartialEq, Eq)]
pub struct Neighbor {
    pub object: usize,
    pub dist_sq: i128,
}

/// An R*-tree of tagged lattice points. The tree computes in `i128`, where
/// no distance between two points with `i32` coordinates overflows.
///
/// `rstar::RTree` is bounded by traits of its crate, which keeps its type
/// from being declared to the verifier; the tree is held here instead, and
/// the verifier sees of it what `indexed` says.
#[verifier::external_body]
pub struct SiteTree {
    tree: RTree<PointWithData<usize, [i128; 2]>>,
}

/// The tagged points a tree holds, in the order in which they were loaded.
pub uninterp spec fn indexed(tree: SiteTree) -> Seq<(usize, i32, i32)>;

/// The order in which the R*-tree loaded with `sites` hands them out when
/// asked for the neighbours of `(qx, qy)`, as positions in `sites`. The tree
/// is built and searched without chance, so the same sites and the same
/// query point give the same order.
pub uninterp spec fn visit_order(sites: Seq<(usize, i32, i32)>, qx: i32, qy: i32) -> Seq<int>;

/// `rstar::RTree::bulk_load` on `rstar::primitives::PointWithData` items: the
/// tree holds the given points, each with its tag as its data.
#[verifier::external_body]
fn load(sites: Vec<(usize, i32, i32)>) -> (tree: SiteTree)
    ensures
        indexed(tree) == sites@,
{
    let points = sites.into_iter().map(|s| PointWithData::new(s.0, [i128::from(s.1), i128::from(s.2)]));
    SiteTree { tree: RTree::bulk_load(points.collect()) }
}

/// `rstar::RTree::nearest_neighbor_iter_with_distance_2`, cut off after
/// `limit` items. The iterator hands out every point of the tree once, nearest
/// first, with its squared distance to the query point; which of two equally
/// distant points comes first is fixed by the tree and the query.
#[verifier::external_body]
fn nearest(tree: &SiteTree, qx: i32, qy: i32, limit: usize) -> (out: Vec<Neighbor>)
    ensures
        is_nearest_prefix(indexed(*tree), visit_order(indexed(*tree), qx, qy), qx, qy, limit, out@),
{
    let query = [i128::from(qx), i128::from(qy)];
    let found = tree.tree.nearest_neighbor_iter_with_distance_2(&query).take(limit);
    found.map(|(p, d)| Neighbor { object: p.data, dist_sq: d }).collect()
}

/// Squared distance from position number `i` to the query point.
pub open spec fn distance(positions: Seq<(i32, i32)>, i: int, qx: i32, qy: i32) -> int {
    dist_sq(positions[i].0 as int, positions[i].1 as int, qx as int, qy as int)
}

/// Along `order`, the distance from the positions to the query point never
/// decreases.
pub open spec fn nearest_first(positions: Seq<(i32, i32)>, order: Seq<int>, qx: i32, qy: i32) -> bool {
    forall|j: int, k: int|
        0 <= j <= k < order.len() ==> distance(positions, #[trigger] order[j], qx, qy) <= distance(
            positions,
            #[trigger] order[k],
            qx,
            qy,
        )
}

/// Each position with its number as its tag.
pub open spec fn tagged(positions: Seq<(i32, i32)>) -> Seq<(usize, i32, i32)> {
    Seq::new(positions.len(), |i: int| (i as usize, positions[i].0, positions[i].1))
}

/// The order in which an index over `positions` enumerates them for the
/// query point `(qx, qy)`: position numbers, nearest first.
pub open spec fn nearest_order(positions: Seq<(i32, i32)>, qx: i32, qy: i32) -> Seq<int> {
    visit_order(tagged(positions), qx, qy)
}

/// The full enumeration for a query point: every position once, along
/// `nearest_order`, with its squared distance.
pub open spec fn ranked(positions: Seq<(i32, i32)>, qx: i32, qy: i32) -> Seq<Neighbor> {
    Seq::new(
        positions.len(),
        |k: int|
            Neighbor {
                object: nearest_order(positions, qx, qy)[k] as usize,
                dist_sq: distance(positions, nearest_order(positions, qx, qy)[k], qx, qy) as i128,
            },
    )
}

/// A static index over the positions of a frame's objects. An object is known
/// by its number: its place in the list the index was built from.
pub struct SpatialIndex {
    tree: SiteTree,
}

impl SpatialIndex {
    #[verifier::type_invariant]
    spec fn tags_are_numbers(self) -> bool {
        &&& indexed(self.tree) == tagged(self.positions())
        &&& self.positions().len() <= usize::MAX
    }

    /// The positions the index was built from.
    pub closed spec fn positions(&self) -> Seq<(i32, i32)> {
        Seq::new(
            indexed(self.tree).len(),
            |i: int| (indexed(self.tree)[i].1, indexed(self.tree)[i].2),
        )
    }

    /// Builds the index over `positions`. An empty list gives an index whose
    /// enumerations are empty.
    pub fn build(positions: &Vec<(i32, i32)>) -> (index: SpatialIndex)
        ensures
            index.positions() == positions@,
    {
        let mut sites: Vec<(usize, i32, i32)> = Vec::with_capacity(positions.len());
        let mut i: usize = 0;
        while i < positions.len()
            invariant
                i <= positions.len(),
                sites@ == tagged(positions@.take(i as int)),
            decreases positions.len() - i,
        {
            let p = positions[i];
            sites.push((i, p.0, p.1));
            i += 1;
            assert(sites@ =~= tagged(positions@.take(i as int)));
        }
        assert(positions@.take(i as int) =~= positions@);
        let tree = load(sites);
        proof {
            let held = Seq::new(
                indexed(tree).len(),
                |i: int| (indexed(tree)[i].1, indexed(tree)[i].2),
            );
            assert(held =~= positions@);
            assert(indexed(tree) =~= tagged(held));
        }
        let index = SpatialIndex { tree };
        assert(index.positions() =~= positions@);
        index
    }

    /// The first `limit` objects nearest to `(qx, qy)`, nearest first, or all
    /// of them where the index holds fewer.
    pub fn nearest(&self, qx: i32, qy: i32, limit: usize) -> (out: Vec<Neighbor>)
        ensures
            self.positions().len() <= usize::MAX,
            out@ == ranked(self.positions(), qx, qy).take(capped(limit, self.positions().len()) as int),
            is_rearrangement(nearest_order(self.positions(), qx, qy), self.positions().len()),
            nearest_first(self.positions(), nearest_order(self.positions(), qx, qy), qx, qy),
    {
        proof {
            use_type_invariant(self);
        }
        let out = nearest(&self.tree, qx, qy, limit);
        proof {
            let positions = self.positions();
            let sites = indexed(self.tree);
            let order = nearest_order(positions, qx, qy);
            assert forall|j: int, k: int| 0 <= j <= k < order.len() implies distance(
                positions,
                #[trigger] order[j],
                qx,
                qy,
            ) <= distance(positions, #[trigger] order[k], qx, qy) by {
                assert(site_dist(sites, order[j], qx, qy) <= site_dist(sites, order[k], qx, qy));
            }
            let want = ranked(positions, qx, qy).take(capped(limit, positions.len()) as int);
            assert forall|k: int| 0 <= k < out@.len() implies out@[k] == want[k] by {
                assert(out@[k].object == sites[order[k]].0);
                lemma_distance_fits(positions, order[k], qx, qy);
            }
            assert(out@ =~= want);
        }
        out
    }
}

/// A rearrangement of `0..n` leaves none of them out.
pub proof fn lemma_rearrangement_covers(order: Seq<int>, n: nat, i: int)
    requires
        is_rearrangement(order, n),
        0 <= i < n,
    ensures
        exists|k: int| 0 <= k < n && order[k] == i,
{
    let listed = order.to_set();
    let all = set_int_range(0, n as int);
    assert(order.no_duplicates());
    order.unique_seq_to_set();
    lemma_int_range(0, n as int);
    assert forall|a: int| listed.contains(a) implies all.contains(a) by {
        let k = choose|k: int| 0 <= k < order.len() && order[k] == a;
        assert(0 <= order[k] < n);
    }
    lemma_len_subset(listed, all);
    lemma_subset_equality(listed, all);
    assert(all.contains(i));
    assert(order.contains(i));
}

/// A squared distance between lattice points is not negative and fits an
/// `i128`.
pub proof fn lemma_distance_fits(positions: Seq<(i32, i32)>, i: int, qx: i32, qy: i32)
    ensures
        0 <= distance(positions, i, qx, qy) <= i128::MAX,
{
    let dx = positions[i].0 as int - qx as int;
    let dy = positions[i].1 as int - qy as int;
    assert(0 <= dx * dx <= 0x1_0000_0000 * 0x1_0000_0000) by (nonlinear_arith)
        requires
            -0x1_0000_0000 < dx < 0x1_0000_0000,
    ;
    assert(0 <= dy * dy <= 0x1_0000_0000 * 0x1_0000_0000) by (nonlinear_arith)
        requires
            -0x1_0000_0000 < dy < 0x1_0000_0000,
    ;
}

} // verus!
