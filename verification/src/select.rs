//! The nearest-neighbour selector: which objects each tile refers to.
//!
//! A tile takes candidates in order of distance from its centre and stops at
//! the first one beyond the cutoff, or when it holds as many as a tile can.

use crate::grid::{TileView, MAX_FUNCTIONS, TILE_COUNT};
use crate::index::{
    capped, distance, is_rearrangement, lemma_distance_fits, lemma_rearrangement_covers,
    nearest_first, nearest_order, ranked, Neighbor, SpatialIndex,
};
use vstd::prelude::*;
use vstd::set_lib::{lemma_int_range, lemma_len_subset, set_int_range};

verus! {

/// The scan of the candidates `c` ends before candidate number `k`: there is
/// no such candidate, the tile is full, or the candidate lies beyond the
/// cutoff.
pub open spec fn stops_at(c: Seq<Neighbor>, cutoff: i128, k: int) -> bool {
    k >= c.len() || k >= MAX_FUNCTIONS || c[k].dist_sq > cutoff
}

/// Where a scan that has come as far as candidate number `k` ends.
pub open spec fn accept_from(c: Seq<Neighbor>, cutoff: i128, k: int) -> int
    decreases c.len() - k,
{
    if k < 0 || stops_at(c, cutoff, k) {
        k
    } else {
        accept_from(c, cutoff, k + 1)
    }
}

/// How many of the candidates a tile accepts.
pub open spec fn accept_len(c: Seq<Neighbor>, cutoff: i128) -> int {
    accept_from(c, cutoff, 0)
}

/// The objects a tile accepts from its candidates, in the candidates' order.
pub open spec fn accepted(c: Seq<Neighbor>, cutoff: i128) -> Seq<usize> {
    Seq::new(accept_len(c, cutoff) as nat, |k: int| c[k].object)
}

/// `out` is the longest run of leading candidates that lie within the cutoff
/// and fit the tile.
pub open spec fn is_accepted_prefix(c: Seq<Neighbor>, cutoff: i128, out: Seq<usize>) -> bool {
    &&& out.len() <= c.len()
    &&& out.len() <= MAX_FUNCTIONS
    &&& forall|k: int| 0 <= k < out.len() ==> out[k] == (#[trigger] c[k]).object && c[k].dist_sq <= cutoff
    &&& stops_at(c, cutoff, out.len() as int)
}

/// A scan ends within the candidates and the tile's capacity; it has accepted
/// only candidates within the cutoff, and it ends where it must.
pub proof fn lemma_accept_from(c: Seq<Neighbor>, cutoff: i128, k: int)
    requires
        0 <= k <= c.len(),
        k <= MAX_FUNCTIONS,
    ensures
        k <= accept_from(c, cutoff, k) <= c.len(),
        accept_from(c, cutoff, k) <= MAX_FUNCTIONS,
        forall|j: int| k <= j < accept_from(c, cutoff, k) ==> (#[trigger] c[j]).dist_sq <= cutoff,
        stops_at(c, cutoff, accept_from(c, cutoff, k)),
    decreases c.len() - k,
{
    if !stops_at(c, cutoff, k) {
        lemma_accept_from(c, cutoff, k + 1);
    }
}

/// A scan can end in one place only.
pub proof fn lemma_accept_unique(c: Seq<Neighbor>, cutoff: i128, k: int, end: int)
    requires
        0 <= k <= end,
        forall|j: int| k <= j < end ==> !stops_at(c, cutoff, j),
        stops_at(c, cutoff, end),
    ensures
        accept_from(c, cutoff, k) == end,
    decreases end - k,
{
    if k < end {
        lemma_accept_unique(c, cutoff, k + 1, end);
    }
}

/// What a tile accepts is the longest leading run within cutoff and capacity,
/// and nothing else is.
pub proof fn lemma_accepted_is_longest_run(c: Seq<Neighbor>, cutoff: i128, out: Seq<usize>)
    ensures
        is_accepted_prefix(c, cutoff, out) <==> out == accepted(c, cutoff),
{
    lemma_accept_from(c, cutoff, 0);
    if is_accepted_prefix(c, cutoff, out) {
        assert forall|j: int| 0 <= j < out.len() implies !stops_at(c, cutoff, j) by {
            assert(c[j].dist_sq <= cutoff);
        }
        lemma_accept_unique(c, cutoff, 0, out.len() as int);
        assert(out =~= accepted(c, cutoff));
    }
    if out == accepted(c, cutoff) {
        assert(is_accepted_prefix(c, cutoff, out));
    }
}

/// Candidates that a tile cannot reach do not change what it accepts.
pub proof fn lemma_accepted_of_prefix(c: Seq<Neighbor>, cutoff: i128, m: int)
    requires
        m == c.len() || MAX_FUNCTIONS <= m <= c.len(),
    ensures
        accepted(c.take(m), cutoff) == accepted(c, cutoff),
{
    let head = c.take(m);
    lemma_accept_from(head, cutoff, 0);
    let end = accept_len(head, cutoff);
    assert forall|j: int| 0 <= j < end implies !stops_at(c, cutoff, j) by {
        assert(head[j].dist_sq <= cutoff);
    }
    lemma_accept_unique(c, cutoff, 0, end);
    assert(accepted(head, cutoff) =~= accepted(c, cutoff));
}

/// Scans a tile's candidates, given nearest first: the tile accepts them in
/// turn until one lies beyond `max_dist_sq` or the tile is full.
pub fn select_tile(candidates: &Vec<Neighbor>, max_dist_sq: i128) -> (out: Vec<usize>)
    ensures
        out@ == accepted(candidates@, max_dist_sq),
        is_accepted_prefix(candidates@, max_dist_sq, out@),
{
    let mut out: Vec<usize> = Vec::new();
    let mut k: usize = 0;
    let mut open = true;
    while open && k < candidates.len() && k < MAX_FUNCTIONS
        invariant
            k <= candidates.len(),
            k <= MAX_FUNCTIONS,
            out@.len() == k,
            forall|j: int|
                0 <= j < k ==> out@[j] == (#[trigger] candidates@[j]).object && candidates@[j].dist_sq
                    <= max_dist_sq,
            !open ==> stops_at(candidates@, max_dist_sq, k as int),
        decreases (if open { 1int } else { 0int }) + candidates.len() - k,
    {
        let c = candidates[k];
        if c.dist_sq > max_dist_sq {
            open = false;
        } else {
            out.push(c.object);
            k += 1;
        }
    }
    proof {
        lemma_accepted_is_longest_run(candidates@, max_dist_sq, out@);
    }
    out
}

/// What the tile centred at `(qx, qy)` refers to, given the positions of the
/// frame's objects: object numbers, nearest first.
pub open spec fn tile_choice(positions: Seq<(i32, i32)>, qx: i32, qy: i32, cutoff: i128) -> Seq<usize> {
    accepted(ranked(positions, qx, qy), cutoff)
}

/// `out` names objects of the frame, none twice, nearest first and all within
/// the cutoff.
pub open spec fn is_sound_choice(
    positions: Seq<(i32, i32)>,
    qx: i32,
    qy: i32,
    cutoff: i128,
    out: Seq<usize>,
) -> bool {
    &&& out.len() <= MAX_FUNCTIONS
    &&& forall|k: int| 0 <= k < out.len() ==> #[trigger] out[k] < positions.len()
    &&& forall|j: int, k: int| 0 <= j < k < out.len() ==> #[trigger] out[j] != #[trigger] out[k]
    &&& forall|k: int|
        0 <= k < out.len() ==> distance(positions, #[trigger] out[k] as int, qx, qy) <= cutoff
    &&& forall|j: int, k: int|
        0 <= j <= k < out.len() ==> distance(positions, #[trigger] out[j] as int, qx, qy) <= distance(
            positions,
            #[trigger] out[k] as int,
            qx,
            qy,
        )
}

/// Object number `i` has no claim to a place in `out`: it lies beyond the
/// cutoff, or the tile is full of objects that are no farther away.
pub open spec fn is_rightly_left_out(
    positions: Seq<(i32, i32)>,
    qx: i32,
    qy: i32,
    cutoff: i128,
    out: Seq<usize>,
    i: int,
) -> bool {
    ||| distance(positions, i, qx, qy) > cutoff
    ||| out.len() == MAX_FUNCTIONS && forall|k: int|
        0 <= k < out.len() ==> distance(positions, #[trigger] out[k] as int, qx, qy) <= distance(
            positions,
            i,
            qx,
            qy,
        )
}

/// `out` leaves out no object that has a claim to a place in it.
pub open spec fn is_complete_choice(
    positions: Seq<(i32, i32)>,
    qx: i32,
    qy: i32,
    cutoff: i128,
    out: Seq<usize>,
) -> bool {
    forall|i: int|
        0 <= i < positions.len() && !out.contains(i as usize) ==> #[trigger] is_rightly_left_out(
            positions,
            qx,
            qy,
            cutoff,
            out,
            i,
        )
}

/// Where the enumeration of an index is a rearrangement of the objects,
/// nearest first, what a tile takes from it is sound and complete.
pub proof fn lemma_tile_choice(positions: Seq<(i32, i32)>, qx: i32, qy: i32, cutoff: i128)
    requires
        positions.len() <= usize::MAX,
        is_rearrangement(nearest_order(positions, qx, qy), positions.len()),
        nearest_first(positions, nearest_order(positions, qx, qy), qx, qy),
    ensures
        is_sound_choice(positions, qx, qy, cutoff, tile_choice(positions, qx, qy, cutoff)),
        is_complete_choice(positions, qx, qy, cutoff, tile_choice(positions, qx, qy, cutoff)),
{
    let order = nearest_order(positions, qx, qy);
    let c = ranked(positions, qx, qy);
    let out = tile_choice(positions, qx, qy, cutoff);
    let n = positions.len();
    lemma_accept_from(c, cutoff, 0);
    assert forall|k: int| 0 <= k < out.len() implies out[k] == order[k] && c[k].dist_sq == distance(
        positions,
        order[k],
        qx,
        qy,
    ) by {
        assert(0 <= order[k] < n);
        lemma_distance_fits(positions, order[k], qx, qy);
    }
    assert forall|k: int| 0 <= k < out.len() implies distance(
        positions,
        #[trigger] out[k] as int,
        qx,
        qy,
    ) <= cutoff by {
        assert(c[k].dist_sq <= cutoff);
    }
    assert forall|j: int, k: int| 0 <= j <= k < out.len() implies distance(
        positions,
        #[trigger] out[j] as int,
        qx,
        qy,
    ) <= distance(positions, #[trigger] out[k] as int, qx, qy) by {
        assert(out[j] == order[j] && out[k] == order[k]);
    }
    assert forall|j: int, k: int| 0 <= j < k < out.len() implies #[trigger] out[j] != #[trigger] out[k] by {
        assert(out[j] == order[j] && out[k] == order[k]);
    }
    assert forall|i: int| 0 <= i < n && !out.contains(i as usize) implies #[trigger] is_rightly_left_out(
        positions,
        qx,
        qy,
        cutoff,
        out,
        i,
    ) by {
        lemma_rearrangement_covers(order, n, i);
        let at = choose|k: int| 0 <= k < n && order[k] == i;
        if at < out.len() {
            assert(out[at] == i as usize);
            assert(out.contains(i as usize));
        }
        let end = out.len() as int;
        if end < MAX_FUNCTIONS {
            lemma_distance_fits(positions, order[end], qx, qy);
            assert(c[end].dist_sq > cutoff);
            assert(distance(positions, order[end], qx, qy) <= distance(positions, order[at], qx, qy));
        } else {
            assert forall|k: int| 0 <= k < out.len() implies distance(
                positions,
                #[trigger] out[k] as int,
                qx,
                qy,
            ) <= distance(positions, i, qx, qy) by {
                assert(out[k] == order[k]);
                assert(distance(positions, order[k], qx, qy) <= distance(positions, order[at], qx, qy));
            }
        }
    }
}

/// The objects within the cutoff of the point `(qx, qy)`, by number.
pub open spec fn within(positions: Seq<(i32, i32)>, qx: i32, qy: i32, cutoff: i128) -> Set<int> {
    Set::new(|i: int| 0 <= i < positions.len() && distance(positions, i, qx, qy) <= cutoff)
}

/// A sound and complete choice names as many objects as lie within the
/// cutoff, or as many as a tile can hold where more do. Which objects lie at
/// one distance, and in what order an index hands them out, makes no
/// difference to that.
pub proof fn lemma_choice_len(positions: Seq<(i32, i32)>, qx: i32, qy: i32, cutoff: i128, out: Seq<usize>)
    requires
        positions.len() <= usize::MAX,
        is_sound_choice(positions, qx, qy, cutoff, out),
        is_complete_choice(positions, qx, qy, cutoff, out),
    ensures
        within(positions, qx, qy, cutoff).finite(),
        out.len() == if within(positions, qx, qy, cutoff).len() <= MAX_FUNCTIONS {
            within(positions, qx, qy, cutoff).len()
        } else {
            MAX_FUNCTIONS as nat
        },
{
    let all = set_int_range(0, positions.len() as int);
    let near = within(positions, qx, qy, cutoff);
    let named = out.map_values(|o: usize| o as int);
    let chosen = named.to_set();
    lemma_int_range(0, positions.len() as int);
    assert(near.subset_of(all));
    lemma_len_subset(near, all);
    assert(named.no_duplicates()) by {
        assert forall|j: int, k: int|
            0 <= j < named.len() && 0 <= k < named.len() && j != k implies named[j] != named[k] by {
            if j < k {
                assert(out[j] != out[k]);
            } else {
                assert(out[k] != out[j]);
            }
        }
    }
    named.unique_seq_to_set();
    assert forall|i: int| chosen.contains(i) implies near.contains(i) by {
        let k = choose|k: int| 0 <= k < named.len() && named[k] == i;
        assert(out[k] < positions.len());
        assert(distance(positions, out[k] as int, qx, qy) <= cutoff);
    }
    lemma_len_subset(chosen, near);
    if out.len() < MAX_FUNCTIONS {
        assert forall|i: int| near.contains(i) implies chosen.contains(i) by {
            if !out.contains(i as usize) {
                assert(is_rightly_left_out(positions, qx, qy, cutoff, out, i));
            } else {
                let k = choose|k: int| 0 <= k < out.len() && out[k] == i as usize;
                assert(named[k] == i);
            }
        }
        assert(chosen =~= near);
    }
}

/// Chooses the objects for the tile centred at `(qx, qy)`: the nearest ones
/// within `max_dist_sq`, at most as many as a tile can hold, nearest first.
/// Among objects at one distance the index decides.
pub fn choose_for_tile(index: &SpatialIndex, qx: i32, qy: i32, max_dist_sq: i128) -> (out: Vec<usize>)
    ensures
        out@ == tile_choice(index.positions(), qx, qy, max_dist_sq),
        is_sound_choice(index.positions(), qx, qy, max_dist_sq, out@),
        is_complete_choice(index.positions(), qx, qy, max_dist_sq, out@),
{
    let candidates = index.nearest(qx, qy, MAX_FUNCTIONS);
    let out = select_tile(&candidates, max_dist_sq);
    proof {
        let all = ranked(index.positions(), qx, qy);
        lemma_accepted_of_prefix(all, max_dist_sq, capped(MAX_FUNCTIONS, index.positions().len()) as int);
        lemma_tile_choice(index.positions(), qx, qy, max_dist_sq);
    }
    out
}

/// There is one list for each tile of the grid, and none is longer than a
/// tile can hold.
pub open spec fn is_assignment(lists: Seq<Seq<usize>>) -> bool {
    &&& lists.len() == TILE_COUNT
    &&& forall|t: int| 0 <= t < lists.len() ==> (#[trigger] lists[t]).len() <= MAX_FUNCTIONS
}

/// Every object that the lists name is one of the first `n`.
pub open spec fn names_below(lists: Seq<Seq<usize>>, n: nat) -> bool {
    forall|t: int, k: int| 0 <= t < lists.len() && 0 <= k < lists[t].len() ==> #[trigger] lists[t][k] < n
}

/// The lists that the vectors hold.
pub open spec fn lists_of(tiles: Seq<Vec<usize>>) -> Seq<Seq<usize>> {
    Seq::new(tiles.len(), |t: int| tiles[t]@)
}

/// A frame's assignment: for every tile, by tile number, the objects it
/// refers to, in the order in which it chose them.
pub struct Assignment {
    tiles: Vec<Vec<usize>>,
}

impl View for Assignment {
    type V = Seq<Seq<usize>>;

    closed spec fn view(&self) -> Seq<Seq<usize>> {
        lists_of(self.tiles@)
    }
}

impl Assignment {
    #[verifier::type_invariant]
    spec fn well_formed(self) -> bool {
        is_assignment(self@)
    }

    /// The assignment that holds the given lists, where they are one for
    /// each tile and none is longer than a tile can hold.
    pub fn new(tiles: Vec<Vec<usize>>) -> (r: Option<Assignment>)
        ensures
            r.is_some() <==> is_assignment(lists_of(tiles@)),
            r matches Some(a) ==> a@ == lists_of(tiles@),
    {
        if tiles.len() != TILE_COUNT {
            return None;
        }
        let mut t: usize = 0;
        while t < tiles.len()
            invariant
                t <= tiles.len(),
                tiles.len() == TILE_COUNT,
                forall|u: int| 0 <= u < t ==> (#[trigger] lists_of(tiles@)[u]).len() <= MAX_FUNCTIONS,
            decreases tiles.len() - t,
        {
            if tiles[t].len() > MAX_FUNCTIONS {
                assert(lists_of(tiles@)[t as int].len() > MAX_FUNCTIONS);
                return None;
            }
            t += 1;
        }
        Some(Assignment { tiles })
    }

    /// Whether every object that the assignment names is one of the first
    /// `n`, as packing a scene of `n` objects asks.
    pub fn fits(&self, n: usize) -> (ok: bool)
        ensures
            ok == names_below(self@, n as nat),
    {
        let ghost lists = self@;
        let mut t: usize = 0;
        while t < self.tiles.len()
            invariant
                t <= self.tiles.len(),
                lists == lists_of(self.tiles@),
                forall|u: int, k: int|
                    0 <= u < t && 0 <= k < lists[u].len() ==> #[trigger] lists[u][k] < n,
            decreases self.tiles.len() - t,
        {
            let list = &self.tiles[t];
            let mut k: usize = 0;
            while k < list.len()
                invariant
                    t < self.tiles.len(),
                    lists == lists_of(self.tiles@),
                    list@ == lists[t as int],
                    k <= list.len(),
                    forall|j: int| 0 <= j < k ==> #[trigger] lists[t as int][j] < n,
                decreases list.len() - k,
            {
                if list[k] >= n {
                    assert(!(lists[t as int][k as int] < n));
                    return false;
                }
                k += 1;
            }
            t += 1;
        }
        true
    }

    /// The lists of all tiles, by tile number.
    pub fn tiles(&self) -> (tiles: &Vec<Vec<usize>>)
        ensures
            lists_of(tiles@) == self@,
            is_assignment(self@),
    {
        proof {
            use_type_invariant(self);
        }
        &self.tiles
    }
}

/// What every tile of a frame refers to: for tile number `t`, its choice
/// from around its centre.
pub open spec fn frame_choice(positions: Seq<(i32, i32)>, centers: Seq<(i32, i32)>, cutoff: i128) -> Seq<
    Seq<usize>,
> {
    Seq::new(centers.len(), |t: int| tile_choice(positions, centers[t].0, centers[t].1, cutoff))
}

/// Every tile's list is sound and complete for its centre.
pub open spec fn is_frame_choice(
    positions: Seq<(i32, i32)>,
    centers: Seq<(i32, i32)>,
    cutoff: i128,
    lists: Seq<Seq<usize>>,
) -> bool {
    &&& lists.len() == centers.len()
    &&& forall|t: int|
        0 <= t < lists.len() ==> is_sound_choice(
            positions,
            centers[t].0,
            centers[t].1,
            cutoff,
            #[trigger] lists[t],
        ) && is_complete_choice(positions, centers[t].0, centers[t].1, cutoff, lists[t])
}

/// Chooses the objects of every tile of the grid.
pub fn select(index: &SpatialIndex, view: &TileView) -> (a: Assignment)
    ensures
        a@ == frame_choice(index.positions(), view.centers(), view.cutoff()),
        is_frame_choice(index.positions(), view.centers(), view.cutoff(), a@),
        names_below(a@, index.positions().len()),
{
    let max_dist_sq = view.max_dist_sq();
    let mut tiles: Vec<Vec<usize>> = Vec::with_capacity(TILE_COUNT);
    let mut t: usize = 0;
    while t < TILE_COUNT
        invariant
            t <= TILE_COUNT,
            max_dist_sq == view.cutoff(),
            view.centers().len() == TILE_COUNT,
            tiles@.len() == t,
            forall|u: int|
                0 <= u < t ==> (#[trigger] tiles@[u])@ == tile_choice(
                    index.positions(),
                    view.centers()[u].0,
                    view.centers()[u].1,
                    max_dist_sq,
                ),
            forall|u: int|
                0 <= u < t ==> is_sound_choice(
                    index.positions(),
                    view.centers()[u].0,
                    view.centers()[u].1,
                    max_dist_sq,
                    (#[trigger] tiles@[u])@,
                ) && is_complete_choice(
                    index.positions(),
                    view.centers()[u].0,
                    view.centers()[u].1,
                    max_dist_sq,
                    tiles@[u]@,
                ),
        decreases TILE_COUNT - t,
    {
        let c = view.center(t);
        let list = choose_for_tile(index, c.0, c.1, max_dist_sq);
        tiles.push(list);
        t += 1;
    }
    proof {
        let lists = lists_of(tiles@);
        assert(lists =~= frame_choice(index.positions(), view.centers(), view.cutoff()));
        assert forall|u: int| 0 <= u < lists.len() implies (#[trigger] lists[u]).len() <= MAX_FUNCTIONS by {
            assert(tiles@[u]@ == lists[u]);
        }
        assert forall|u: int, k: int| 0 <= u < lists.len() && 0 <= k < lists[u].len() implies #[trigger] lists[u][k]
            < index.positions().len() by {
            assert(tiles@[u]@ == lists[u]);
        }
        assert forall|u: int| 0 <= u < lists.len() implies is_sound_choice(
            index.positions(),
            view.centers()[u].0,
            view.centers()[u].1,
            view.cutoff(),
            #[trigger] lists[u],
        ) && is_complete_choice(
            index.positions(),
            view.centers()[u].0,
            view.centers()[u].1,
            view.cutoff(),
            lists[u],
        ) by {
            assert(tiles@[u]@ == lists[u]);
        }
    }
    Assignment { tiles }
}

} // verus!
