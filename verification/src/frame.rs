//! One frame: from the placed objects and the camera's tiles to the buffers.
//!
//! The buffers of the frame before are the only state. A frame replaces them
//! as a whole or leaves them as they are.

use crate::buffers::{SDFFunctions, FUNCTIONS_LIMIT};
use crate::grid::{TileView, MAX_FUNCTIONS, TILE_COUNT};
use crate::index::SpatialIndex;
use crate::pack::{
    distinct_count, encode, functions_len, is_packing, lemma_packing_is_packed, positions_of,
    PackError, PlacedObject,
};
use crate::select::{
    frame_choice, is_frame_choice, is_sound_choice, lemma_choice_len, select, within,
};
use vstd::prelude::*;

verus! {

/// What a frame did to the buffers.
#[derive(Clone, Copy, Debug, PartialEq, Eq)]
pub enum FrameOutcome {
    /// The buffers now hold this frame.
    Replaced,
    /// The buffers are as they were: there was no camera, or no tile
    /// referred to any object.
    Retained,
}

/// What the tiles of a frame refer to, given its objects and its view.
pub open spec fn frame_lists(objects: Seq<PlacedObject>, view: &TileView) -> Seq<Seq<usize>> {
    frame_choice(positions_of(objects), view.centers(), view.cutoff())
}

/// `after` and `r` are what a frame makes of the buffers `before`.
///
/// Without a view, and where no tile refers to any object, the buffers stay
/// and the frame is `Retained`. Where the object buffer would not fit, the
/// buffers stay and the frame fails. Otherwise the buffers hold the frame.
pub open spec fn is_update(
    before: SDFFunctions,
    view: Option<&TileView>,
    objects: Seq<PlacedObject>,
    after: SDFFunctions,
    r: Result<FrameOutcome, PackError>,
) -> bool {
    match view {
        None => after == before && r == Ok::<FrameOutcome, PackError>(FrameOutcome::Retained),
        Some(v) => {
            let lists = frame_lists(objects, v);
            let count = distinct_count(lists, objects.len() as int);
            let words = functions_len(lists, objects.len() as int);
            if count == 0 {
                after == before && r == Ok::<FrameOutcome, PackError>(FrameOutcome::Retained)
            } else if words >= FUNCTIONS_LIMIT {
                after == before && r == Err::<FrameOutcome, PackError>(
                    PackError::CapacityExceeded { words: words as usize },
                )
            } else {
                is_packing(objects, lists, after) && r == Ok::<FrameOutcome, PackError>(
                    FrameOutcome::Replaced,
                )
            }
        },
    }
}

/// Collects the lattice positions of the objects.
pub fn sites(objects: &Vec<PlacedObject>) -> (positions: Vec<(i32, i32)>)
    ensures
        positions@ == positions_of(objects@),
{
    let mut positions: Vec<(i32, i32)> = Vec::with_capacity(objects.len());
    let mut i: usize = 0;
    while i < objects.len()
        invariant
            i <= objects.len(),
            positions@ == positions_of(objects@).take(i as int),
        decreases objects.len() - i,
    {
        positions.push(objects[i].site);
        i += 1;
        assert(positions@ =~= positions_of(objects@).take(i as int));
    }
    assert(positions_of(objects@).take(i as int) =~= positions_of(objects@));
    positions
}

/// Runs one frame: indexes the objects, lets every tile choose the nearest
/// ones within the view's cutoff, and packs the result into `functions`.
pub fn update_tiles(
    functions: &mut SDFFunctions,
    view: Option<&TileView>,
    objects: &Vec<PlacedObject>,
) -> (r: Result<FrameOutcome, PackError>)
    ensures
        is_update(*old(functions), view, objects@, *final(functions), r),
        old(functions).well_formed() ==> final(functions).well_formed(),
        r == Ok::<FrameOutcome, PackError>(FrameOutcome::Replaced) ==> final(functions).is_packed(),
        view matches Some(v) ==> is_frame_choice(
            positions_of(objects@),
            v.centers(),
            v.cutoff(),
            frame_lists(objects@, v),
        ),
{
    let v = match view {
        None => {
            return Ok(FrameOutcome::Retained);
        },
        Some(v) => v,
    };
    let positions = sites(objects);
    let index = SpatialIndex::build(&positions);
    let assignment = select(&index, v);
    match encode(objects, &assignment) {
        Ok(None) => Ok(FrameOutcome::Retained),
        Ok(Some(packed)) => {
            *functions = packed;
            Ok(FrameOutcome::Replaced)
        },
        Err(e) => Err(e),
    }
}

/// Two states of the buffers hold the same words for the same grid.
pub open spec fn same_buffers(a: SDFFunctions, b: SDFFunctions) -> bool {
    &&& a.panel_width == b.panel_width
    &&& a.panel_height == b.panel_height
    &&& a.functions@ == b.functions@
    &&& a.tile_function_count@ == b.tile_function_count@
    &&& a.function_indices@ == b.function_indices@
}

/// What a frame makes of the buffers is settled by the buffers before it,
/// the view and the objects: two runs from the same state end alike.
pub proof fn lemma_update_is_determined(
    before: SDFFunctions,
    view: Option<&TileView>,
    objects: Seq<PlacedObject>,
    one: SDFFunctions,
    r_one: Result<FrameOutcome, PackError>,
    other: SDFFunctions,
    r_other: Result<FrameOutcome, PackError>,
)
    requires
        is_update(before, view, objects, one, r_one),
        is_update(before, view, objects, other, r_other),
    ensures
        r_one == r_other,
        same_buffers(one, other),
{
}

/// Running a frame again on an unchanged view and unchanged objects leaves
/// the buffers as the first run left them, and ends as the first run did.
pub proof fn lemma_update_is_idempotent(
    before: SDFFunctions,
    view: Option<&TileView>,
    objects: Seq<PlacedObject>,
    once: SDFFunctions,
    r_once: Result<FrameOutcome, PackError>,
    twice: SDFFunctions,
    r_twice: Result<FrameOutcome, PackError>,
)
    requires
        is_update(before, view, objects, once, r_once),
        is_update(once, view, objects, twice, r_twice),
    ensures
        r_twice == r_once,
        same_buffers(twice, once),
{
}

/// In the buffers of a frame, a tile counts the objects within the cutoff of
/// its centre, up to `MAX_FUNCTIONS`. The order in which an index hands out
/// objects at one distance has no part in that.
pub proof fn lemma_frame_counts(objects: Seq<PlacedObject>, view: &TileView, packed: SDFFunctions, t: int)
    requires
        objects.len() <= usize::MAX,
        view.centers().len() == TILE_COUNT,
        is_frame_choice(
            positions_of(objects),
            view.centers(),
            view.cutoff(),
            frame_lists(objects, view),
        ),
        is_packing(objects, frame_lists(objects, view), packed),
        distinct_count(frame_lists(objects, view), objects.len() as int) >= 1,
        functions_len(frame_lists(objects, view), objects.len() as int) < FUNCTIONS_LIMIT,
        0 <= t < TILE_COUNT,
    ensures
        within(positions_of(objects), view.centers()[t].0, view.centers()[t].1, view.cutoff()).finite(),
        packed.count_at(t) == if within(
            positions_of(objects),
            view.centers()[t].0,
            view.centers()[t].1,
            view.cutoff(),
        ).len() <= MAX_FUNCTIONS {
            within(positions_of(objects), view.centers()[t].0, view.centers()[t].1, view.cutoff()).len()
        } else {
            MAX_FUNCTIONS as nat
        },
{
    let positions = positions_of(objects);
    let lists = frame_lists(objects, view);
    let (qx, qy) = view.centers()[t];
    assert forall|u: int, k: int| 0 <= u < lists.len() && 0 <= k < lists[u].len() implies #[trigger] lists[u][k]
        < objects.len() by {
        assert(is_sound_choice(positions, view.centers()[u].0, view.centers()[u].1, view.cutoff(), lists[u]));
    }
    assert forall|u: int| 0 <= u < lists.len() implies (#[trigger] lists[u]).len() <= MAX_FUNCTIONS by {
        assert(is_sound_choice(positions, view.centers()[u].0, view.centers()[u].1, view.cutoff(), lists[u]));
    }
    lemma_packing_is_packed(objects, lists, packed);
    assert(packed.count_at(t) == lists[t].len());
    lemma_choice_len(positions, qx, qy, view.cutoff(), lists[t]);
}

} // verus!
