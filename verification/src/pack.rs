//! The packing encoder: from a frame's assignment to the three flat buffers
//! that the renderer reads.
//!
//! Objects that no tile refers to are left out. The others are numbered
//! `0..N` in the order of the scene, and a tile names an object by that
//! number, its compact id.

use crate::buffers::{counts_before, SDFFunctions, FUNCTIONS_LIMIT, RECORD_WORDS};
use crate::grid::{MAX_FUNCTIONS, PANEL_HEIGHT, PANEL_WIDTH, TILE_COUNT};
use crate::select::{is_assignment, lists_of, names_below, Assignment};
use crate::shape::{SDFObject, OBJECT_WORDS};
use vstd::prelude::*;

verus! {

/// An object of the scene, placed for one frame.
#[derive(Clone, Copy, Debug, PartialEq, Eq)]
pub struct PlacedObject {
    /// The lattice point from which tiles measure their distance to the
    /// object.
    pub site: (i32, i32),
    /// World x, y and z, and the angle of rotation about the view axis, as
    /// words.
    pub pose: [u32; 4],
    /// What stands there.
    pub object: SDFObject,
}

impl PlacedObject {
    /// The object's record in the object buffer: the pose, then the shape's
    /// kind code and parameters, the noise weight and the colour.
    pub open spec fn record(self) -> Seq<u32> {
        self.pose@ + self.object.words()
    }

    /// Appends the object's record to `out`.
    pub fn write_record(&self, out: &mut Vec<u32>)
        ensures
            final(out)@ == old(out)@ + self.record(),
            self.record().len() == RECORD_WORDS,
    {
        let w = self.object.as_words();
        out.push(self.pose[0]);
        out.push(self.pose[1]);
        out.push(self.pose[2]);
        out.push(self.pose[3]);
        out.push(w[0]);
        out.push(w[1]);
        out.push(w[2]);
        out.push(w[3]);
        out.push(w[4]);
        out.push(w[5]);
        out.push(w[6]);
        out.push(w[7]);
        assert(out@ =~= old(out)@ + self.record());
    }
}

/// The lattice positions of the objects, by object number.
pub open spec fn positions_of(objects: Seq<PlacedObject>) -> Seq<(i32, i32)> {
    Seq::new(objects.len(), |i: int| objects[i].site)
}

/// Why a frame could not be packed.
#[derive(Clone, Copy, Debug, PartialEq, Eq)]
pub enum PackError {
    /// The object buffer would hold `words` words, which is not fewer than
    /// `FUNCTIONS_LIMIT`.
    CapacityExceeded { words: usize },
}

/// Some tile refers to object number `o`.
pub open spec fn referenced(lists: Seq<Seq<usize>>, o: int) -> bool {
    exists|t: int, k: int|
        #![trigger lists[t][k]]
        0 <= t < lists.len() && 0 <= k < lists[t].len() && lists[t][k] == o
}

/// The compact id of object number `o`: how many objects before it some
/// tile refers to.
pub open spec fn compact_id(lists: Seq<Seq<usize>>, o: int) -> int
    decreases o,
{
    if o <= 0 {
        0
    } else {
        compact_id(lists, o - 1) + if referenced(lists, o - 1) {
            1int
        } else {
            0int
        }
    }
}

/// How many of the first `n` objects some tile refers to.
pub open spec fn distinct_count(lists: Seq<Seq<usize>>, n: int) -> int {
    compact_id(lists, n)
}

/// The records of those of the first `n` objects that some tile refers to,
/// in the order of the scene.
pub open spec fn records(objects: Seq<PlacedObject>, lists: Seq<Seq<usize>>, n: int) -> Seq<u32>
    decreases n,
{
    if n <= 0 {
        Seq::empty()
    } else {
        records(objects, lists, n - 1) + if referenced(lists, n - 1) {
            objects[n - 1].record()
        } else {
            Seq::empty()
        }
    }
}

/// The object buffer of a frame: the records, then the terminating record,
/// which has no pose.
pub open spec fn packed_functions(objects: Seq<PlacedObject>, lists: Seq<Seq<usize>>) -> Seq<u32> {
    records(objects, lists, objects.len() as int) + SDFObject::spec_sentinel().words()
}

/// How many words the object buffer of a frame holds.
pub open spec fn functions_len(lists: Seq<Seq<usize>>, n: int) -> int {
    RECORD_WORDS * distinct_count(lists, n) + OBJECT_WORDS
}

/// How many objects the tiles before tile number `t` refer to, counting an
/// object once for every tile that refers to it.
pub open spec fn offset(lists: Seq<Seq<usize>>, t: int) -> int
    decreases t,
{
    if t <= 0 {
        0
    } else {
        offset(lists, t - 1) + lists[t - 1].len()
    }
}

/// The tile buffer of a frame: for each tile its count, then its offset.
pub open spec fn packed_counts(lists: Seq<Seq<usize>>) -> Seq<u32> {
    Seq::new(
        2 * lists.len(),
        |j: int|
            if j % 2 == 0 {
                lists[j / 2].len() as u32
            } else {
                offset(lists, j / 2) as u32
            },
    )
}

/// The compact ids of the objects of tile number `t`, in the tile's order.
pub open spec fn tile_ids(lists: Seq<Seq<usize>>, t: int) -> Seq<u32> {
    Seq::new(lists[t].len(), |k: int| compact_id(lists, lists[t][k] as int) as u32)
}

/// The index buffer as far as the tiles before tile number `t` fill it.
pub open spec fn packed_indices(lists: Seq<Seq<usize>>, t: int) -> Seq<u32>
    decreases t,
{
    if t <= 0 {
        Seq::empty()
    } else {
        packed_indices(lists, t - 1) + tile_ids(lists, t - 1)
    }
}

/// `packed` holds the buffers of the frame with these objects and lists.
pub open spec fn is_packing(objects: Seq<PlacedObject>, lists: Seq<Seq<usize>>, packed: SDFFunctions) -> bool {
    &&& packed.panel_width == PANEL_WIDTH
    &&& packed.panel_height == PANEL_HEIGHT
    &&& packed.functions@ == packed_functions(objects, lists)
    &&& packed.tile_function_count@ == packed_counts(lists)
    &&& packed.function_indices@ == packed_indices(lists, lists.len() as int)
}

/// What encoding a frame comes to: nothing where no tile refers to any
/// object, an error where the object buffer would be too long, and the
/// packed buffers otherwise.
pub open spec fn is_encoding(
    objects: Seq<PlacedObject>,
    lists: Seq<Seq<usize>>,
    r: Result<Option<SDFFunctions>, PackError>,
) -> bool {
    let count = distinct_count(lists, objects.len() as int);
    let words = functions_len(lists, objects.len() as int);
    if count == 0 {
        r == Ok::<Option<SDFFunctions>, PackError>(None)
    } else if words >= FUNCTIONS_LIMIT {
        r == Err::<Option<SDFFunctions>, PackError>(PackError::CapacityExceeded { words: words as usize })
    } else {
        r matches Ok(Some(packed)) && is_packing(objects, lists, packed)
    }
}

/// Some tile before `(t, k)`, in the order in which tiles and their lists
/// are read, refers to object number `o`.
spec fn marked(lists: Seq<Seq<usize>>, t: int, k: int, o: int) -> bool {
    exists|u: int, j: int|
        #![trigger lists[u][j]]
        0 <= u < lists.len() && 0 <= j < lists[u].len() && lists[u][j] == o && (u < t || (u == t && j
            < k))
}

/// How many of the first `m` marks are set.
spec fn count_marked(marks: Seq<bool>, m: int) -> int
    decreases m,
{
    if m <= 0 {
        0
    } else {
        count_marked(marks, m - 1) + if marks[m - 1] {
            1int
        } else {
            0int
        }
    }
}

proof fn lemma_marked_step(lists: Seq<Seq<usize>>, t: int, k: int)
    requires
        0 <= t < lists.len(),
        0 <= k < lists[t].len(),
    ensures
        forall|o: int| marked(lists, t, k + 1, o) == (marked(lists, t, k, o) || lists[t][k] == o),
{
    assert forall|o: int| marked(lists, t, k + 1, o) == (marked(lists, t, k, o) || lists[t][k] == o) by {
        if marked(lists, t, k + 1, o) {
            let (u, j) = choose|u: int, j: int|
                #![trigger lists[u][j]]
                0 <= u < lists.len() && 0 <= j < lists[u].len() && lists[u][j] == o && (u < t || (u == t
                    && j < k + 1));
            if !(u == t && j == k) {
                assert(lists[u][j] == o && (u < t || (u == t && j < k)));
            }
        }
        if marked(lists, t, k, o) {
            let (u, j) = choose|u: int, j: int|
                #![trigger lists[u][j]]
                0 <= u < lists.len() && 0 <= j < lists[u].len() && lists[u][j] == o && (u < t || (u == t
                    && j < k));
            assert(lists[u][j] == o && (u < t || (u == t && j < k + 1)));
        }
        if lists[t][k] == o {
            assert(lists[t][k] == o && (t < t || (t == t && k < k + 1)));
        }
    }
}

proof fn lemma_marked_next_tile(lists: Seq<Seq<usize>>, t: int)
    requires
        0 <= t < lists.len(),
    ensures
        forall|o: int| marked(lists, t, lists[t].len() as int, o) == marked(lists, t + 1, 0, o),
{
    let end = lists[t].len() as int;
    assert forall|o: int| marked(lists, t, end, o) == marked(lists, t + 1, 0, o) by {
        if marked(lists, t, end, o) {
            let (u, j) = choose|u: int, j: int|
                #![trigger lists[u][j]]
                0 <= u < lists.len() && 0 <= j < lists[u].len() && lists[u][j] == o && (u < t || (u == t
                    && j < end));
            assert(lists[u][j] == o && (u < t + 1 || (u == t + 1 && j < 0)));
        }
        if marked(lists, t + 1, 0, o) {
            let (u, j) = choose|u: int, j: int|
                #![trigger lists[u][j]]
                0 <= u < lists.len() && 0 <= j < lists[u].len() && lists[u][j] == o && (u < t + 1 || (u
                    == t + 1 && j < 0));
            assert(lists[u][j] == o && (u < t || (u == t && j < end)));
        }
    }
}

proof fn lemma_marked_ends(lists: Seq<Seq<usize>>)
    ensures
        forall|o: int| !marked(lists, 0, 0, o),
        forall|o: int| marked(lists, lists.len() as int, 0, o) == referenced(lists, o),
{
    let end = lists.len() as int;
    assert forall|o: int| marked(lists, end, 0, o) == referenced(lists, o) by {
        if marked(lists, end, 0, o) {
            let (u, j) = choose|u: int, j: int|
                #![trigger lists[u][j]]
                0 <= u < lists.len() && 0 <= j < lists[u].len() && lists[u][j] == o && (u < end || (u
                    == end && j < 0));
            assert(0 <= u < lists.len() && 0 <= j < lists[u].len() && lists[u][j] == o);
        }
        if referenced(lists, o) {
            let (u, j) = choose|u: int, j: int|
                #![trigger lists[u][j]]
                0 <= u < lists.len() && 0 <= j < lists[u].len() && lists[u][j] == o;
            assert(lists[u][j] == o && (u < end || (u == end && j < 0)));
        }
    }
}

proof fn lemma_count_marked_set(marks: Seq<bool>, o: int, m: int)
    requires
        0 <= o < marks.len(),
        !marks[o],
        0 <= m <= marks.len(),
    ensures
        count_marked(marks.update(o, true), m) == count_marked(marks, m) + if o < m {
            1int
        } else {
            0int
        },
    decreases m,
{
    if m > 0 {
        lemma_count_marked_set(marks, o, m - 1);
    }
}

proof fn lemma_compact_id_counts_marks(lists: Seq<Seq<usize>>, marks: Seq<bool>, m: int)
    requires
        0 <= m <= marks.len(),
        forall|o: int| 0 <= o < m ==> marks[o] == referenced(lists, o),
    ensures
        compact_id(lists, m) == count_marked(marks, m),
    decreases m,
{
    if m > 0 {
        lemma_compact_id_counts_marks(lists, marks, m - 1);
    }
}

/// Compact ids grow with the object number, from zero, by one for every
/// object that some tile refers to.
pub proof fn lemma_compact_id_grows(lists: Seq<Seq<usize>>, a: int, b: int)
    requires
        0 <= a <= b,
    ensures
        0 <= compact_id(lists, a) <= compact_id(lists, b),
        compact_id(lists, b) - compact_id(lists, a) <= b - a,
        a < b && referenced(lists, a) ==> compact_id(lists, a) < compact_id(lists, b),
    decreases b,
{
    if a < b {
        lemma_compact_id_grows(lists, a, b - 1);
        if a == b - 1 {
            lemma_compact_id_grows(lists, a, a);
        }
    } else {
        if a > 0 {
            lemma_compact_id_grows(lists, a - 1, a - 1);
        }
    }
}

/// The records of a frame take twelve words for every object that some tile
/// refers to.
pub proof fn lemma_records_len(objects: Seq<PlacedObject>, lists: Seq<Seq<usize>>, n: int)
    requires
        0 <= n <= objects.len(),
    ensures
        records(objects, lists, n).len() == RECORD_WORDS * distinct_count(lists, n),
    decreases n,
{
    if n > 0 {
        lemma_records_len(objects, lists, n - 1);
        assert(objects[n - 1].record().len() == RECORD_WORDS);
    }
}

/// The offset of a tile is the length of the index buffer as far as the tiles
/// before it fill it, and no tile adds more than it can hold.
pub proof fn lemma_offset(lists: Seq<Seq<usize>>, t: int)
    requires
        0 <= t <= lists.len(),
        forall|u: int| 0 <= u < lists.len() ==> (#[trigger] lists[u]).len() <= MAX_FUNCTIONS,
    ensures
        packed_indices(lists, t).len() == offset(lists, t),
        0 <= offset(lists, t) <= MAX_FUNCTIONS * t,
    decreases t,
{
    if t > 0 {
        lemma_offset(lists, t - 1);
        assert(lists[t - 1].len() <= MAX_FUNCTIONS);
    }
}

/// The counts in the tile buffer of a frame, added up over the tiles before
/// tile number `t`, give that tile's offset.
pub proof fn lemma_counts_before(lists: Seq<Seq<usize>>, t: int)
    requires
        0 <= t <= lists.len(),
        forall|u: int| 0 <= u < lists.len() ==> (#[trigger] lists[u]).len() <= MAX_FUNCTIONS,
    ensures
        counts_before(packed_counts(lists), t) == offset(lists, t),
    decreases t,
{
    if t > 0 {
        lemma_counts_before(lists, t - 1);
        assert(lists[t - 1].len() <= MAX_FUNCTIONS);
        assert(packed_counts(lists)[2 * (t - 1)] == lists[t - 1].len() as u32);
    }
}

/// Every index that the tiles before tile number `t` write is the compact id
/// of an object that some tile refers to, and so the number of a record.
pub proof fn lemma_indices_below(lists: Seq<Seq<usize>>, n: int, t: int)
    requires
        0 <= t <= lists.len(),
        0 <= n,
        names_below(lists, n as nat),
        distinct_count(lists, n) <= u32::MAX,
    ensures
        forall|j: int|
            0 <= j < packed_indices(lists, t).len() ==> 0 <= #[trigger] packed_indices(lists, t)[j]
                < distinct_count(lists, n),
    decreases t,
{
    if t > 0 {
        lemma_indices_below(lists, n, t - 1);
        let before = packed_indices(lists, t - 1);
        assert forall|j: int| 0 <= j < packed_indices(lists, t).len() implies 0 <= #[trigger] packed_indices(
            lists,
            t,
        )[j] < distinct_count(lists, n) by {
            if j >= before.len() {
                let k = j - before.len();
                let o = lists[t - 1][k] as int;
                assert(packed_indices(lists, t)[j] == tile_ids(lists, t - 1)[k]);
                assert(referenced(lists, o));
                lemma_compact_id_grows(lists, o, n);
            } else {
                assert(packed_indices(lists, t)[j] == before[j]);
            }
        }
    }
}

/// Every number below the count of objects that tiles refer to is the
/// compact id of one of them.
pub proof fn lemma_compact_ids_are_onto(lists: Seq<Seq<usize>>, n: int, id: int)
    requires
        0 <= id < distinct_count(lists, n),
    ensures
        exists|o: int| 0 <= o < n && referenced(lists, o) && compact_id(lists, o) == id,
    decreases n,
{
    if n > 0 {
        if referenced(lists, n - 1) && compact_id(lists, n - 1) == id {
        } else {
            lemma_compact_ids_are_onto(lists, n - 1, id);
        }
    }
}

/// In the index buffer, the objects of tile number `t` stand from the tile's
/// offset on, in the tile's order, each as its compact id.
pub proof fn lemma_index_at(lists: Seq<Seq<usize>>, upto: int, t: int, k: int)
    requires
        0 <= t < upto <= lists.len(),
        0 <= k < lists[t].len(),
        forall|u: int| 0 <= u < lists.len() ==> (#[trigger] lists[u]).len() <= MAX_FUNCTIONS,
    ensures
        0 <= offset(lists, t) + k < packed_indices(lists, upto).len(),
        packed_indices(lists, upto)[offset(lists, t) + k] == tile_ids(lists, t)[k],
    decreases upto,
{
    let before = packed_indices(lists, upto - 1);
    let last = tile_ids(lists, upto - 1);
    lemma_offset(lists, t);
    lemma_offset(lists, upto - 1);
    assert(packed_indices(lists, upto) == before + last);
    if t < upto - 1 {
        lemma_index_at(lists, upto - 1, t, k);
        assert((before + last)[offset(lists, t) + k] == before[offset(lists, t) + k]);
    } else {
        assert((before + last)[offset(lists, t) + k] == last[k]);
    }
}

/// In the object buffer, the record of an object that some tile refers to
/// stands at twelve times its compact id.
pub proof fn lemma_record_at(objects: Seq<PlacedObject>, lists: Seq<Seq<usize>>, n: int, o: int)
    requires
        0 <= o < n <= objects.len(),
        referenced(lists, o),
    ensures
        0 <= 12 * compact_id(lists, o),
        12 * compact_id(lists, o) + 12 <= records(objects, lists, n).len(),
        records(objects, lists, n).subrange(12 * compact_id(lists, o), 12 * compact_id(lists, o) + 12)
            == objects[o].record(),
    decreases n,
{
    let at = 12 * compact_id(lists, o);
    let before = records(objects, lists, n - 1);
    let last = if referenced(lists, n - 1) {
        objects[n - 1].record()
    } else {
        Seq::empty()
    };
    lemma_compact_id_grows(lists, o, n - 1);
    lemma_records_len(objects, lists, n - 1);
    assert(records(objects, lists, n) == before + last);
    if o < n - 1 {
        lemma_record_at(objects, lists, n - 1, o);
        assert((before + last).subrange(at, at + 12) =~= before.subrange(at, at + 12));
    } else {
        assert(last.len() == 12);
        assert(before.len() == at);
        assert((before + last).subrange(at, at + 12) =~= last);
    }
}

/// Objects that tiles refer to have their compact ids in the order of the
/// scene, no two the same, and all below the number of such objects.
pub proof fn lemma_compact_ids_are_distinct(lists: Seq<Seq<usize>>, n: int, a: int, b: int)
    requires
        0 <= a < b < n,
        referenced(lists, a),
        referenced(lists, b),
    ensures
        0 <= compact_id(lists, a) < compact_id(lists, b) < distinct_count(lists, n),
{
    lemma_compact_id_grows(lists, a, b);
    lemma_compact_id_grows(lists, b, n);
}

/// The buffers of a frame are well formed: every tile's count is at most
/// `MAX_FUNCTIONS`, its offset is the sum of the counts before it, the index
/// buffer is as long as all counts together, and every index in it is below
/// the number of objects in the object buffer.
pub proof fn lemma_packing_is_packed(objects: Seq<PlacedObject>, lists: Seq<Seq<usize>>, packed: SDFFunctions)
    requires
        is_assignment(lists),
        names_below(lists, objects.len()),
        is_packing(objects, lists, packed),
        distinct_count(lists, objects.len() as int) >= 1,
        functions_len(lists, objects.len() as int) < FUNCTIONS_LIMIT,
    ensures
        packed.is_packed(),
        packed.well_formed(),
        packed.object_count() == distinct_count(lists, objects.len() as int),
        forall|t: int| 0 <= t < TILE_COUNT ==> #[trigger] packed.count_at(t) == lists[t].len(),
        forall|t: int| 0 <= t < TILE_COUNT ==> #[trigger] packed.offset_at(t) == offset(lists, t),
{
    let n = objects.len() as int;
    let count = distinct_count(lists, n);
    let body = records(objects, lists, n);
    let end = SDFObject::spec_sentinel().words();
    lemma_records_len(objects, lists, n);
    assert(end.len() == OBJECT_WORDS);
    assert(packed.functions@.len() == RECORD_WORDS * count + OBJECT_WORDS);
    assert(packed.object_count() == count);
    assert(packed.functions@.skip(packed.functions@.len() - OBJECT_WORDS) =~= end);
    let counts = packed.tile_function_count@;
    assert forall|t: int| 0 <= t < TILE_COUNT implies #[trigger] packed.count_at(t) == lists[t].len() by {
        assert(lists[t].len() <= MAX_FUNCTIONS);
        assert(counts[2 * t] == lists[t].len() as u32);
    }
    assert forall|t: int| 0 <= t < TILE_COUNT implies #[trigger] packed.offset_at(t) == offset(lists, t) by {
        lemma_offset(lists, t);
        assert(counts[2 * t + 1] == offset(lists, t) as u32);
    }
    assert forall|t: int| 0 <= t < TILE_COUNT implies #[trigger] packed.offset_at(t) == counts_before(
        counts,
        t,
    ) by {
        lemma_counts_before(lists, t);
    }
    assert forall|t: int| 0 <= t < TILE_COUNT implies 0 <= #[trigger] packed.count_at(t) <= MAX_FUNCTIONS by {
        assert(lists[t].len() <= MAX_FUNCTIONS);
    }
    lemma_offset(lists, TILE_COUNT as int);
    assert(offset(lists, TILE_COUNT as int) == offset(lists, TILE_COUNT - 1) + lists[TILE_COUNT - 1].len());
    lemma_indices_below(lists, n, TILE_COUNT as int);
}

/// Reading the buffers of a frame back: entry `k` of tile number `t` stands
/// in the index buffer at the tile's offset plus `k`; it is the compact id of
/// the object that the tile chose as its `k`-th, and at twelve times that id
/// the object buffer holds that object's record.
pub proof fn lemma_packing_reads_back(
    objects: Seq<PlacedObject>,
    lists: Seq<Seq<usize>>,
    packed: SDFFunctions,
    t: int,
    k: int,
)
    requires
        is_assignment(lists),
        names_below(lists, objects.len()),
        is_packing(objects, lists, packed),
        distinct_count(lists, objects.len() as int) >= 1,
        functions_len(lists, objects.len() as int) < FUNCTIONS_LIMIT,
        0 <= t < TILE_COUNT,
        0 <= k < lists[t].len(),
    ensures
        k < packed.count_at(t),
        0 <= packed.offset_at(t) + k < packed.function_indices@.len(),
        packed.function_indices@[packed.offset_at(t) + k] == compact_id(lists, lists[t][k] as int),
        0 <= 12 * compact_id(lists, lists[t][k] as int),
        12 * compact_id(lists, lists[t][k] as int) + 12 <= packed.functions@.len(),
        packed.functions@.subrange(
            12 * compact_id(lists, lists[t][k] as int),
            12 * compact_id(lists, lists[t][k] as int) + 12,
        ) == objects[lists[t][k] as int].record(),
{
    let n = objects.len() as int;
    let o = lists[t][k] as int;
    let at = 12 * compact_id(lists, o);
    let body = records(objects, lists, n);
    lemma_packing_is_packed(objects, lists, packed);
    lemma_index_at(lists, TILE_COUNT as int, t, k);
    assert(referenced(lists, o));
    lemma_compact_id_grows(lists, o, n);
    lemma_record_at(objects, lists, n, o);
    assert(packed.functions@.subrange(at, at + 12) =~= body.subrange(at, at + 12));
}

/// Marks the objects that some tile refers to, and counts them.
fn mark_referenced(n: usize, assignment: &Assignment) -> (r: (Vec<bool>, usize))
    requires
        names_below(assignment@, n as nat),
    ensures
        is_assignment(assignment@),
        r.0@.len() == n,
        forall|o: int| 0 <= o < n ==> r.0@[o] == referenced(assignment@, o),
        r.1 == distinct_count(assignment@, n as int),
        r.1 <= MAX_FUNCTIONS * TILE_COUNT,
{
    let ghost lists = assignment@;
    let tiles = assignment.tiles();
    let mut marks: Vec<bool> = Vec::new();
    let mut i: usize = 0;
    while i < n
        invariant
            i <= n,
            marks@.len() == i,
            forall|o: int| 0 <= o < i ==> !marks@[o],
        decreases n - i,
    {
        marks.push(false);
        i += 1;
    }
    let mut count: usize = 0;
    let mut t: usize = 0;
    proof {
        lemma_marked_ends(lists);
        lemma_count_marked_none(marks@, n as int);
    }
    while t < TILE_COUNT
        invariant
            t <= TILE_COUNT,
            lists == lists_of(tiles@),
            is_assignment(lists),
            names_below(lists, n as nat),
            marks@.len() == n,
            forall|o: int| 0 <= o < n ==> marks@[o] == marked(lists, t as int, 0, o),
            count == count_marked(marks@, n as int),
            count <= MAX_FUNCTIONS * t,
        decreases TILE_COUNT - t,
    {
        let list = &tiles[t];
        let mut k: usize = 0;
        while k < list.len()
            invariant
                t < TILE_COUNT,
                is_assignment(lists),
                names_below(lists, n as nat),
                list@ == lists[t as int],
                k <= list.len(),
                marks@.len() == n,
                forall|o: int| 0 <= o < n ==> marks@[o] == marked(lists, t as int, k as int, o),
                count == count_marked(marks@, n as int),
                count <= MAX_FUNCTIONS * t + k,
            decreases list.len() - k,
        {
            let o = list[k];
            assert(o == lists[t as int][k as int] && o < n);
            proof {
                lemma_marked_step(lists, t as int, k as int);
            }
            if !marks[o] {
                proof {
                    lemma_count_marked_set(marks@, o as int, n as int);
                }
                marks.set(o, true);
                count += 1;
            }
            k += 1;
        }
        proof {
            lemma_marked_next_tile(lists, t as int);
        }
        t += 1;
    }
    proof {
        lemma_compact_id_counts_marks(lists, marks@, n as int);
    }
    (marks, count)
}

/// Writes the records of the marked objects, in the order of the scene, and
/// works out every object's compact id.
fn write_records(
    objects: &Vec<PlacedObject>,
    assignment: &Assignment,
    marks: &Vec<bool>,
    count: usize,
) -> (r: (Vec<u32>, Vec<u32>))
    requires
        marks@.len() == objects@.len(),
        forall|o: int| 0 <= o < marks@.len() ==> marks@[o] == referenced(assignment@, o),
        count == distinct_count(assignment@, objects@.len() as int),
        count <= MAX_FUNCTIONS * TILE_COUNT,
    ensures
        r.0@ == records(objects@, assignment@, objects@.len() as int),
        r.1@.len() == objects@.len(),
        forall|o: int| 0 <= o < objects@.len() ==> r.1@[o] == compact_id(assignment@, o),
{
    let ghost lists = assignment@;
    let n = objects.len();
    let mut functions: Vec<u32> = Vec::new();
    let mut ids: Vec<u32> = Vec::new();
    let mut next: u32 = 0;
    let mut o: usize = 0;
    while o < n
        invariant
            o <= n,
            n == objects@.len(),
            marks@.len() == n,
            lists == assignment@,
            forall|i: int| 0 <= i < n ==> marks@[i] == referenced(lists, i),
            count == distinct_count(lists, n as int),
            count <= MAX_FUNCTIONS * TILE_COUNT,
            functions@ == records(objects@, lists, o as int),
            ids@.len() == o,
            forall|i: int| 0 <= i < o ==> ids@[i] == compact_id(lists, i),
            next == compact_id(lists, o as int),
        decreases n - o,
    {
        proof {
            lemma_compact_id_grows(lists, o as int, n as int);
            lemma_compact_id_grows(lists, o as int + 1, n as int);
        }
        ids.push(next);
        if marks[o] {
            objects[o].write_record(&mut functions);
            next += 1;
        } else {
            assert(functions@ + Seq::<u32>::empty() =~= functions@);
        }
        o += 1;
    }
    (functions, ids)
}

/// Writes the tile buffer and the index buffer.
fn write_tiles(assignment: &Assignment, ids: &Vec<u32>) -> (r: (Vec<u32>, Vec<u32>))
    requires
        names_below(assignment@, ids@.len()),
        forall|o: int| 0 <= o < ids@.len() ==> ids@[o] == compact_id(assignment@, o),
    ensures
        r.0@ == packed_counts(assignment@),
        r.1@ == packed_indices(assignment@, assignment@.len() as int),
{
    let ghost lists = assignment@;
    let tiles = assignment.tiles();
    let mut counts: Vec<u32> = Vec::with_capacity(2 * TILE_COUNT);
    let mut indices: Vec<u32> = Vec::new();
    let mut running: usize = 0;
    let mut t: usize = 0;
    while t < TILE_COUNT
        invariant
            t <= TILE_COUNT,
            lists == lists_of(tiles@),
            is_assignment(lists),
            names_below(lists, ids@.len()),
            forall|o: int| 0 <= o < ids@.len() ==> ids@[o] == compact_id(lists, o),
            running == offset(lists, t as int),
            counts@ == packed_counts(lists).take(2 * t),
            indices@ == packed_indices(lists, t as int),
        decreases TILE_COUNT - t,
    {
        let list = &tiles[t];
        proof {
            lemma_offset(lists, t as int);
            lemma_offset(lists, t as int + 1);
        }
        counts.push(list.len() as u32);
        counts.push(running as u32);
        let mut k: usize = 0;
        while k < list.len()
            invariant
                t < TILE_COUNT,
                is_assignment(lists),
                names_below(lists, ids@.len()),
                forall|o: int| 0 <= o < ids@.len() ==> ids@[o] == compact_id(lists, o),
                list@ == lists[t as int],
                k <= list.len(),
                indices@ == packed_indices(lists, t as int) + tile_ids(lists, t as int).take(k as int),
            decreases list.len() - k,
        {
            let o = list[k];
            assert(o == lists[t as int][k as int] && o < ids@.len());
            indices.push(ids[o]);
            k += 1;
            assert(tile_ids(lists, t as int).take(k as int) =~= tile_ids(lists, t as int).take(k - 1).push(
                ids@[o as int],
            ));
        }
        assert(tile_ids(lists, t as int).take(k as int) =~= tile_ids(lists, t as int));
        running += list.len();
        t += 1;
        assert(counts@ =~= packed_counts(lists).take(2 * t));
    }
    assert(packed_counts(lists).take(2 * t) =~= packed_counts(lists));
    (counts, indices)
}

/// Packs a frame: the objects that the assignment refers to, numbered in the
/// order of the scene; each tile's count and offset; and the tiles' lists,
/// written in compact ids.
///
/// Gives `None` where no tile refers to any object, and an error where the
/// object buffer would reach `FUNCTIONS_LIMIT` words.
pub fn encode(objects: &Vec<PlacedObject>, assignment: &Assignment) -> (r: Result<
    Option<SDFFunctions>,
    PackError,
>)
    requires
        names_below(assignment@, objects@.len()),
    ensures
        is_encoding(objects@, assignment@, r),
        r matches Ok(Some(packed)) ==> packed.is_packed() && packed.well_formed(),
{
    let (marks, count) = mark_referenced(objects.len(), assignment);
    if count == 0 {
        return Ok(None);
    }
    let words = RECORD_WORDS * count + OBJECT_WORDS;
    if words >= FUNCTIONS_LIMIT {
        return Err(PackError::CapacityExceeded { words });
    }
    let (mut functions, ids) = write_records(objects, assignment, &marks, count);
    let end = SDFObject::sentinel().as_words();
    let mut i: usize = 0;
    while i < OBJECT_WORDS
        invariant
            i <= OBJECT_WORDS,
            end@ == SDFObject::spec_sentinel().words(),
            end@.len() == OBJECT_WORDS,
            functions@ == records(objects@, assignment@, objects@.len() as int) + end@.take(i as int),
        decreases OBJECT_WORDS - i,
    {
        functions.push(end[i]);
        i += 1;
        assert(end@.take(i as int) =~= end@.take(i - 1).push(end@[i - 1]));
    }
    assert(end@.take(i as int) =~= end@);
    let (tile_function_count, function_indices) = write_tiles(assignment, &ids);
    let packed = SDFFunctions {
        panel_width: PANEL_WIDTH as u32,
        panel_height: PANEL_HEIGHT as u32,
        functions,
        tile_function_count,
        function_indices,
    };
    proof {
        lemma_packing_is_packed(objects@, assignment@, packed);
    }
    Ok(Some(packed))
}

proof fn lemma_count_marked_none(marks: Seq<bool>, m: int)
    requires
        0 <= m <= marks.len(),
        forall|o: int| 0 <= o < m ==> !marks[o],
    ensures
        count_marked(marks, m) == 0,
    decreases m,
{
    if m > 0 {
        lemma_count_marked_none(marks, m - 1);
    }
}

} // verus!
