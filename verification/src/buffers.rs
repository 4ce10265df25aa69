//! The three flat buffers that the renderer reads, and what holds of them
//! between frames.

use crate::grid::{MAX_FUNCTIONS, PANEL_HEIGHT, PANEL_WIDTH, TILE_COUNT, TILE_VERTICES};
use crate::shape::{SDFObject, OBJECT_WORDS};
use vstd::prelude::*;

verus! {

/// Number of words in an object's record: its pose, then the object itself.
pub const RECORD_WORDS: usize = 12;

/// The object buffer has fewer words than this.
pub const FUNCTIONS_LIMIT: usize = 65536;

/// The buffers that the renderer reads, and the grid they are laid out for.
#[derive(Clone, Debug, PartialEq, Eq)]
pub struct SDFFunctions {
    pub panel_width: u32,
    pub panel_height: u32,
    /// One record for each object that some tile refers to, by compact id,
    /// and then the terminating record.
    pub functions: Vec<u32>,
    /// For each tile, by tile number: how many objects it refers to, and
    /// where its first one stands in `function_indices`.
    pub tile_function_count: Vec<u32>,
    /// The compact ids that the tiles refer to, tile after tile.
    pub function_indices: Vec<u32>,
}

impl Default for SDFFunctions {
    /// The buffers before any frame was packed: all three empty.
    fn default() -> (r: SDFFunctions)
        ensures
            r.panel_width == PANEL_WIDTH,
            r.panel_height == PANEL_HEIGHT,
            r.is_unpacked(),
            r.well_formed(),
    {
        SDFFunctions {
            panel_width: PANEL_WIDTH as u32,
            panel_height: PANEL_HEIGHT as u32,
            functions: Vec::new(),
            tile_function_count: Vec::new(),
            function_indices: Vec::new(),
        }
    }
}

/// What the renderer is asked to draw: `vertices` vertices, `instances` times.
#[derive(Clone, Copy, Debug, PartialEq, Eq)]
pub struct DrawCall {
    pub vertices: u32,
    pub instances: u32,
}

/// The counts that a tile buffer holds for the tiles before tile number `t`,
/// added up.
pub open spec fn counts_before(tile_function_count: Seq<u32>, t: int) -> int
    decreases t,
{
    if t <= 0 {
        0
    } else {
        counts_before(tile_function_count, t - 1) + tile_function_count[2 * (t - 1)]
    }
}

impl SDFFunctions {
    /// No frame was packed yet.
    pub open spec fn is_unpacked(self) -> bool {
        &&& self.functions@.len() == 0
        &&& self.tile_function_count@.len() == 0
        &&& self.function_indices@.len() == 0
    }

    /// How many objects the object buffer holds, the terminating record not
    /// counted.
    pub open spec fn object_count(self) -> int {
        (self.functions@.len() - OBJECT_WORDS) / (RECORD_WORDS as int)
    }

    /// How many objects tile number `t` refers to.
    pub open spec fn count_at(self, t: int) -> int {
        self.tile_function_count@[2 * t] as int
    }

    /// Where the objects of tile number `t` begin in the index buffer.
    pub open spec fn offset_at(self, t: int) -> int {
        self.tile_function_count@[2 * t + 1] as int
    }

    /// The buffers hold a frame: at least one record and the terminating
    /// record, in fewer words than the limit; a count of at most
    /// `MAX_FUNCTIONS` for every tile, and as its offset the counts of the
    /// tiles before it, added up; as many indices as all tiles count
    /// together, each of them the number of a record.
    pub open spec fn is_packed(self) -> bool {
        &&& self.object_count() >= 1
        &&& self.functions@.len() == RECORD_WORDS * self.object_count() + OBJECT_WORDS
        &&& self.functions@.len() < FUNCTIONS_LIMIT
        &&& self.functions@.skip(self.functions@.len() - OBJECT_WORDS)
            == SDFObject::spec_sentinel().words()
        &&& self.tile_function_count@.len() == 2 * TILE_COUNT
        &&& forall|t: int| 0 <= t < TILE_COUNT ==> 0 <= #[trigger] self.count_at(t) <= MAX_FUNCTIONS
        &&& forall|t: int|
            0 <= t < TILE_COUNT ==> #[trigger] self.offset_at(t) == counts_before(
                self.tile_function_count@,
                t,
            )
        &&& self.function_indices@.len() == self.offset_at(TILE_COUNT - 1) + self.count_at(
            TILE_COUNT - 1,
        )
        &&& forall|j: int|
            0 <= j < self.function_indices@.len() ==> 0 <= #[trigger] self.function_indices@[j]
                < self.object_count()
    }

    /// The buffers are laid out for the grid, and they hold a frame or
    /// nothing.
    pub open spec fn well_formed(self) -> bool {
        &&& self.panel_width == PANEL_WIDTH
        &&& self.panel_height == PANEL_HEIGHT
        &&& (self.is_unpacked() || self.is_packed())
    }

    /// What to draw from these buffers.
    pub fn draw_call(&self) -> (call: Option<DrawCall>)
        ensures
            call == spec_draw_call(self.functions@.len()),
    {
        draw_call(self.functions.len())
    }
}

/// What the renderer draws from an object buffer of `words` words: two
/// triangles for every tile, once; nothing while the buffer is empty.
pub open spec fn spec_draw_call(words: nat) -> Option<DrawCall> {
    if words == 0 {
        None
    } else {
        Some(DrawCall { vertices: (PANEL_WIDTH * PANEL_HEIGHT * TILE_VERTICES) as u32, instances: 1 })
    }
}

/// Decides what to draw from an object buffer of `words` words.
pub fn draw_call(words: usize) -> (call: Option<DrawCall>)
    ensures
        call == spec_draw_call(words as nat),
{
    if words == 0 {
        None
    } else {
        Some(DrawCall { vertices: (PANEL_WIDTH * PANEL_HEIGHT * TILE_VERTICES) as u32, instances: 1 })
    }
}

} // verus!
