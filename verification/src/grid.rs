//! The fixed grid of screen tiles.

use vstd::prelude::*;

verus! {

/// Number of tile columns.
pub const PANEL_WIDTH: usize = 16;

/// Number of tile rows.
pub const PANEL_HEIGHT: usize = 16;

/// Number of tiles.
pub const TILE_COUNT: usize = 256;

/// The most objects one tile can refer to.
pub const MAX_FUNCTIONS: usize = 100;

/// Vertices the renderer draws per tile: two triangles.
pub const TILE_VERTICES: usize = 6;

/// The flattened number of the tile in column `x` and row `y`.
pub open spec fn spec_tile_index(x: int, y: int) -> int {
    x + y * (PANEL_WIDTH as int)
}

/// The flattened number of the tile in column `x` and row `y`.
pub fn tile_index(x: usize, y: usize) -> (i: usize)
    requires
        x < PANEL_WIDTH,
        y < PANEL_HEIGHT,
    ensures
        i == spec_tile_index(x as int, y as int),
        i < TILE_COUNT,
{
    x + y * PANEL_WIDTH
}

/// Tile numbers and grid cells correspond one to one: a cell's number leads
/// back to the cell, and a tile's cell leads back to its number.
pub proof fn lemma_tile_index_round_trip(x: int, y: int, i: int)
    requires
        0 <= x < PANEL_WIDTH,
        0 <= y < PANEL_HEIGHT,
        0 <= i < TILE_COUNT,
    ensures
        0 <= spec_tile_index(x, y) < TILE_COUNT,
        spec_tile_index(x, y) % (PANEL_WIDTH as int) == x,
        spec_tile_index(x, y) / (PANEL_WIDTH as int) == y,
        spec_tile_index(i % (PANEL_WIDTH as int), i / (PANEL_WIDTH as int)) == i,
{
}

/// What a frame's camera comes to on the lattice: the centre of every tile,
/// by tile number, and the squared distance beyond which a tile takes no
/// object. The cutoff is one for all tiles of a frame; below zero it keeps
/// every object out.
pub struct TileView {
    centers: Vec<(i32, i32)>,
    max_dist_sq: i128,
}

impl TileView {
    #[verifier::type_invariant]
    spec fn one_center_per_tile(self) -> bool {
        self.centers.len() == TILE_COUNT
    }

    /// The tile centres, by tile number.
    pub closed spec fn centers(&self) -> Seq<(i32, i32)> {
        self.centers@
    }

    /// The squared cutoff distance.
    pub closed spec fn cutoff(&self) -> i128 {
        self.max_dist_sq
    }

    /// A view with the given centres and cutoff, where there is one centre
    /// for each tile of the grid.
    pub fn new(centers: Vec<(i32, i32)>, max_dist_sq: i128) -> (r: Option<TileView>)
        ensures
            r.is_some() <==> centers.len() == TILE_COUNT,
            r matches Some(v) ==> v.centers() == centers@ && v.cutoff() == max_dist_sq,
    {
        if centers.len() == TILE_COUNT {
            Some(TileView { centers, max_dist_sq })
        } else {
            None
        }
    }

    /// The centre of tile number `tile`.
    pub fn center(&self, tile: usize) -> (c: (i32, i32))
        requires
            tile < TILE_COUNT,
        ensures
            c == self.centers()[tile as int],
    {
        proof {
            use_type_invariant(self);
        }
        self.centers[tile]
    }

    /// The squared cutoff distance.
    pub fn max_dist_sq(&self) -> (d: i128)
        ensures
            d == self.cutoff(),
            self.centers().len() == TILE_COUNT,
    {
        proof {
            use_type_invariant(self);
        }
        self.max_dist_sq
    }
}

} // verus!
