//! The voxel grid of one region: 16 x 16 columns, each spanning the full
//! world height.

use vstd::prelude::*;

use crate::block::Block;

verus! {

/// Columns per region side.
pub const REGION_WIDTH: usize = 16;

/// Columns per region.
pub const REGION_COLUMNS: usize = 256;

/// World height in blocks.
pub const WORLD_HEIGHT: usize = 384;

/// Index of the column holding cell (x, z) of a region.
pub open spec fn spec_col_index(x: int, z: int) -> int {
    z * 16 + x
}

/// A well-formed grid view: one column per cell, each full height.
pub open spec fn grid_wf(g: Seq<Seq<Block>>) -> bool {
    &&& g.len() == 256
    &&& forall|i: int| 0 <= i < 256 ==> (#[trigger] g[i]).len() == 384
}

/// Fixed-size 3D array of block materials for one region, immutable once a
/// worker produced it, except for single-voxel edits by the world mutation
/// layer. Viewed as a sequence of columns, each a sequence of blocks indexed
/// by height.
pub struct VoxelGrid {
    cols: Vec<Vec<Block>>,
}

impl View for VoxelGrid {
    type V = Seq<Seq<Block>>;

    closed spec fn view(&self) -> Seq<Seq<Block>> {
        self.cols@.map_values(|c: Vec<Block>| c@)
    }
}

impl VoxelGrid {
    pub open spec fn wf(self) -> bool {
        grid_wf(self@)
    }

    /// A grid holding `b` everywhere.
    pub fn filled(b: Block) -> (r: VoxelGrid)
        ensures
            r.wf(),
            forall|i: int, y: int| 0 <= i < 256 && 0 <= y < 384 ==> r@[i][y] == b,
    {
        let mut cols: Vec<Vec<Block>> = Vec::new();
        let mut i: usize = 0;
        while i < REGION_COLUMNS
            invariant
                i <= 256,
                cols@.len() == i,
                forall|j: int| 0 <= j < i ==> (#[trigger] cols@[j])@.len() == 384,
                forall|j: int, y: int| 0 <= j < i && 0 <= y < 384 ==> cols@[j]@[y] == b,
            decreases 256 - i,
        {
            let mut col: Vec<Block> = Vec::new();
            let mut y: usize = 0;
            while y < WORLD_HEIGHT
                invariant
                    y <= 384,
                    col@.len() == y,
                    forall|k: int| 0 <= k < y ==> col@[k] == b,
                decreases 384 - y,
            {
                col.push(b);
                y = y + 1;
            }
            cols.push(col);
            i = i + 1;
        }
        VoxelGrid { cols }
    }

    /// Wrap generated columns as a grid.
    pub fn from_columns(cols: Vec<Vec<Block>>) -> (r: VoxelGrid)
        requires
            cols@.len() == 256,
            forall|i: int| 0 <= i < 256 ==> (#[trigger] cols@[i])@.len() == 384,
        ensures
            r.wf(),
            r@ == cols@.map_values(|c: Vec<Block>| c@),
    {
        VoxelGrid { cols }
    }

    /// The material at cell (x, y, z) of the region.
    pub fn get_block(&self, x: usize, y: usize, z: usize) -> (r: Block)
        requires
            self.wf(),
            x < 16,
            y < 384,
            z < 16,
        ensures
            r == self@[spec_col_index(x as int, z as int)][y as int],
    {
        self.cols[z * 16 + x][y]
    }

    /// Overwrite the material at cell (x, y, z).
    pub fn set_block(&mut self, x: usize, y: usize, z: usize, b: Block)
        requires
            old(self).wf(),
            x < 16,
            y < 384,
            z < 16,
        ensures
            final(self).wf(),
            final(self)@ == old(self)@.update(
                spec_col_index(x as int, z as int),
                old(self)@[spec_col_index(x as int, z as int)].update(y as int, b),
            ),
    {
        let ghost ci = spec_col_index(x as int, z as int);
        let ghost v0 = self@;
        proof {
            assert(self.cols@.len() == 256);
            assert(self@[ci] == self.cols@[ci]@);
        }
        self.cols[z * 16 + x][y] = b;
        proof {
            assert(self@ =~= v0.update(ci, v0[ci].update(y as int, b)));
        }
    }
}

} // verus!
