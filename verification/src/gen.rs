//! Terrain generation for one region: the per-cell terrain rules, the
//! top-to-bottom column scan that assigns materials, and the decoration pass
//! that grows grass on surfaced grass blocks. Everything is a function of
//! the column's noise samples, so one set of samples gives one grid,
//! bit for bit.

use vstd::prelude::*;

use crate::block::Block;
use crate::field::{col_samples_wf, ColumnSamples, ColumnSamplesView, RegionSamples};
use crate::fixed::{fbm, lerp, lerpstep, spec_fbm, spec_lerp, spec_lerpstep};
use crate::grid::VoxelGrid;

verus! {

/// Cells at or above this height are air when empty and grass-topped when
/// solid; below it empty cells fill with water.
pub const WATER_HEIGHT: u32 = 55;

/// Grass density above this bound grows short grass.
pub const GRASS_BOUND: u32 = 5500;

/// Grass density above this bound grows two-cell tall grass instead, given
/// clearance.
pub const TALL_GRASS_BOUND: u32 = 7000;

/// The squared hilliness factor of a cell, in noise units: its hilliness
/// sample remapped into [0.1, 1.0] and squared.
pub open spec fn hilly_factor(cs: ColumnSamplesView, y: int) -> int {
    let hl = spec_lerp(1000, 10000, cs.hilly[y] as int);
    hl * hl / 10000
}

/// Bottom of the terrain band at `y`, in noise units of height: below it the
/// world is always solid.
pub open spec fn band_lower(cs: ColumnSamplesView, y: int) -> int {
    150000 + 100 * hilly_factor(cs, y)
}

/// Top of the terrain band: above it the world is always empty.
pub open spec fn band_upper(cs: ColumnSamplesView, y: int) -> int {
    band_lower(cs, y) + 100 * hilly_factor(cs, y)
}

/// Whether cell `y` of the column is solid terrain: always below the band,
/// never above it, and inside the band a fractal density sample against a
/// linear falloff across the band.
pub open spec fn terrain_at(cs: ColumnSamplesView, y: int) -> bool {
    if 10000 * y <= band_lower(cs, y) {
        true
    } else if 10000 * y >= band_upper(cs, y) {
        false
    } else {
        spec_fbm(cs.density.subrange(4 * y, 4 * y + 4), 1, 2) < 10000 - spec_lerpstep(
            band_lower(cs, y),
            band_upper(cs, y),
            10000 * y,
        )
    }
}

/// Height below which soil turns to gravel at this cell.
pub open spec fn gravel_height(cs: ColumnSamplesView, y: int) -> int {
    54 - spec_fbm(cs.gravel.subrange(3 * y, 3 * y + 3), 1, 2) * 6 / 10000
}

/// How many cells of soil lie under the surface cell at `y`: one to five,
/// from the stone-depth sample.
pub open spec fn surf_depth(cs: ColumnSamplesView, y: int) -> int {
    let d = (5 * (cs.stone[y] as int) + 5000) / 10000;
    if d < 1 {
        1
    } else {
        d
    }
}

/// Grass density at cell `y`, in noise units.
pub open spec fn grass_density_at(cs: ColumnSamplesView, y: int) -> int {
    spec_fbm(cs.grass.subrange(4 * y, 4 * y + 4), 7, 10)
}

/// A non-terrain cell: water below the water line, air above.
pub open spec fn empty_block(y: int) -> Block {
    if y < 55 {
        Block::Water
    } else {
        Block::Air
    }
}

/// The first solid cell scanning down: gravel deep enough, dirt below the
/// water line, a grass block at or above it.
pub open spec fn surface_block(cs: ColumnSamplesView, y: int) -> Block {
    if y < gravel_height(cs, y) {
        Block::Gravel
    } else if y < 55 {
        Block::Dirt
    } else {
        Block::GrassBlock
    }
}

/// A solid cell still within the soil depth: gravel deep enough, else dirt.
pub open spec fn under_block(cs: ColumnSamplesView, y: int) -> Block {
    if y < gravel_height(cs, y) {
        Block::Gravel
    } else {
        Block::Dirt
    }
}

/// The materials of cells `0 ..= y`, scanning from the top down with the
/// scan state at `y`: whether the scan is inside terrain, and how much soil
/// depth remains before the column reverts to stone.
pub open spec fn terrain_column_from(
    cs: ColumnSamplesView,
    y: int,
    in_terrain: bool,
    depth: int,
) -> Seq<Block>
    decreases y + 1,
{
    if y < 0 {
        Seq::empty()
    } else {
        if terrain_at(cs, y) {
            if !in_terrain {
                terrain_column_from(cs, y - 1, true, surf_depth(cs, y)).push(surface_block(cs, y))
            } else if depth > 0 {
                terrain_column_from(cs, y - 1, true, depth - 1).push(under_block(cs, y))
            } else {
                terrain_column_from(cs, y - 1, true, 0).push(Block::Stone)
            }
        } else {
            terrain_column_from(cs, y - 1, false, 0).push(empty_block(y))
        }
    }
}

/// The whole column after the terrain pass, indexed by height.
pub open spec fn terrain_column(cs: ColumnSamplesView) -> Seq<Block> {
    terrain_column_from(cs, 383, false, 0)
}

pub proof fn lemma_terrain_column_len(cs: ColumnSamplesView, y: int, in_terrain: bool, depth: int)
    requires
        y >= -1,
    ensures
        terrain_column_from(cs, y, in_terrain, depth).len() == y + 1,
    decreases y + 1,
{
    if y >= 0 {
        if terrain_at(cs, y) {
            if !in_terrain {
                lemma_terrain_column_len(cs, y - 1, true, surf_depth(cs, y));
            } else if depth > 0 {
                lemma_terrain_column_len(cs, y - 1, true, depth - 1);
            } else {
                lemma_terrain_column_len(cs, y - 1, true, 0);
            }
        } else {
            lemma_terrain_column_len(cs, y - 1, false, 0);
        }
    }
}

/// The decoration pass grows tall grass out of cell `y`: the cell is air on
/// a grass block, the grass density is past the tall bound, and the cell
/// above is air too.
pub open spec fn tall_trigger(t: Seq<Block>, cs: ColumnSamplesView, y: int) -> bool {
    &&& 1 <= y
    &&& y + 1 < 384
    &&& t[y] == Block::Air
    &&& t[y - 1] == Block::GrassBlock
    &&& grass_density_at(cs, y) > 7000
    &&& t[y + 1] == Block::Air
}

/// What the decoration pass leaves at cell `y` of a terrain column `t`: an
/// air cell directly above a grass block grows short grass past the grass
/// bound, or the lower half of tall grass past the tall bound with clearance
/// above; the cell above a tall-grass cell carries its upper half; every
/// other cell keeps its terrain material.
pub open spec fn decorated_cell(t: Seq<Block>, cs: ColumnSamplesView, y: int) -> Block {
    if t[y] == Block::Air && 1 <= y && t[y - 1] == Block::GrassBlock && grass_density_at(cs, y)
        > 5500 {
        if grass_density_at(cs, y) > 7000 && y + 1 < 384 && t[y + 1] == Block::Air {
            Block::TallGrassLower
        } else {
            Block::ShortGrass
        }
    } else if 1 <= y && tall_trigger(t, cs, y - 1) {
        Block::TallGrassUpper
    } else {
        t[y]
    }
}

/// One fully generated column: the terrain pass decorated cell by cell.
pub open spec fn column_spec(cs: ColumnSamplesView) -> Seq<Block> {
    Seq::new(384, |y: int| decorated_cell(terrain_column(cs), cs, y))
}

/// One fully generated region, one column per cell.
pub open spec fn region_spec(s: Seq<ColumnSamplesView>) -> Seq<Seq<Block>> {
    Seq::new(s.len(), |i: int| column_spec(s[i]))
}

/// A sequence prefix that ends in a push pins the cell and the shorter
/// prefix.
proof fn lemma_prefix_push(s: Seq<Block>, t: Seq<Block>, b: Block, y: int)
    requires
        0 <= y < s.len(),
        s.subrange(0, y + 1) == t.push(b),
    ensures
        s[y] == b,
        t == s.subrange(0, y),
{
    assert(s.subrange(0, y + 1).len() == y + 1);
    assert(t.push(b).len() == t.len() + 1);
    assert(t.len() == y);
    assert(t.push(b)[y] == b);
    assert(s.subrange(0, y + 1)[y] == s[y]);
    assert(t =~= s.subrange(0, y)) by {
        assert forall|j: int| 0 <= j < y implies t[j] == s[j] by {
            assert(t.push(b)[j] == t[j]);
            assert(s.subrange(0, y + 1)[j] == s[j]);
        }
    }
}

/// Whether cell `y` of the column is solid terrain.
pub fn has_terrain(cs: &ColumnSamples, y: usize) -> (r: bool)
    requires
        cs.wf(),
        y < 384,
    ensures
        r == terrain_at(cs@, y as int),
{
    let h = cs.hilly[y];
    let hl = lerp(1000, 10000, h as u32);
    proof {
        assert((hl as int) * (hl as int) <= 10000 * 10000) by (nonlinear_arith)
            requires
                0 <= hl <= 10000,
        ;
        assert(0 <= (hl as int) * (hl as int)) by (nonlinear_arith);
        vstd::arithmetic::div_mod::lemma_div_is_ordered(
            (hl as int) * (hl as int),
            100000000int,
            10000int,
        );
    }
    let hilly = ((hl as u64) * (hl as u64) / 10000) as u32;
    let lower: u64 = 150000 + 100 * (hilly as u64);
    let upper: u64 = lower + 100 * (hilly as u64);
    let y_fp: u64 = (y as u64) * 10000;
    if y_fp <= lower {
        true
    } else if y_fp >= upper {
        false
    } else {
        let falloff = lerpstep(lower, upper, y_fp);
        let dens = 10000 - falloff;
        let n = fbm(&cs.density, 4 * y, 4, 1, 2);
        n < dens
    }
}

/// Height below which soil turns to gravel at cell `y`.
pub fn gravel_height_at(cs: &ColumnSamples, y: usize) -> (r: u32)
    requires
        cs.wf(),
        y < 384,
    ensures
        r == gravel_height(cs@, y as int),
        48 <= r <= 54,
{
    let g = fbm(&cs.gravel, 3 * y, 3, 1, 2);
    54 - (g * 6) / 10000
}

/// Soil depth below the surface cell at `y`: one to five.
pub fn surface_depth_at(cs: &ColumnSamples, y: usize) -> (r: u32)
    requires
        cs.wf(),
        y < 384,
    ensures
        r == surf_depth(cs@, y as int),
        1 <= r <= 5,
{
    let sn = cs.stone[y] as u32;
    let d = (5 * sn + 5000) / 10000;
    if d < 1 {
        1
    } else {
        d
    }
}

/// Grass density at cell `y`, in noise units.
pub fn grass_density(cs: &ColumnSamples, y: usize) -> (r: u32)
    requires
        cs.wf(),
        y < 384,
    ensures
        r == grass_density_at(cs@, y as int),
        r <= 10000,
{
    fbm(&cs.grass, 4 * y, 4, 7, 10)
}

/// The terrain pass: scan the column from the world ceiling down, assigning
/// each cell its material.
fn terrain_pass(cs: &ColumnSamples) -> (t: Vec<Block>)
    requires
        cs.wf(),
    ensures
        t@ == terrain_column(cs@),
        t@.len() == 384,
{
    let ghost full = terrain_column(cs@);
    proof {
        lemma_terrain_column_len(cs@, 383, false, 0);
        assert(terrain_column_from(cs@, 383, false, 0) == full.subrange(0, 384)) by {
            assert(full =~= full.subrange(0, 384));
        }
    }
    let mut t: Vec<Block> = Vec::new();
    let mut i: usize = 0;
    while i < 384
        invariant
            t@.len() == i,
            i <= 384,
        decreases 384 - i,
    {
        t.push(Block::Air);
        i = i + 1;
    }
    let mut in_terrain = false;
    let mut depth: u32 = 0;
    let mut yi: usize = 0;
    while yi < 384
        invariant
            cs.wf(),
            full == terrain_column(cs@),
            full.len() == 384,
            t@.len() == 384,
            yi <= 384,
            forall|j: int| 384 - yi <= j < 384 ==> (#[trigger] t@[j]) == full[j],
            terrain_column_from(cs@, 383 - yi as int, in_terrain, depth as int) == full.subrange(
                0,
                384 - yi as int,
            ),
        decreases 384 - yi,
    {
        let y = 383 - yi;
        let ghost in0 = in_terrain;
        let ghost dep0 = depth as int;
        let b: Block;
        if has_terrain(cs, y) {
            if !in_terrain {
                in_terrain = true;
                depth = surface_depth_at(cs, y);
                let gh = gravel_height_at(cs, y);
                b = if (y as u32) < gh {
                    Block::Gravel
                } else if (y as u32) < WATER_HEIGHT {
                    Block::Dirt
                } else {
                    Block::GrassBlock
                };
                proof {
                    assert(b == surface_block(cs@, y as int));
                }
            } else if depth > 0 {
                depth = depth - 1;
                let gh = gravel_height_at(cs, y);
                b = if (y as u32) < gh {
                    Block::Gravel
                } else {
                    Block::Dirt
                };
                proof {
                    assert(b == under_block(cs@, y as int));
                }
            } else {
                b = Block::Stone;
            }
        } else {
            in_terrain = false;
            depth = 0;
            b = if (y as u32) < WATER_HEIGHT {
                Block::Water
            } else {
                Block::Air
            };
            proof {
                assert(b == empty_block(y as int));
            }
        }
        proof {
            lemma_terrain_column_len(cs@, y as int - 1, in_terrain, depth as int);
            assert(terrain_column_from(cs@, y as int, in0, dep0) == terrain_column_from(
                cs@,
                y as int - 1,
                in_terrain,
                depth as int,
            ).push(b));
            lemma_prefix_push(
                full,
                terrain_column_from(cs@, y as int - 1, in_terrain, depth as int),
                b,
                y as int,
            );
        }
        t[y] = b;
        yi = yi + 1;
    }
    proof {
        assert(t@ =~= full);
    }
    t
}

/// The decoration pass: grow short or tall grass in air cells directly
/// above grass blocks, by the grass density.
fn decorate(t: &mut Vec<Block>, cs: &ColumnSamples)
    requires
        cs.wf(),
        old(t)@ == terrain_column(cs@),
        old(t)@.len() == 384,
    ensures
        final(t)@.len() == 384,
        forall|y: int| 0 <= y < 384 ==> (#[trigger] final(t)@[y]) == decorated_cell(
            terrain_column(cs@),
            cs@,
            y,
        ),
{
    let ghost t0 = terrain_column(cs@);
    let mut y: usize = 1;
    while y < 384
        invariant
            cs.wf(),
            t0 == terrain_column(cs@),
            t0.len() == 384,
            t@.len() == 384,
            1 <= y <= 384,
            forall|j: int| 0 <= j < y ==> (#[trigger] t@[j]) == decorated_cell(t0, cs@, j),
            y < 384 ==> t@[y as int] == (if tall_trigger(t0, cs@, y as int - 1) {
                Block::TallGrassUpper
            } else {
                t0[y as int]
            }),
            forall|j: int| y < j < 384 ==> (#[trigger] t@[j]) == t0[j],
        decreases 384 - y,
    {
        let cur = t[y];
        let below = t[y - 1];
        proof {
            assert(t@[y as int - 1] == decorated_cell(t0, cs@, y as int - 1));
            assert(below == Block::GrassBlock <==> t0[y as int - 1] == Block::GrassBlock);
            assert(cur == Block::Air <==> t0[y as int] == Block::Air && !tall_trigger(
                t0,
                cs@,
                y as int - 1,
            ));
        }
        if cur == Block::Air && below == Block::GrassBlock {
            let gd = grass_density(cs, y);
            if gd > GRASS_BOUND {
                if gd > TALL_GRASS_BOUND && y + 1 < 384 && t[y + 1] == Block::Air {
                    proof {
                        assert(t@[y as int + 1] == t0[y as int + 1]);
                        assert(tall_trigger(t0, cs@, y as int));
                    }
                    t[y + 1] = Block::TallGrassUpper;
                    t[y] = Block::TallGrassLower;
                    proof {
                        assert(t@[y as int] == decorated_cell(t0, cs@, y as int));
                    }
                } else {
                    proof {
                        assert(y as int + 1 < 384 ==> t@[y as int + 1] == t0[y as int + 1]);
                        assert(!tall_trigger(t0, cs@, y as int));
                    }
                    t[y] = Block::ShortGrass;
                    proof {
                        assert(t@[y as int] == decorated_cell(t0, cs@, y as int));
                    }
                }
            } else {
                proof {
                    assert(!tall_trigger(t0, cs@, y as int));
                    assert(t@[y as int] == decorated_cell(t0, cs@, y as int));
                }
            }
        } else {
            proof {
                assert(!tall_trigger(t0, cs@, y as int));
                assert(t@[y as int] == decorated_cell(t0, cs@, y as int));
            }
        }
        y = y + 1;
    }
    proof {
        assert(t@[0] == decorated_cell(t0, cs@, 0));
    }
}

/// One fully generated column.
pub fn generate_column(cs: &ColumnSamples) -> (col: Vec<Block>)
    requires
        cs.wf(),
    ensures
        col@ == column_spec(cs@),
        col@.len() == 384,
{
    let mut col = terrain_pass(cs);
    decorate(&mut col, cs);
    proof {
        assert(col@ =~= column_spec(cs@));
    }
    col
}

/// Turns a region's noise samples into its fully populated voxel grid: one
/// terrain scan and one decoration pass per column. The result is a pure
/// function of the samples: the same samples give a bit-identical grid, so a
/// fixed world seed gives a fixed region.
pub struct ColumnGenerator;

impl ColumnGenerator {
    pub fn generate(samples: &RegionSamples) -> (g: VoxelGrid)
        requires
            samples.wf(),
        ensures
            g.wf(),
            g@ == region_spec(samples@),
    {
        let mut cols: Vec<Vec<Block>> = Vec::new();
        let mut i: usize = 0;
        while i < 256
            invariant
                samples.wf(),
                cols@.len() == i,
                i <= 256,
                forall|j: int| 0 <= j < i ==> (#[trigger] cols@[j])@ == column_spec(samples@[j]),
                forall|j: int| 0 <= j < i ==> (#[trigger] cols@[j])@.len() == 384,
            decreases 256 - i,
        {
            proof {
                assert(samples@[i as int] == samples.cols@[i as int]@);
                assert(col_samples_wf(samples@[i as int]));
            }
            let col = generate_column(&samples.cols[i]);
            cols.push(col);
            i = i + 1;
        }
        let g = VoxelGrid::from_columns(cols);
        proof {
            assert(g@ =~= region_spec(samples@));
        }
        g
    }
}

} // verus!
