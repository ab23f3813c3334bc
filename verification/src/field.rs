//! The noise field configuration: the five sampler seeds derived from one
//! world seed, the sampling scales of the terrain rules, and the containers
//! for the fixed-point samples the generator consumes.
//!
//! A sample is a coherent-noise value remapped into [0, NOISE_ONE]: the
//! sampler for field `f` is seeded with the field's seed, evaluated at the
//! world-cell point divided by the field's scale (times the octave's
//! frequency for fractal-sum fields), and its raw [-1, 1] output is mapped
//! through `(v + 1) / 2` into noise units.

use vstd::prelude::*;

use crate::coord::RegionCoordinate;

verus! {

/// Divisor of the sample point for the hilliness field.
pub const HILLY_SCALE: u32 = 400;

/// Divisor of the sample point for the density field.
pub const DENSITY_SCALE: u32 = 100;

/// Divisor of the sample point for the stone-depth field.
pub const STONE_SCALE: u32 = 15;

/// Divisor of the sample point for the gravel-depth field.
pub const GRAVEL_SCALE: u32 = 10;

/// Divisor of the sample point for the grass-density field.
pub const GRASS_SCALE: u32 = 5;

/// Octaves of the density fractal sum.
pub const DENSITY_OCTAVES: u32 = 4;

/// Octaves of the gravel fractal sum.
pub const GRAVEL_OCTAVES: u32 = 3;

/// Octaves of the grass fractal sum.
pub const GRASS_OCTAVES: u32 = 4;

/// Frequency multiplier from one octave to the next.
pub const LACUNARITY: u32 = 2;

/// Density and gravel persistence: 1/2 per octave.
pub const HALF_PERSISTENCE_NUM: u64 = 1;

pub const HALF_PERSISTENCE_DEN: u64 = 2;

/// Grass persistence: 7/10 per octave.
pub const GRASS_PERSISTENCE_NUM: u64 = 7;

pub const GRASS_PERSISTENCE_DEN: u64 = 10;

/// The five sampler seeds, each derived deterministically from the world
/// seed, so one world seed fixes the whole terrain.
pub struct NoiseField {
    pub density_seed: u32,
    pub hilly_seed: u32,
    pub stone_seed: u32,
    pub gravel_seed: u32,
    pub grass_seed: u32,
}

impl NoiseField {
    pub fn new(world_seed: u32) -> (r: NoiseField)
        ensures
            r.density_seed == world_seed,
            r.hilly_seed == (world_seed + 1) % 0x100000000,
            r.stone_seed == (world_seed + 2) % 0x100000000,
            r.gravel_seed == (world_seed + 3) % 0x100000000,
            r.grass_seed == (world_seed + 4) % 0x100000000,
    {
        NoiseField {
            density_seed: world_seed,
            hilly_seed: world_seed.wrapping_add(1),
            stone_seed: world_seed.wrapping_add(2),
            gravel_seed: world_seed.wrapping_add(3),
            grass_seed: world_seed.wrapping_add(4),
        }
    }
}

/// The world-cell x and z of column `col` of region `c`: what the sample
/// points of that column are built from.
pub fn column_world_xz(c: RegionCoordinate, col: u32) -> (r: (i64, i64))
    requires
        col < 256,
    ensures
        r.0 == c.x * 16 + (col % 16),
        r.1 == c.z * 16 + (col / 16),
{
    ((c.x as i64) * 16 + (col % 16) as i64, (c.z as i64) * 16 + (col / 16) as i64)
}

/// The fixed-point samples of one column, one entry per world height for the
/// single-sample fields and one per octave and height for the fractal-sum
/// fields, each laid out with the octaves of height `y` adjacent.
pub struct ColumnSamples {
    pub hilly: Vec<u16>,
    pub stone: Vec<u16>,
    pub density: Vec<u16>,
    pub gravel: Vec<u16>,
    pub grass: Vec<u16>,
}

pub ghost struct ColumnSamplesView {
    pub hilly: Seq<u16>,
    pub stone: Seq<u16>,
    pub density: Seq<u16>,
    pub gravel: Seq<u16>,
    pub grass: Seq<u16>,
}

impl View for ColumnSamples {
    type V = ColumnSamplesView;

    open spec fn view(&self) -> ColumnSamplesView {
        ColumnSamplesView {
            hilly: self.hilly@,
            stone: self.stone@,
            density: self.density@,
            gravel: self.gravel@,
            grass: self.grass@,
        }
    }
}

/// Right lengths, and every sample in noise units.
pub open spec fn col_samples_wf(cs: ColumnSamplesView) -> bool {
    &&& cs.hilly.len() == 384
    &&& cs.stone.len() == 384
    &&& cs.density.len() == 4 * 384
    &&& cs.gravel.len() == 3 * 384
    &&& cs.grass.len() == 4 * 384
    &&& forall|j: int| 0 <= j < cs.hilly.len() ==> (#[trigger] cs.hilly[j]) <= 10000
    &&& forall|j: int| 0 <= j < cs.stone.len() ==> (#[trigger] cs.stone[j]) <= 10000
    &&& forall|j: int| 0 <= j < cs.density.len() ==> (#[trigger] cs.density[j]) <= 10000
    &&& forall|j: int| 0 <= j < cs.gravel.len() ==> (#[trigger] cs.gravel[j]) <= 10000
    &&& forall|j: int| 0 <= j < cs.grass.len() ==> (#[trigger] cs.grass[j]) <= 10000
}

impl ColumnSamples {
    pub open spec fn wf(self) -> bool {
        col_samples_wf(self@)
    }
}

/// The samples of a whole region, one column set per cell, ordered by
/// `spec_col_index`.
pub struct RegionSamples {
    pub cols: Vec<ColumnSamples>,
}

impl View for RegionSamples {
    type V = Seq<ColumnSamplesView>;

    open spec fn view(&self) -> Seq<ColumnSamplesView> {
        self.cols@.map_values(|c: ColumnSamples| c@)
    }
}

pub open spec fn region_samples_wf(s: Seq<ColumnSamplesView>) -> bool {
    &&& s.len() == 256
    &&& forall|i: int| 0 <= i < s.len() ==> col_samples_wf(#[trigger] s[i])
}

impl RegionSamples {
    pub open spec fn wf(self) -> bool {
        region_samples_wf(self@)
    }
}

} // verus!
