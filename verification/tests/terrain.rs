//! Terrain generation: exact fixed-point arithmetic values, the column scan
//! on hand-built samples, and determinism of the full pipeline when the
//! samples come from real coherent noise.

use noise::{NoiseFn, SuperSimplex};

use crystal::block::Block;
use crystal::coord::RegionCoordinate;
use crystal::field::{column_world_xz, ColumnSamples, NoiseField, RegionSamples};
use crystal::fixed::{fbm, lerp, lerpstep};
use crystal::gen::{generate_column, ColumnGenerator};
use crystal::grid::VoxelGrid;

#[test]
fn lerp_exact() {
    assert_eq!(lerp(1000, 10000, 0), 1000);
    assert_eq!(lerp(1000, 10000, 10000), 10000);
    assert_eq!(lerp(1000, 10000, 5000), 5500);
}

#[test]
fn lerpstep_exact() {
    assert_eq!(lerpstep(0, 100, 50), 5000);
    assert_eq!(lerpstep(100, 200, 100), 0);
    assert_eq!(lerpstep(100, 200, 250), 10000);
    assert_eq!(lerpstep(160000, 170000, 163000), 3000);
}

#[test]
fn fbm_exact() {
    // weights for three octaves at persistence 1/2 are 4, 2, 1
    let samples: Vec<u16> = vec![10000, 0, 0];
    assert_eq!(fbm(&samples, 0, 3, 1, 2), 40000 / 7);
    let flat: Vec<u16> = vec![2500, 2500, 2500];
    assert_eq!(fbm(&flat, 0, 3, 1, 2), 2500);
    // weights for four octaves at persistence 7/10 are 1000, 700, 490, 343
    let grassy: Vec<u16> = vec![10000, 0, 0, 0];
    assert_eq!(fbm(&grassy, 0, 4, 7, 10), 10000 * 1000 / 2533);
}

fn zero_column() -> ColumnSamples {
    ColumnSamples {
        hilly: vec![0; 384],
        stone: vec![0; 384],
        density: vec![0; 4 * 384],
        gravel: vec![0; 3 * 384],
        grass: vec![0; 4 * 384],
    }
}

#[test]
fn zero_samples_column_profile() {
    // hilliness 0 remaps to 0.1, squared: the band is [16.0, 17.0], so cells
    // up to 16 are solid and everything above is empty. Zero gravel noise
    // puts the gravel line at 54, zero stone noise gives soil depth 1.
    let col = generate_column(&zero_column());
    assert_eq!(col.len(), 384);
    assert_eq!(col[16], Block::Gravel);
    assert_eq!(col[15], Block::Gravel);
    for y in 0..15 {
        assert_eq!(col[y], Block::Stone);
    }
    for y in 17..55 {
        assert_eq!(col[y], Block::Water);
    }
    for y in 55..384 {
        assert_eq!(col[y], Block::Air);
    }
}

#[test]
fn grass_grows_on_exposed_grass_blocks() {
    // Lift the terrain band above the water line so the surface is a grass
    // block, then ask for tall grass right above it.
    let mut cs = zero_column();
    for y in 0..384 {
        cs.hilly[y] = 10000; // band [115.0, 215.0]
    }
    cs.density = vec![10000; 4 * 384]; // full density never beats the falloff
    for o in 0..4 {
        cs.grass[4 * 116 + o] = 10000; // the cell above the surface
    }
    let col = generate_column(&cs);
    assert_eq!(col[115], Block::GrassBlock);
    assert_eq!(col[116], Block::TallGrassLower);
    assert_eq!(col[117], Block::TallGrassUpper);
    assert_eq!(col[118], Block::Air);

    // at a density past the short bound only, a single blade
    let mut cs2 = zero_column();
    for y in 0..384 {
        cs2.hilly[y] = 10000;
    }
    cs2.density = vec![10000; 4 * 384];
    for o in 0..4 {
        cs2.grass[4 * 116 + o] = 6000;
    }
    let col2 = generate_column(&cs2);
    assert_eq!(col2[115], Block::GrassBlock);
    assert_eq!(col2[116], Block::ShortGrass);
    assert_eq!(col2[117], Block::Air);
}

fn noise01(s: &SuperSimplex, x: f64, y: f64, z: f64) -> u16 {
    let v = s.get([x, y, z]);
    let u = ((v + 1.0) / 2.0).clamp(0.0, 1.0);
    (u * 10000.0).round() as u16
}

fn octaves(s: &SuperSimplex, out: &mut Vec<u16>, wx: f64, wy: f64, wz: f64, scale: f64, n: u32) {
    let mut freq = 1.0;
    for _ in 0..n {
        out.push(noise01(s, wx * freq / scale, wy * freq / scale, wz * freq / scale));
        freq *= 2.0;
    }
}

fn sample_column(field: &NoiseField, wx: i64, wz: i64) -> ColumnSamples {
    let density = SuperSimplex::new(field.density_seed);
    let hilly = SuperSimplex::new(field.hilly_seed);
    let stone = SuperSimplex::new(field.stone_seed);
    let gravel = SuperSimplex::new(field.gravel_seed);
    let grass = SuperSimplex::new(field.grass_seed);
    let mut cs = ColumnSamples {
        hilly: Vec::new(),
        stone: Vec::new(),
        density: Vec::new(),
        gravel: Vec::new(),
        grass: Vec::new(),
    };
    let (fx, fz) = (wx as f64, wz as f64);
    for y in 0..384 {
        let fy = y as f64;
        cs.hilly.push(noise01(&hilly, fx / 400.0, fy / 400.0, fz / 400.0));
        cs.stone.push(noise01(&stone, fx / 15.0, fy / 15.0, fz / 15.0));
        octaves(&density, &mut cs.density, fx, fy, fz, 100.0, 4);
        octaves(&gravel, &mut cs.gravel, fx, fy, fz, 10.0, 3);
        octaves(&grass, &mut cs.grass, fx, fy, fz, 5.0, 4);
    }
    cs
}

fn sample_region(seed: u32, region: RegionCoordinate) -> RegionSamples {
    let field = NoiseField::new(seed);
    let mut cols = Vec::new();
    for col in 0..256 {
        let (wx, wz) = column_world_xz(region, col);
        cols.push(sample_column(&field, wx, wz));
    }
    RegionSamples { cols }
}

fn grids_equal(a: &VoxelGrid, b: &VoxelGrid) -> bool {
    for x in 0..16 {
        for z in 0..16 {
            for y in 0..384 {
                if a.get_block(x, y, z) != b.get_block(x, y, z) {
                    return false;
                }
            }
        }
    }
    true
}

#[test]
fn column_generation_is_deterministic() {
    let field = NoiseField::new(20260101);
    let a = generate_column(&sample_column(&field, 37, -12));
    let b = generate_column(&sample_column(&field, 37, -12));
    assert_eq!(a, b);
    // a different seed changes the column somewhere
    let other = NoiseField::new(20260102);
    let c = generate_column(&sample_column(&other, 37, -12));
    assert_ne!(a, c);
}

#[test]
fn region_generation_is_deterministic() {
    let region = RegionCoordinate::new(2, -1);
    let a = ColumnGenerator::generate(&sample_region(99, region));
    let b = ColumnGenerator::generate(&sample_region(99, region));
    assert!(grids_equal(&a, &b));
}

#[test]
fn generated_region_has_terrain_and_sky() {
    let region = RegionCoordinate::new(0, 0);
    let g = ColumnGenerator::generate(&sample_region(7, region));
    // the very bottom is always inside the band, the ceiling always above it
    for x in 0..16 {
        for z in 0..16 {
            assert_ne!(g.get_block(x, 0, z), Block::Air);
            assert_ne!(g.get_block(x, 0, z), Block::Water);
            assert_eq!(g.get_block(x, 383, z), Block::Air);
        }
    }
}

#[test]
fn noise_field_seeds_are_consecutive() {
    let f = NoiseField::new(u32::MAX);
    assert_eq!(f.density_seed, u32::MAX);
    assert_eq!(f.hilly_seed, 0);
    assert_eq!(f.stone_seed, 1);
    assert_eq!(f.gravel_seed, 2);
    assert_eq!(f.grass_seed, 3);
}
