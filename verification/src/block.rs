//! Block materials a generated region can hold.

use vstd::prelude::*;

verus! {

/// The material of one voxel. Terrain cells are stone, dirt, gravel or a
/// grass block; non-terrain cells are air or water; the decoration pass may
/// put short grass, or the two halves of tall grass, in air cells directly
/// above a grass block.
#[derive(Clone, Copy, PartialEq, Eq, Debug, Structural)]
pub enum Block {
    Air,
    Water,
    Stone,
    Dirt,
    GrassBlock,
    Gravel,
    ShortGrass,
    TallGrassLower,
    TallGrassUpper,
}

} // verus!
