//! Spatial region streaming for a procedurally generated voxel world:
//! per-viewer view diffing, a pending-region registry with priority and
//! dedup semantics, deterministic fixed-point terrain generation, a world
//! store keyed by region coordinate, and the eviction policy for regions
//! nobody watches any more.

pub mod assoc;
pub mod block;
pub mod commands;
pub mod control;
pub mod coord;
pub mod field;
pub mod gen;
pub mod fixed;
pub mod grid;
pub mod registry;
pub mod store;
pub mod view;
