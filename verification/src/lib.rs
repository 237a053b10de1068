//! Voxel-grid tools for 3D point clouds.
//!
//! The library reduces and regularizes point clouds with a uniform spatial
//! grid: it collapses points into occupied grid cells and emits one centroid
//! per cell (voxel downsampling, with optional color / intensity /
//! classification attributes), it enumerates the occupied cells and emits
//! their geometric centers (debug wireframes), and it relaxes point positions
//! toward local neighborhood averages within a radius (smoothing).
//!
//! Coordinates are fixed-point integers: a caller picks a unit (say, a
//! millimeter, or a power-of-two fraction of a meter), scales its coordinates
//! by that unit, and every computation here is exact. Cell indices truncate
//! toward negative infinity, so points below the grid origin land in the
//! correct cells.

pub mod aggregate;
pub mod cell_table;
pub mod debug_centers;
pub mod downsample;
pub mod grid;
pub mod point;
pub mod smoothing;
pub mod voxel;
