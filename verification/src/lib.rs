//! Verified core of a LiDAR power-line extraction pipeline: the occupancy
//! raster and its morphology, the grid of cells, the height histogram of a
//! cell, the voxel density filter, the clustering of wire points and the
//! removal of plane inliers.
pub mod raster;
pub mod morph;
pub mod morph_laws;
pub mod grid;
pub mod density;
pub mod histogram;
pub mod pca;
pub mod semantics;
