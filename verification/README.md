# lidar_processing

Power-line extraction from airborne LiDAR point clouds. The cloud is divided
into a grid of cells; a local height histogram keeps the cells whose points
form isolated layers; the occupancy raster of the cells is cleaned by
dilation and erosion; a voxel density filter then drops over-dense height
slices of the kept cells.

- `src/` is the verified library (Verus):
  - `raster` – the mathematical model of the occupancy raster;
  - `morph` – padding, erosion (8-neighbourhood and profile erosion),
    dilation, the occupancy raster of a grid and its cell count, with the
    laws that erosion never occupies and dilation never empties a cell;
  - `grid` – placement of points in grid cells;
  - `density` – the voxel density filter;
  - `histogram` – the per-cell height histogram and its isolated clusters;
  - `pca` – clustering of candidate wire points by chains of neighbours;
  - `semantics` – removal of the inliers of a detected plane.
- `app/` is the program around it: LAS input and output, the floating-point
  geometry (bounding boxes, heights, kd-tree searches, eigen decompositions,
  RANSAC sampling) and the pipeline.
- `tests/` exercises the library on concrete rasters, histograms and grids.
