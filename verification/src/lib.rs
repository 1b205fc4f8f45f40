//! Scanline rasterisation of polygons on the integer pixel grid.
//!
//! A polygon is a closed ring of integer vertices. Filling it sweeps a
//! horizontal line from its topmost to its bottommost row and reports, for
//! every row, the ascending list of points where the ring crosses that row.
//! Consecutive pairs of crossings bound the runs of pixels inside the polygon.
//! Crossings are tracked as exact rationals, so a row never depends on the
//! rows that were swept before it.
//!
//! A polygon whose vertices carry depths is filled through a depth map that
//! the polygons of a frame share: a pixel is written where the polygon is
//! nearer than what the map holds for it. Depths are whole numbers, and a
//! greater depth is nearer.
//!
//! The library decides what is to be drawn and draws nothing itself: a fill
//! comes back as rows of spans or as a list of pixels, an outline as a
//! closed line of points.
pub mod geometry;
pub mod rounding;
pub mod edge;
pub mod seq_facts;
pub mod pairing;
pub mod scan;
pub mod ring;
pub mod style;
pub mod polygon;
pub mod depth_map;
pub mod depth;
pub mod polygon_3d;
