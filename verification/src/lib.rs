//! A software 3D rendering library: Bresenham-style scan conversion of lines,
//! back-face-culled scanline-filled triangles, a homogeneous transform stack,
//! and a line-oriented script interpreter that drives them. All geometry is
//! carried in fixed-point milli-units (see `fx`).
pub mod fx;
pub mod canvas;
pub mod geom;
pub mod laws;
pub mod raster;
pub mod script;
pub mod shapes;
pub mod stack;
pub mod transform;
pub mod vector;
