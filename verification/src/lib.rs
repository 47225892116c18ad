//! Integer core of a software 3D rasterizer: edge functions and triangle
//! coverage, colour and depth surfaces, the plan of a polygon clip and the
//! structure of a mesh description.

pub mod math;
pub mod render;
pub mod raster;
pub mod clip;
pub mod text;
pub mod scene;
