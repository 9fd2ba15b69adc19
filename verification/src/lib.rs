//! A small software rasterizer: Bresenham lines, a block-based triangle
//! coverage scan, and the parsing of Wavefront OBJ meshes.

pub mod screen;
pub mod line;
pub mod triangle;
pub mod triangle_laws;
pub mod obj;
