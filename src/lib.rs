//! Geometry and rasterization core of a regular-polygon plotting tool.
//!
//! Angles are held in millidegrees and pixel coordinates as integers; the
//! canvas is a row-major RGBA byte buffer.
pub mod canvas;
pub mod geometry;
pub mod label;
pub mod render;
