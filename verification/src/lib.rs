//! A software rasterization pipeline on integers.
//!
//! Triangles given by integer screen positions are resolved into covered
//! pixels, lines are stepped pixel by pixel, and every pixel write goes
//! through a depth test into a framebuffer that owns a color plane and a
//! depth plane. Colors are fixed-point with 255 as full intensity; depths are
//! ordered integer keys.

pub mod color;
pub mod depth;
pub mod framebuffer;
pub mod line;
pub mod pipeline;
pub mod triangle;
