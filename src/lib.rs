//! Stroke capture and tessellation for a screen annotation overlay.
//!
//! Pointer samples in physical pixels are mapped to a normalized space
//! spanning the overlay rectangle, turned into triangle quads, smoothed when
//! a stroke ends, and grouped into undoable units. All geometry is kept in
//! fixed point: a normalized coordinate `c` stands for `c / ONE`.
pub mod fixed;
pub mod geometry;
pub mod mapper;
pub mod reticle;
pub mod session;
pub mod smoother;
pub mod style;
pub mod tessellator;
