//! Index bookkeeping for gravity-based edge bundling.
//!
//! The simulation itself runs on floating-point fields (potential, force,
//! control-point coordinates); this library holds the integer structure that
//! those fields are laid out in and moved through, with its contracts proved:
//!
//! - [`grid`]: row-major grids, their transposition, zero-padding, cropping,
//!   interleaving, finite-difference stencils and bilinear cells;
//! - [`layout`]: where the control points of every edge live in the flat
//!   coordinate buffer, the per-point metadata handed to the GPU, and the
//!   relaxation sweep that moves interior points only;
//! - [`gpu`]: the dispatch and ping-pong bookkeeping of the GPU pipeline.

pub mod gpu;
pub mod grid;
pub mod layout;
