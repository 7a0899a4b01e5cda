//! Heat-overlay core: spatial-to-raster mapping and grid-sampled
//! inverse-distance heat computation over a point feature set.
//!
//! Geographic coordinates are carried as fixed-point integers: one
//! geographic unit (a metre, in the source domain) is `GEO_SCALE` ticks.
//! All arithmetic is exact integer arithmetic, so every formula stated in
//! a contract is the formula the code computes.

pub mod field;
pub mod geom;
pub mod mapper;
pub mod proximity;
pub mod raster;
pub mod sqrt;
