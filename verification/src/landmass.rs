//! Land and sea: cell grids, distance fields and sea routes between cells.
pub mod astar;
pub mod distance;
pub mod grid;
pub mod outlines;
pub mod patches;
pub mod places;
pub mod raster;
pub mod shapes;
pub mod snap;
pub mod tiers;
pub mod two_tier;
pub mod walk;
pub mod ways;
