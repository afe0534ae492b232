//! Routing engine for wind-driven voyages: the decisions, grids, file formats
//! and searches of the engine, with machine-checked contracts.
pub mod auto_bounds;
pub mod axes;
pub mod baked_codec;
pub mod bounds;
pub mod bytes;
pub mod calendar;
pub mod config;
pub mod dates;
pub mod ensemble;
pub mod fetch;
pub mod fetch_ensemble;
pub mod fmt;
pub mod frontier;
pub mod given;
pub mod grib2;
pub mod io;
pub mod io_error;
pub mod landmass;
pub mod metrics;
pub mod number;
pub mod paths;
pub mod route;
pub mod scenario;
pub mod search;
pub mod solution;
pub mod text;
pub mod wind_av1;
pub mod wind_map;
