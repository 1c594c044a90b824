//! Outlines of point-cloud tiles: coordinate reference system resolution and
//! consolidation of per-tile outline polygons.

pub mod components;
pub mod config;
pub mod crs_utils;
pub mod geometry;
pub mod las_feature_collection;
pub mod outline;
pub mod properties;
pub mod text;

pub use config::ProcessConfig;
pub use crs_utils::{extract_crs_from_geotiff, Crs, CrsError};
