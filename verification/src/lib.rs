//! The decision logic of a terrain-RGB tile generator: which tiles are asked for, what each
//! outcome does to the run, how the work is staged on disk and how the archive is put together.

pub mod archive;
pub mod coverage;
pub mod frontier;
pub mod generation;
pub mod image_format;
pub mod mbtiles;
pub mod mbtiles_coverage;
pub mod mbtiles_flow;
pub mod options;
pub mod pipeline;
pub mod pmtiles_flow;
pub mod progress;
pub mod pyramid;
pub mod raster;
pub mod spool;
pub mod text;
pub mod tile_id;
