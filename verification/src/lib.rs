//! Verified core of a terminal viewer for Zarr geospatial datasets: chunk
//! geometry, the least-recently-used chunk cache, the chunk loading schedule,
//! colormap selection, dataset layout discovery and storage location parsing.
pub mod cache;
pub mod chunk_manager;
pub mod colormap;
pub mod dataset;
pub mod viewer;
pub mod storage;
