//! Incremental mirroring of pull requests and reviews: the decisions of a sync
//! pass (when to stop paging, which pull requests to refresh, in which order,
//! what to write) and the reports over the mirrored records.
pub mod cache;
pub mod delta;
pub mod driver;
pub mod frontier;
pub mod guarantees;
pub mod model;
pub mod report;
pub mod text;
