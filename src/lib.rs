//! Mutex Watershed clustering over a union-find forest.
pub mod forest;
pub mod model;
pub mod mutex;
pub mod mutex_sets;
