//! Progress tracking for a catalog of collection bundles: an in-memory store of
//! bundles and items with verified insertion, status updates, ordered listings
//! and aggregate statistics, plus the one-time catalog loader.

pub mod loader;
pub mod models;
pub mod order;
pub mod store;
