//! Keeps a local music library in step with a remote catalog: an incremental
//! scanner over a modelled directory tree, a persistent per-artist catalog
//! store, a local-versus-remote reconciliation pass, and a per-item-isolated
//! upload pipeline.

pub mod codec;
pub mod config;
pub mod models;
pub mod reconcile;
pub mod scanner;
pub mod store;
pub mod strings;
pub mod upload;
