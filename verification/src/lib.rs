//! Core logic of an IoT edge platform: device shadows, bucketed time series
//! and data-configuration resolution.

pub mod api;
pub mod calendar;
pub mod certs;
pub mod clock;
pub mod config_store;
pub mod dataconfig;
pub mod db;
pub mod float;
pub mod json;
pub mod keys;
pub mod merge;
pub mod metric;
pub mod models;
pub mod pointer;
pub mod processor;
pub mod series_store;
pub mod shadow;
pub mod shadow_store;
pub mod timeseries;
pub mod write_order;
