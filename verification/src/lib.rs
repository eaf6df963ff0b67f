//! A synthetic key-value load generator: numeric generators feed key and
//! record construction for a workload that drives a schema-on-write storage
//! engine, with the work striped across a fixed pool of workers.

pub mod generators;
pub mod db;
pub mod workloads;
pub mod client;
