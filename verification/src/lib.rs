//! A planner for graphs of noise nodes: from a graph and queries on it to the
//! kernels, buffers and summaries that answer them.

pub mod backend;
pub mod batch;
pub mod combine;
pub mod compile;
pub mod error;
pub mod graph;
pub mod kernel;
pub mod kernel_payload;
pub mod layout;
pub mod model;
pub mod noise;
pub mod order;
pub mod payload;
pub mod plan;
pub mod planner;
pub mod query;
pub mod schedule;
pub mod state;
pub mod summary;
pub mod text;
pub mod walk;
