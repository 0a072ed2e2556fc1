//! The closing workload: a multi-process pipeline on the kernel, the same
//! pipeline with ambient authority as a reference, and the data work both
//! share.
pub mod baseline;
pub mod chaos;
pub mod data;
pub mod flow;
pub mod harness;
pub mod pipeline;
pub mod rng;
pub mod schedule;
