//! Flamegraph stacks from callgrind call graphs, with verified contracts.
pub mod assoc;
pub mod branching;
pub mod decimal;
pub mod fixture_files;
pub mod fixture_programs;
pub mod flamegraph;
pub mod id;
pub mod metrics;
pub mod path;
pub mod recursive;
pub mod sorting;
pub mod stacks;
pub mod tables;
