//! Memory-allocation tracking of a process tree, as far as it is computation:
//! decoding what the kernel side records, rebuilding which executable mappings
//! each process had, finding the modules that they loaded, and deciding what a
//! tracker, a poller or a ring does next.

pub mod artifacts;
pub mod bindings;
pub mod bytes;
pub mod cpus;
pub mod encoding;
pub mod events;
pub mod kernel;
pub mod mapping_records;
pub mod metadata;
pub mod module_artifacts;
pub mod module_scan;
pub mod perf_mappings;
pub mod perf_open;
pub mod perf_ring;
pub mod poller;
pub mod replay;
pub mod session;
pub mod sort;
pub mod stacks;
pub mod support;
pub mod text;
pub mod tracker;
