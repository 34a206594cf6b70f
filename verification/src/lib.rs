//! Live cgroup v2 resource usage: the file-format parsers, the byte and
//! number formatting, and the renderers, with their contracts.
pub mod cli;
pub mod task;
pub mod utils;
