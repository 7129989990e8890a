pub mod diff;
pub mod incremental;
pub mod param_mapping;
pub mod consistency;
