//! Block-level comparison of two byte streams, and selective patching of the
//! second so that it matches the first.
//!
//! Both streams are cut into fixed-size blocks. Corresponding blocks are
//! compared byte for byte; differing blocks are either reported or overwritten
//! in the destination, leaving matching regions untouched.

pub mod stream;
pub mod memory;
pub mod fill;
pub mod types;
pub mod model;
pub mod engine;
pub mod laws;
pub mod layout;
pub mod cli;
pub mod size;
