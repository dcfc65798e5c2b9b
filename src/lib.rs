//! Directory size aggregation and tree rendering over an in-memory snapshot
//! of a filesystem hierarchy.

pub mod snapshot;
pub mod utils;
pub mod scan;
pub mod tree;
