//! Finds a browser's profiles on disk and ranks the sites each profile visited most.

pub mod domain;
pub mod pattern;
pub mod scan;
pub mod firefox;
