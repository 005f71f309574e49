//! Bounded tracker of the largest files seen during a directory scan.

pub mod grouping;
pub mod laws;
pub mod model;
pub mod report;
pub mod scan;
pub mod store;
pub mod tracker;
