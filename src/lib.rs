//! Selects the transitive dependencies of a lockfile's graph level by level,
//! and picks for each package the newest release published before a cutoff.
pub mod graph;
pub mod versions;
