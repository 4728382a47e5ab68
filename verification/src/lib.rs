//! Structural statistics of a static sparse graph: degrees, clustering and
//! common neighbors, each computed sequentially and on a worker pool.

pub mod buckets;
pub mod cv_1;
pub mod cv_2;
pub mod distribution;
pub mod finite;
pub mod functions;
pub mod functions_par;
pub mod model;
pub mod parallel;
pub mod sorting;
pub mod table;
pub mod text;
