//! Greedy contraction sequences for twin-width.

pub mod gr;
pub mod graph;
pub mod greedy;
pub mod labels;
pub mod model;
pub mod report;
pub mod walk;
