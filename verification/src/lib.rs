//! Analysis of a directed acyclic graph described by numeric parent
//! references: reference inversion, breadth-first depth labeling, and the
//! integer totals behind the reported averages.

pub mod cli;
pub mod database;
pub mod errors;
pub mod graph;
pub mod vertex;
