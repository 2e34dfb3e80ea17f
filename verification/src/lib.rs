//! Connectivity ledger for a port-level directed graph.
//!
//! The [`matrix`] module stores directed edge records sorted by their
//! (row, col, port) key and answers point lookups, adjacency queries and
//! degree counts over them. The [`pool`] module is a small free-list that
//! hands out and reclaims resource values such as node identifiers.

pub mod matrix;
pub mod pool;
