//! Discovery of Linux namespaces held by running processes, and the decisions
//! a worker makes while it switches into them.

pub mod advanced;
pub mod basic;
