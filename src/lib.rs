//! A pool of exclusive-use forks contended for by philosophers that each need
//! two of them at once, with the acquisition policies that decide the order in
//! which a philosopher picks its forks up, and a scheduler over the whole table
//! whose runs are proved free of double ownership and, under the global order,
//! free of deadlock.

pub mod agent;
pub mod authors;
pub mod config;
pub mod harness;
pub mod pixel;
pub mod pool;
