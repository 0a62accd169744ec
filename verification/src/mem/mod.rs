//! Memory management for lock-free data structures.

pub mod epoch;
