//! Finds the working directory that belongs to what a terminal is doing now:
//! the deepest terminal-attached descendant of a process, found by a walk of
//! its process tree that tolerates failed reads at every node.
//!
//! The walk is a state machine ([`walker::Walker`]): it asks for one fact about
//! one process at a time and is told the answer, so that the library holds
//! every decision while the caller does the reading.

pub mod candidate;
pub mod laws;
pub mod outcome;
pub mod walker;
