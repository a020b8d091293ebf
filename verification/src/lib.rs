//! Verified core of a small filesystem backend for a project GUI shell.
//!
//! The shell performs the actual operating-system calls (reading
//! directories, probing metadata, reading and writing files) and hands
//! their plain results to this crate, which holds every decision: how a
//! directory listing is filtered and ordered into a tree, how a target
//! path is formed, how each failure is reported.

pub mod commands;
pub mod order;
pub mod tree;
