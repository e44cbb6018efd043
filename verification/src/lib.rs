//! Degrees-of-connection between film actors.
//!
//! The library builds a mirrored actor/movie appearance index, runs a
//! breadth-first search for the shortest chain of shared roles between two
//! actors, and resolves free-text actor names to unique identifiers with
//! exact matching, homonym disambiguation and fuzzy suggestions.

pub mod configuration;
pub mod connections;
pub mod data;
pub mod graph;
pub mod resolver;
