//! Word ladders: graphs whose vertices are the words of one length and whose
//! edges join words that differ in exactly one position.
//!
//! - `corpus`: words grouped by length.
//! - `adjacency`: the one-letter-apart relation and the adjacency-file lines of a bucket.
//! - `graph`, `loader`, `components`: the vertex arena, loading it from
//!   adjacency lines, and its connected components.
//! - `stats`: per-length statistics of a graph.
//! - `longest_path`: the chain walk from each word and the words still to do.
//! - `completed`, `directories`, `dictionary`, `text`: supporting pieces.
use vstd::prelude::*;

pub mod adjacency;
pub mod completed;
pub mod components;
pub mod corpus;
pub mod dictionary;
pub mod directories;
pub mod graph;
pub mod loader;
pub mod longest_path;
pub mod stats;
pub mod text;

verus! {

} // verus!
