//! Novelty search for seed patterns of a two-state cellular automaton.
//!
//! The grid engine is `universe`, stated over the mathematical model of a
//! grid in `grid` and `count`; `text` and `frame` read and write universes.
//! The search is `novelty_search`, over `individual`, `archive`, `selection`
//! and `config`; `random` holds the one call into the generator.

pub mod archive;
pub mod cells;
pub mod config;
pub mod count;
pub mod frame;
pub mod grid;
pub mod individual;
pub mod lcell;
pub mod novelty_search;
pub mod random;
pub mod selection;
pub mod text;
pub mod universe;
