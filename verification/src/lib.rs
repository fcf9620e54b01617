//! A grid-rewriting engine: a 2D grid of categorized cells is evolved by
//! repeatedly finding one straight-line occurrence of a rewrite rule's
//! left-hand sequence and replacing it with the right-hand sequence.
//!
//! The crate proves the core data-structure invariants: the grid is a dense
//! array of cells, the category index always mirrors the grid's categories,
//! the matcher only ever returns straight-line duplicate-free paths, and a
//! tick commits at most one rewrite.

pub mod category;
pub mod engine;
pub mod grid;
pub mod index;
pub mod matcher;
pub mod random;
pub mod rules;
pub mod tile;
