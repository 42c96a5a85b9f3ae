//! The BetterVoxel documentation tool's logic: checking hand-authored
//! content against the engine's API dump, and building the book pages
//! and the documentation database from the two.
pub mod text;
pub mod keyed;
pub mod dump;
pub mod content;
pub mod generate;
pub mod docs;
pub mod snippets;
