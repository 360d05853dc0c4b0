//! Verified core of a command-line table filter: it takes delimiter-separated
//! text lines, resolves column identifiers, filters rows by substring match,
//! applies per-column value transformations, sorts stably, and renders an
//! aligned table. Reading input and writing output stay outside this crate.

pub mod casing;
pub mod columns;
pub mod errors;
pub mod json;
pub mod pipeline;
pub mod render;
pub mod rows;
pub mod sort;
pub mod specs;
pub mod text;
pub mod transform;
