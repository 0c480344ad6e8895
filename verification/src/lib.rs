//! Greedy nearest-color chaining over named RGB colors.
//!
//! The crate models web colors as RGB triples, parses and formats the
//! `#RRGGBB` hex form, and orders a set of named colors by a greedy
//! nearest-neighbor traversal of the RGB metric space.

pub mod chain;
pub mod color;
pub mod order;
