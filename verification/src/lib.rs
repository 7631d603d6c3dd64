//! A pretty-printer core for Y86 assembly: raw token lines are normalised to
//! one statement per line, grouped into alignment blocks, and rendered with
//! column-aligned operands.

pub mod document;
pub mod ink;
pub mod normalize;
pub mod plan;
pub mod reformat;
pub mod render;
pub mod segment;
pub mod text;
pub mod token;
