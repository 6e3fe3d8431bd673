//! Extraction of the tables of an HTML document into rectangular grids of
//! strings, with `colspan`/`rowspan` merges expanded into empty slots.

pub mod dom;
pub mod extract;
pub mod normalize;
pub mod source;
pub mod spans;
pub mod text;
