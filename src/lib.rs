//! An inline formatting engine: it breaks inline-level content into line
//! boxes that fit a float-constrained band and assigns every fragment its
//! final position.
pub mod geometry;
pub mod replaced;
pub mod text;
pub mod floats;
pub mod inline;
pub mod layout_box;
