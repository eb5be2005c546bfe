//! Matching GNG pack files to the areas they serve.

pub mod airac;
