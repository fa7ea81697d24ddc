//! Sample format definitions built from the pattern language.

pub mod bitmap;
