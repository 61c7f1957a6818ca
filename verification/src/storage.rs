//! What is kept between uploads: the dictionary, the symbol records and the
//! per-object metadata.

pub mod dictionary;
pub mod layout;
pub mod metadata;
pub mod symbols;
