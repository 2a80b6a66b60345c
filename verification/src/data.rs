//! The records of the catalogue.

pub mod base_path;
pub mod media_file;
pub mod media_tag;
pub mod tag;
pub mod tag_category;
