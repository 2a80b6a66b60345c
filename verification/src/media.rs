//! The registries of base paths and of media files.

pub mod base_paths;
pub mod media;
