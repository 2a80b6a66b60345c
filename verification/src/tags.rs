//! The registries of tag categories and of tags.

pub mod category;
pub mod tags;
