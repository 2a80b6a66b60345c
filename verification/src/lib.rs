//! A catalogue of media files: registered base paths, the media found under them, and a
//! two-level taxonomy of tag categories and tags, with the rules that keep them consistent.

pub mod data;
pub mod database;
pub mod media;
pub mod tags;
pub mod text;
