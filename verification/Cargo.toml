[package]
name = "media_catalog"
version = "0.1.0"
edition = "2021"
publish = false

[dependencies]
diesel = { version = "2", features = ["sqlite", "returning_clauses_for_sqlite_3_35"] }
raster = "0.2"
serde = { version = "1", features = ["derive"] }
thiserror = "1"
unicode-segmentation = "1"
