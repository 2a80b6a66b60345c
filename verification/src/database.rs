//! Where the catalogue is kept: the connection settings and the tables.

pub mod connection;
pub mod store;
