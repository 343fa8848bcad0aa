//! Verified core of an unpacker for the archives of the ROSE game client.
//!
//! The library decodes the configuration, reads the `data.000` index into a
//! searchable table of resources grouped by the `data.00x` file that holds
//! them, and decides what has to be read and written to export them.

pub mod config;
pub mod handler;
pub mod rz;
pub mod state;
pub mod text;
