//! Matroska and WebM.

pub mod audio;
pub mod cluster;
pub mod demux;
pub mod ebml;
pub mod error;
pub mod mux;
pub mod pgs;
pub mod profile;
pub mod roundtrip;
pub mod streaming;

pub use error::Error;
