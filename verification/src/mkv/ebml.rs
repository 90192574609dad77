//! The EBML element layer and the Matroska schema on top of it.

pub mod element;
pub mod schema;
pub mod varint;
pub mod writer;

pub use element::{ElementHeader, Reader};
pub use schema::ids;
pub use varint::{read_vint_id, read_vint_size, Vint};
