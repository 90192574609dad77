//! Media container formats: the ISO base media file format family
//! ([`isobmff`]) and the Matroska / WebM family ([`mkv`]).
//!
//! Every reader works on bytes that the caller has already fetched and every
//! writer appends to a caller-supplied buffer; nothing here performs I/O.

pub mod bytes;
pub mod isobmff;
pub mod mkv;
pub mod text;
