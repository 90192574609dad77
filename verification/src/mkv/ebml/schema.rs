//! Matroska and WebM element IDs, track types and codec names.

pub mod codec_id;
pub mod ids;
pub mod track_type;
