//! The ISO base media file format: boxes, fragments, sample tables and HEIF.

pub mod boxes;
pub mod demux;
pub mod error;
pub mod fmp4;
pub mod heif;
pub mod parse;
pub mod patches;

pub use boxes::{
    esds, u24, Atom, Audio, Avc1, Avc3, AvcC, Btrt, Codec, Dfla, Dinf, Dops, Dref, Edts, Elst,
    ElstEntry, Encode, Esds, FixedPoint, Flac, FlacMetadataBlock, FourCC, Ftyp, FullBox, Hdlr,
    Hev1, Hvc1, HvcC, Matrix, Mdat, Mdhd, Mdia, Mfhd, Minf, Moof, Moov, Mp4a, Mvex, Mvhd, Opus,
    Smhd, Stbl, Stco, Stsc, StscEntry, Stsd, Stsz, StszSamples, Stts, SttsEntry, Styp, Tfdt, Tfhd,
    Tkhd, Traf, Trak, Trex, Trun, TrunEntry, Url, Visual, Vmhd,
};
pub use error::{IsobmffError, IsobmffResult};
