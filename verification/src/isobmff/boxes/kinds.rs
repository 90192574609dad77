//! Four-character codes.

use vstd::prelude::*;

verus! {

pub const FTYP: [u8; 4] = [0x66, 0x74, 0x79, 0x70];

pub const STYP: [u8; 4] = [0x73, 0x74, 0x79, 0x70];

pub const MDAT: [u8; 4] = [0x6D, 0x64, 0x61, 0x74];

pub const MFHD: [u8; 4] = [0x6D, 0x66, 0x68, 0x64];

pub const TFHD: [u8; 4] = [0x74, 0x66, 0x68, 0x64];

pub const TFDT: [u8; 4] = [0x74, 0x66, 0x64, 0x74];

pub const TRUN: [u8; 4] = [0x74, 0x72, 0x75, 0x6E];

pub const TRAF: [u8; 4] = [0x74, 0x72, 0x61, 0x66];

pub const MOOF: [u8; 4] = [0x6D, 0x6F, 0x6F, 0x66];

pub const MVHD: [u8; 4] = [0x6D, 0x76, 0x68, 0x64];

pub const TKHD: [u8; 4] = [0x74, 0x6B, 0x68, 0x64];

pub const TREX: [u8; 4] = [0x74, 0x72, 0x65, 0x78];

pub const ELST: [u8; 4] = [0x65, 0x6C, 0x73, 0x74];

pub const EDTS: [u8; 4] = [0x65, 0x64, 0x74, 0x73];

pub const MDHD: [u8; 4] = [0x6D, 0x64, 0x68, 0x64];

pub const HDLR: [u8; 4] = [0x68, 0x64, 0x6C, 0x72];

pub const SMHD: [u8; 4] = [0x73, 0x6D, 0x68, 0x64];

pub const VMHD: [u8; 4] = [0x76, 0x6D, 0x68, 0x64];

pub const URL: [u8; 4] = [0x75, 0x72, 0x6C, 0x20];

pub const DREF: [u8; 4] = [0x64, 0x72, 0x65, 0x66];

pub const DINF: [u8; 4] = [0x64, 0x69, 0x6E, 0x66];

pub const STTS: [u8; 4] = [0x73, 0x74, 0x74, 0x73];

pub const STSC: [u8; 4] = [0x73, 0x74, 0x73, 0x63];

pub const STSZ: [u8; 4] = [0x73, 0x74, 0x73, 0x7A];

pub const STCO: [u8; 4] = [0x73, 0x74, 0x63, 0x6F];

pub const PASP: [u8; 4] = [0x70, 0x61, 0x73, 0x70];

pub const BTRT: [u8; 4] = [0x62, 0x74, 0x72, 0x74];

pub const DOPS: [u8; 4] = [0x64, 0x4F, 0x70, 0x73];

pub const OPUS: [u8; 4] = [0x4F, 0x70, 0x75, 0x73];

pub const DFLA: [u8; 4] = [0x64, 0x66, 0x4C, 0x61];

pub const FLAC: [u8; 4] = [0x66, 0x4C, 0x61, 0x43];

pub const ESDS: [u8; 4] = [0x65, 0x73, 0x64, 0x73];

pub const MP4A: [u8; 4] = [0x6D, 0x70, 0x34, 0x61];

pub const AVCC: [u8; 4] = [0x61, 0x76, 0x63, 0x43];

pub const AVC1: [u8; 4] = [0x61, 0x76, 0x63, 0x31];

pub const AVC3: [u8; 4] = [0x61, 0x76, 0x63, 0x33];

pub const HVCC: [u8; 4] = [0x68, 0x76, 0x63, 0x43];

pub const HVC1: [u8; 4] = [0x68, 0x76, 0x63, 0x31];

pub const HEV1: [u8; 4] = [0x68, 0x65, 0x76, 0x31];

pub const AV1C: [u8; 4] = [0x61, 0x76, 0x31, 0x43];

pub const AV01: [u8; 4] = [0x61, 0x76, 0x30, 0x31];

pub const STSD: [u8; 4] = [0x73, 0x74, 0x73, 0x64];

pub const STBL: [u8; 4] = [0x73, 0x74, 0x62, 0x6C];

pub const MINF: [u8; 4] = [0x6D, 0x69, 0x6E, 0x66];

pub const MDIA: [u8; 4] = [0x6D, 0x64, 0x69, 0x61];

pub const TRAK: [u8; 4] = [0x74, 0x72, 0x61, 0x6B];

pub const MEHD: [u8; 4] = [0x6D, 0x65, 0x68, 0x64];

pub const MVEX: [u8; 4] = [0x6D, 0x76, 0x65, 0x78];

pub const MOOV: [u8; 4] = [0x6D, 0x6F, 0x6F, 0x76];

pub const ISO5: [u8; 4] = [0x69, 0x73, 0x6F, 0x35];

pub const ISO6: [u8; 4] = [0x69, 0x73, 0x6F, 0x36];

pub const MSDH: [u8; 4] = [0x6D, 0x73, 0x64, 0x68];

pub const MSIX: [u8; 4] = [0x6D, 0x73, 0x69, 0x78];

pub const DASH: [u8; 4] = [0x64, 0x61, 0x73, 0x68];

pub const VIDE: [u8; 4] = [0x76, 0x69, 0x64, 0x65];

pub const SOUN: [u8; 4] = [0x73, 0x6F, 0x75, 0x6E];

pub const MP3: [u8; 4] = [0x2E, 0x6D, 0x70, 0x33];

pub const ELNG: [u8; 4] = [0x65, 0x6C, 0x6E, 0x67];

pub const CO64: [u8; 4] = [0x63, 0x6F, 0x36, 0x34];

pub const STSS: [u8; 4] = [0x73, 0x74, 0x73, 0x73];

pub const CTTS: [u8; 4] = [0x63, 0x74, 0x74, 0x73];

pub const FREE: [u8; 4] = [0x66, 0x72, 0x65, 0x65];

pub const ISOM: [u8; 4] = [0x69, 0x73, 0x6F, 0x6D];

pub const ISO2: [u8; 4] = [0x69, 0x73, 0x6F, 0x32];

pub const ISO3: [u8; 4] = [0x69, 0x73, 0x6F, 0x33];

pub const ISO4: [u8; 4] = [0x69, 0x73, 0x6F, 0x34];

pub const MP41: [u8; 4] = [0x6D, 0x70, 0x34, 0x31];

pub const MP42: [u8; 4] = [0x6D, 0x70, 0x34, 0x32];

pub const M4V: [u8; 4] = [0x4D, 0x34, 0x56, 0x20];

pub const FLAC_LOWER: [u8; 4] = [0x66, 0x6C, 0x61, 0x63];

pub const META: [u8; 4] = [0x6D, 0x65, 0x74, 0x61];

pub const PITM: [u8; 4] = [0x70, 0x69, 0x74, 0x6D];

pub const IINF: [u8; 4] = [0x69, 0x69, 0x6E, 0x66];

pub const INFE: [u8; 4] = [0x69, 0x6E, 0x66, 0x65];

pub const ILOC: [u8; 4] = [0x69, 0x6C, 0x6F, 0x63];

pub const IREF: [u8; 4] = [0x69, 0x72, 0x65, 0x66];

pub const IPRP: [u8; 4] = [0x69, 0x70, 0x72, 0x70];

pub const IPCO: [u8; 4] = [0x69, 0x70, 0x63, 0x6F];

pub const IPMA: [u8; 4] = [0x69, 0x70, 0x6D, 0x61];

pub const IDAT: [u8; 4] = [0x69, 0x64, 0x61, 0x74];

pub const ISPE: [u8; 4] = [0x69, 0x73, 0x70, 0x65];

pub const PIXI: [u8; 4] = [0x70, 0x69, 0x78, 0x69];

pub const COLR: [u8; 4] = [0x63, 0x6F, 0x6C, 0x72];

pub const NCLX: [u8; 4] = [0x6E, 0x63, 0x6C, 0x78];

pub const PROF: [u8; 4] = [0x70, 0x72, 0x6F, 0x66];

pub const RICC: [u8; 4] = [0x72, 0x49, 0x43, 0x43];

pub const AUXC: [u8; 4] = [0x61, 0x75, 0x78, 0x43];

pub const IROT: [u8; 4] = [0x69, 0x72, 0x6F, 0x74];

pub const IMIR: [u8; 4] = [0x69, 0x6D, 0x69, 0x72];

pub const CLAP: [u8; 4] = [0x63, 0x6C, 0x61, 0x70];

} // verus!
