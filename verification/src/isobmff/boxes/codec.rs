//! Sample entries: how a track's samples are coded.

use crate::bytes;
use crate::isobmff::boxes;
use crate::isobmff::boxes::esds;
use crate::isobmff::boxes::{
    encode_all, encode_full, encode_opt, kinds, put_count, write_only, Atom, Encode, FixedPoint,
    FourCC, FullBox, Wire, U24_MAX,
};
use crate::isobmff::error;
use crate::isobmff::{IsobmffError, IsobmffResult};
use crate::text;
use vstd::prelude::*;
use vstd::string::*;
use vstd::utf8::*;

verus! {

/// What all audio sample entries start with.
#[derive(Debug, Clone, PartialEq, Eq)]
pub struct Audio {
    pub data_reference_index: u16,
    pub channel_count: u16,
    pub sample_size: u16,
    pub sample_rate: FixedPoint<u16>,
}

impl Audio {
    pub open spec fn bytes(&self) -> Seq<u8> {
        bytes::zeros(6) + bytes::be16(self.data_reference_index) + bytes::zeros(8) + bytes::be16(
            self.channel_count,
        ) + bytes::be16(self.sample_size) + bytes::zeros(4) + bytes::be16(self.sample_rate.whole)
            + bytes::be16(self.sample_rate.fraction)
    }

    fn encode_into(&self, buf: &mut Vec<u8>)
        ensures
            final(buf)@ == old(buf)@ + self.bytes(),
    {
        let mut out: Vec<u8> = Vec::new();
        bytes::put_zeros(&mut out, 6);
        assert(out@ =~= bytes::zeros(6));
        bytes::put_u16(&mut out, self.data_reference_index);
        bytes::put_zeros(&mut out, 8);
        bytes::put_u16(&mut out, self.channel_count);
        bytes::put_u16(&mut out, self.sample_size);
        bytes::put_zeros(&mut out, 4);
        bytes::put_u16(&mut out, self.sample_rate.whole);
        bytes::put_u16(&mut out, self.sample_rate.fraction);
        bytes::put_slice(buf, out.as_slice());
    }
}

/// The shape of a pixel.
#[derive(Debug, Clone, PartialEq, Eq)]
pub struct Pasp {
    pub h_spacing: u32,
    pub v_spacing: u32,
}

impl Default for Pasp {
    fn default() -> (r: Self)
        ensures
            r == (Pasp { h_spacing: 1, v_spacing: 1 }),
    {
        Pasp { h_spacing: 1, v_spacing: 1 }
    }
}

impl Atom for Pasp {
    const KIND: [u8; 4] = kinds::PASP;

    open spec fn kind() -> Seq<u8> {
        kinds::PASP@
    }

    proof fn kind_is_code() {
    }

    open spec fn body(&self) -> Wire {
        Ok(bytes::be32(self.h_spacing) + bytes::be32(self.v_spacing))
    }

    open spec fn reads_body(b: Seq<u8>, r: IsobmffResult<Self>) -> bool {
        error::malformed(r, "Pasp decode not implemented"@)
    }

    fn encode_body(&self, buf: &mut Vec<u8>) -> (r: IsobmffResult<()>) {
        broadcast use boxes::group_wire;

        bytes::put_u32(buf, self.h_spacing);
        bytes::put_u32(buf, self.v_spacing);
        Ok(())
    }

    fn decode_body(_buf: &[u8]) -> (r: IsobmffResult<Self>) {
        write_only("Pasp decode not implemented")
    }
}

/// The rates of a stream.
#[derive(Debug, Clone, Default, PartialEq, Eq)]
pub struct Btrt {
    pub buffer_size_db: u32,
    pub max_bitrate: u32,
    pub avg_bitrate: u32,
}

impl Atom for Btrt {
    const KIND: [u8; 4] = kinds::BTRT;

    open spec fn kind() -> Seq<u8> {
        kinds::BTRT@
    }

    proof fn kind_is_code() {
    }

    open spec fn body(&self) -> Wire {
        Ok(
            bytes::be32(self.buffer_size_db) + bytes::be32(self.max_bitrate) + bytes::be32(
                self.avg_bitrate,
            ),
        )
    }

    open spec fn reads_body(b: Seq<u8>, r: IsobmffResult<Self>) -> bool {
        error::malformed(r, "Btrt decode not implemented"@)
    }

    fn encode_body(&self, buf: &mut Vec<u8>) -> (r: IsobmffResult<()>) {
        broadcast use boxes::group_wire;

        bytes::put_u32(buf, self.buffer_size_db);
        bytes::put_u32(buf, self.max_bitrate);
        bytes::put_u32(buf, self.avg_bitrate);
        Ok(())
    }

    fn decode_body(_buf: &[u8]) -> (r: IsobmffResult<Self>) {
        write_only("Btrt decode not implemented")
    }
}

/// The configuration of an Opus stream of one or two channels.
#[derive(Debug, Clone, Default, PartialEq, Eq)]
pub struct Dops {
    pub output_channel_count: u8,
    pub pre_skip: u16,
    pub input_sample_rate: u32,
    pub output_gain: i16,
}

impl Atom for Dops {
    const KIND: [u8; 4] = kinds::DOPS;

    open spec fn kind() -> Seq<u8> {
        kinds::DOPS@
    }

    proof fn kind_is_code() {
    }

    open spec fn body(&self) -> Wire {
        Ok(
            seq![0u8] + seq![self.output_channel_count] + bytes::be16(self.pre_skip) + bytes::be32(
                self.input_sample_rate,
            ) + bytes::be16i(self.output_gain) + seq![0u8],
        )
    }

    open spec fn reads_body(b: Seq<u8>, r: IsobmffResult<Self>) -> bool {
        error::malformed(r, "Dops decode not implemented"@)
    }

    fn encode_body(&self, buf: &mut Vec<u8>) -> (r: IsobmffResult<()>) {
        let mut out: Vec<u8> = Vec::new();
        bytes::put_u8(&mut out, 0);
        assert(out@ =~= seq![0u8]);
        bytes::put_u8(&mut out, self.output_channel_count);
        bytes::put_u16(&mut out, self.pre_skip);
        bytes::put_u32(&mut out, self.input_sample_rate);
        bytes::put_i16(&mut out, self.output_gain);
        bytes::put_u8(&mut out, 0);
        bytes::put_slice(buf, out.as_slice());
        Ok(())
    }

    fn decode_body(_buf: &[u8]) -> (r: IsobmffResult<Self>) {
        write_only("Dops decode not implemented")
    }
}

/// An Opus sample entry.
#[derive(Debug, Clone, PartialEq, Eq)]
pub struct Opus {
    pub audio: Audio,
    pub dops: Dops,
    pub btrt: Option<Btrt>,
}

impl Atom for Opus {
    const KIND: [u8; 4] = kinds::OPUS;

    open spec fn kind() -> Seq<u8> {
        kinds::OPUS@
    }

    proof fn kind_is_code() {
    }

    open spec fn body(&self) -> Wire {
        boxes::joined(boxes::joined(Ok(self.audio.bytes()), self.dops.wire()), boxes::opt_wire(self.btrt))
    }

    open spec fn reads_body(b: Seq<u8>, r: IsobmffResult<Self>) -> bool {
        error::malformed(r, "Opus decode not implemented"@)
    }

    fn encode_body(&self, buf: &mut Vec<u8>) -> (r: IsobmffResult<()>) {
        broadcast use boxes::group_wire;

        self.audio.encode_into(buf);
        self.dops.encode(buf)?;
        encode_opt(&self.btrt, buf)
    }

    fn decode_body(_buf: &[u8]) -> (r: IsobmffResult<Self>) {
        write_only("Opus decode not implemented")
    }
}

/// A FLAC metadata block. Blocks other than the stream information and the comments leave
/// no trace when they are written.
#[derive(Debug, Clone, PartialEq, Eq)]
pub enum FlacMetadataBlock {
    StreamInfo {
        minimum_block_size: u16,
        maximum_block_size: u16,
        minimum_frame_size: u32,
        maximum_frame_size: u32,
        sample_rate: u32,
        num_channels_minus_one: u8,
        bits_per_sample_minus_one: u8,
        number_of_interchannel_samples: u64,
        md5_checksum: Vec<u8>,
    },
    Padding,
    Application,
    SeekTable,
    VorbisComment { vendor_string: String, comments: Vec<String> },
    CueSheet,
    Picture,
    Reserved,
    Forbidden,
}

/// The bytes of a text behind their number.
pub open spec fn counted_text(s: Seq<char>) -> Seq<u8> {
    bytes::le32(boxes::count32(encode_utf8(s).len())) + encode_utf8(s)
}

pub open spec fn comment_bytes() -> spec_fn(String) -> Seq<u8> {
    |s: String| counted_text(s@)
}

/// The sample rate, channels, sample width and number of samples in 64 bits.
pub open spec fn stream_word(rate: u32, channels: u8, width: u8, samples: u64) -> u64 {
    ((rate as u64) << 44) | ((channels as u64) << 41) | ((width as u64) << 36) | samples
}

/// The text of the error for a checksum of the wrong length.
pub open spec fn md5_text(n: nat) -> Seq<char> {
    "StreamInfo md5 must be 16 bytes, got "@ + text::decimal(n)
}

/// The text of the error for a block that is too long.
pub open spec fn block_text(n: nat) -> Seq<char> {
    "FLAC metadata block body "@ + text::decimal(n) + " exceeds u24"@
}

impl FlacMetadataBlock {
    /// The type of a block; `None` if it is not written.
    pub open spec fn kind(&self) -> Option<u8> {
        match self {
            FlacMetadataBlock::StreamInfo { .. } => Some(0),
            FlacMetadataBlock::VorbisComment { .. } => Some(4),
            _ => None,
        }
    }

    /// The body of a block.
    pub open spec fn block_body(&self) -> Wire {
        match self {
            FlacMetadataBlock::StreamInfo {
                minimum_block_size,
                maximum_block_size,
                minimum_frame_size,
                maximum_frame_size,
                sample_rate,
                num_channels_minus_one,
                bits_per_sample_minus_one,
                number_of_interchannel_samples,
                md5_checksum,
            } => if md5_checksum@.len() != 16 {
                Err(md5_text(md5_checksum@.len()))
            } else {
                Ok(
                    bytes::be16(*minimum_block_size) + bytes::be16(*maximum_block_size)
                        + bytes::be24(*minimum_frame_size) + bytes::be24(*maximum_frame_size)
                        + bytes::be64(
                        stream_word(
                            *sample_rate,
                            *num_channels_minus_one,
                            *bits_per_sample_minus_one,
                            *number_of_interchannel_samples,
                        ),
                    ) + md5_checksum@,
                )
            },
            FlacMetadataBlock::VorbisComment { vendor_string, comments } => Ok(
                counted_text(vendor_string@) + bytes::le32(boxes::count32(comments@.len()))
                    + boxes::run(comments@, comment_bytes()),
            ),
            _ => Ok(Seq::empty()),
        }
    }

    /// A block: whether it is the last, its type, its length and its body.
    pub open spec fn block_wire(&self, is_last: bool) -> Wire {
        match self.kind() {
            None => Ok(Seq::empty()),
            Some(k) => match self.block_body() {
                Err(m) => Err(m),
                Ok(b) => {
                    let n = boxes::count32(b.len());
                    if n > U24_MAX {
                        Err(block_text(n as nat))
                    } else {
                        Ok(
                            seq![
                                if is_last {
                                    (0x80 + k) as u8
                                } else {
                                    k
                                },
                            ] + bytes::be24(n) + b,
                        )
                    }
                },
            },
        }
    }

    /// The type of a block.
    fn kind_of(&self) -> (r: Option<u8>)
        ensures
            r == self.kind(),
            r matches Some(k) ==> k <= 4,
    {
        match self {
            FlacMetadataBlock::StreamInfo { .. } => Some(0),
            FlacMetadataBlock::VorbisComment { .. } => Some(4),
            _ => None,
        }
    }

    /// The body of a block.
    fn build_body(&self) -> (r: IsobmffResult<Vec<u8>>)
        ensures
            match self.block_body() {
                Ok(b) => r is Ok && r->Ok_0@ == b,
                Err(m) => error::malformed(r, m),
            },
    {
        let mut out: Vec<u8> = Vec::new();
        match self {
            FlacMetadataBlock::StreamInfo {
                minimum_block_size,
                maximum_block_size,
                minimum_frame_size,
                maximum_frame_size,
                sample_rate,
                num_channels_minus_one,
                bits_per_sample_minus_one,
                number_of_interchannel_samples,
                md5_checksum,
            } => {
                if md5_checksum.len() != 16 {
                    let mut s: String = "StreamInfo md5 must be 16 bytes, got ".to_owned();
                    text::put_decimal(&mut s, md5_checksum.len() as u64);
                    return Err(IsobmffError::Malformed(s));
                }
                bytes::put_u16(&mut out, *minimum_block_size);
                assert(out@ =~= bytes::be16(*minimum_block_size));
                bytes::put_u16(&mut out, *maximum_block_size);
                bytes::put_u24(&mut out, *minimum_frame_size);
                bytes::put_u24(&mut out, *maximum_frame_size);
                let packed: u64 = ((*sample_rate as u64) << 44) | ((*num_channels_minus_one as u64)
                    << 41) | ((*bits_per_sample_minus_one as u64) << 36)
                    | *number_of_interchannel_samples;
                bytes::put_u64(&mut out, packed);
                bytes::put_slice(&mut out, md5_checksum.as_slice());
            },
            FlacMetadataBlock::VorbisComment { vendor_string, comments } => {
                put_text(&mut out, vendor_string);
                assert(out@ =~= counted_text(vendor_string@));
                bytes::put_u32_le(&mut out, (comments.len() as u64 % 0x1_0000_0000) as u32);
                put_texts(&mut out, comments);
            },
            _ => {
                assert(out@ =~= Seq::empty());
            },
        }
        Ok(out)
    }

    fn encode_into(&self, buf: &mut Vec<u8>, is_last: bool) -> (r: IsobmffResult<()>)
        ensures
            boxes::wrote(self.block_wire(is_last), old(buf)@, final(buf)@, r),
    {
        broadcast use boxes::group_wire;

        let kind: u8 = match self.kind_of() {
            Some(k) => k,
            None => {
                assert(buf@ + Seq::<u8>::empty() =~= buf@);
                return Ok(());
            },
        };
        assert(buf@.take(buf@.len() as int) =~= buf@);
        let body = self.build_body()?;
        let n: u32 = (body.len() as u64 % 0x1_0000_0000) as u32;
        if n > U24_MAX {
            let mut s: String = "FLAC metadata block body ".to_owned();
            text::put_decimal(&mut s, n as u64);
            s.append(" exceeds u24");
            return Err(IsobmffError::Malformed(s));
        }
        bytes::put_u8(
            buf,
            if is_last {
                0x80 + kind
            } else {
                kind
            },
        );
        bytes::put_u24(buf, n);
        bytes::put_slice(buf, body.as_slice());
        Ok(())
    }
}

fn put_text(buf: &mut Vec<u8>, s: &String)
    ensures
        final(buf)@ == old(buf)@ + counted_text(s@),
{
    broadcast use boxes::group_wire;

    let b: &[u8] = s.as_str().as_bytes();
    bytes::put_u32_le(buf, (b.len() as u64 % 0x1_0000_0000) as u32);
    bytes::put_slice(buf, b);
}

fn put_texts(buf: &mut Vec<u8>, v: &Vec<String>)
    ensures
        final(buf)@ == old(buf)@ + boxes::run(v@, comment_bytes()),
{
    broadcast use boxes::group_wire;

    let mut i: usize = 0;
    assert(v@.take(0) =~= Seq::empty());
    assert(buf@ + Seq::<u8>::empty() =~= buf@);
    while i < v.len()
        invariant
            i <= v@.len(),
            buf@ == old(buf)@ + boxes::run(v@.take(i as int), comment_bytes()),
        decreases v@.len() - i,
    {
        broadcast use boxes::group_wire;

        proof {
            boxes::lemma_run(v@, comment_bytes(), i as int);
        }
        put_text(buf, &v[i]);
        i = i + 1;
    }
    assert(v@.take(i as int) =~= v@);
}

/// The first `n` blocks of a stream.
pub open spec fn blocks_wire(blocks: Seq<FlacMetadataBlock>, n: int) -> Wire
    decreases n,
{
    if n <= 0 {
        Ok(Seq::empty())
    } else {
        boxes::joined(
            blocks_wire(blocks, n - 1),
            blocks[n - 1].block_wire(n == blocks.len()),
        )
    }
}

/// An error among the first blocks is that of all.
proof fn lemma_blocks_err(blocks: Seq<FlacMetadataBlock>, i: int, n: int)
    requires
        0 <= i <= n,
        blocks_wire(blocks, i) is Err,
    ensures
        blocks_wire(blocks, n) == blocks_wire(blocks, i),
    decreases n - i,
{
    if i < n {
        lemma_blocks_err(blocks, i, n - 1);
    }
}

/// The configuration of a FLAC stream: its metadata blocks.
#[derive(Debug, Clone, Default, PartialEq, Eq)]
pub struct Dfla {
    pub blocks: Vec<FlacMetadataBlock>,
}

impl FullBox for Dfla {
    const KIND: [u8; 4] = kinds::DFLA;

    open spec fn version_of(&self) -> u8 {
        0
    }

    open spec fn flags_of(&self) -> u32 {
        0
    }

    open spec fn full_body(&self) -> Wire {
        if self.blocks@.len() == 0 {
            Err("dfLa requires at least the StreamInfo block"@)
        } else {
            blocks_wire(self.blocks@, self.blocks@.len() as int)
        }
    }

    open spec fn reads_full_body(version: u8, flags: u32, b: Seq<u8>, r: IsobmffResult<Self>) -> bool {
        error::malformed(r, "Dfla decode not implemented"@)
    }

    fn version(&self) -> (r: u8) {
        0
    }

    fn flags(&self) -> (r: u32) {
        0
    }

    fn encode_full_body(&self, buf: &mut Vec<u8>) -> (r: IsobmffResult<()>) {
        broadcast use boxes::group_wire;

        assert(buf@.take(buf@.len() as int) =~= buf@);
        if self.blocks.is_empty() {
            return Err(
                IsobmffError::Malformed("dfLa requires at least the StreamInfo block".to_owned()),
            );
        }
        let n: usize = self.blocks.len();
        let mut i: usize = 0;
        assert(buf@ + Seq::<u8>::empty() =~= buf@);
        while i < n
            invariant
                i <= n == self.blocks@.len(),
                n > 0,
                blocks_wire(self.blocks@, i as int) is Ok,
                buf@ == old(buf)@ + blocks_wire(self.blocks@, i as int)->Ok_0,
            decreases n - i,
        {
            broadcast use boxes::group_wire;
        
            proof {
                if self.blocks@[i as int].block_wire(i + 1 == n) is Err {
                    lemma_blocks_err(self.blocks@, i + 1, n as int);
                }
            }
            self.blocks[i].encode_into(buf, i + 1 == n)?;
            i = i + 1;
        }
        Ok(())
    }

    fn decode_full_body(_version: u8, _flags: u32, _buf: &[u8]) -> (r: IsobmffResult<Self>) {
        write_only("Dfla decode not implemented")
    }
}

impl Encode for Dfla {
    open spec fn wire(&self) -> Wire {
        boxes::full_boxed(kinds::DFLA@, self.version_of(), self.flags_of(), self.full_body())
    }

    fn encode(&self, buf: &mut Vec<u8>) -> (r: IsobmffResult<()>) {
        encode_full(self, buf)
    }
}

/// A FLAC sample entry.
#[derive(Debug, Clone, PartialEq, Eq)]
pub struct Flac {
    pub audio: Audio,
    pub dfla: Dfla,
}

impl Atom for Flac {
    const KIND: [u8; 4] = kinds::FLAC;

    open spec fn kind() -> Seq<u8> {
        kinds::FLAC@
    }

    proof fn kind_is_code() {
    }

    open spec fn body(&self) -> Wire {
        boxes::joined(Ok(self.audio.bytes()), self.dfla.wire())
    }

    open spec fn reads_body(b: Seq<u8>, r: IsobmffResult<Self>) -> bool {
        error::malformed(r, "Flac decode not implemented"@)
    }

    fn encode_body(&self, buf: &mut Vec<u8>) -> (r: IsobmffResult<()>) {
        broadcast use boxes::group_wire;

        self.audio.encode_into(buf);
        self.dfla.encode(buf)
    }

    fn decode_body(_buf: &[u8]) -> (r: IsobmffResult<Self>) {
        write_only("Flac decode not implemented")
    }
}

/// The box around an elementary stream's descriptor.
#[derive(Debug, Clone, Default, PartialEq, Eq)]
pub struct Esds {
    pub es_desc: esds::EsDescriptor,
}

impl FullBox for Esds {
    const KIND: [u8; 4] = kinds::ESDS;

    open spec fn version_of(&self) -> u8 {
        0
    }

    open spec fn flags_of(&self) -> u32 {
        0
    }

    open spec fn full_body(&self) -> Wire {
        Ok(esds::descriptor(esds::ES_DESCRIPTOR_TAG, self.es_desc.body()))
    }

    open spec fn reads_full_body(version: u8, flags: u32, b: Seq<u8>, r: IsobmffResult<Self>) -> bool {
        error::malformed(r, "Esds decode not implemented"@)
    }

    fn version(&self) -> (r: u8) {
        0
    }

    fn flags(&self) -> (r: u32) {
        0
    }

    fn encode_full_body(&self, buf: &mut Vec<u8>) -> (r: IsobmffResult<()>) {
        broadcast use boxes::group_wire;

        esds::encode_es_descriptor(&self.es_desc, buf);
        Ok(())
    }

    fn decode_full_body(_version: u8, _flags: u32, _buf: &[u8]) -> (r: IsobmffResult<Self>) {
        write_only("Esds decode not implemented")
    }
}

impl Encode for Esds {
    open spec fn wire(&self) -> Wire {
        boxes::full_boxed(kinds::ESDS@, self.version_of(), self.flags_of(), self.full_body())
    }

    fn encode(&self, buf: &mut Vec<u8>) -> (r: IsobmffResult<()>) {
        encode_full(self, buf)
    }
}

/// An AAC sample entry.
#[derive(Debug, Clone, PartialEq, Eq)]
pub struct Mp4a {
    pub audio: Audio,
    pub esds: Esds,
    pub btrt: Option<Btrt>,
}

impl Atom for Mp4a {
    const KIND: [u8; 4] = kinds::MP4A;

    open spec fn kind() -> Seq<u8> {
        kinds::MP4A@
    }

    proof fn kind_is_code() {
    }

    open spec fn body(&self) -> Wire {
        boxes::joined(boxes::joined(Ok(self.audio.bytes()), self.esds.wire()), boxes::opt_wire(self.btrt))
    }

    open spec fn reads_body(b: Seq<u8>, r: IsobmffResult<Self>) -> bool {
        error::malformed(r, "Mp4a decode not implemented"@)
    }

    fn encode_body(&self, buf: &mut Vec<u8>) -> (r: IsobmffResult<()>) {
        broadcast use boxes::group_wire;

        self.audio.encode_into(buf);
        self.esds.encode(buf)?;
        encode_opt(&self.btrt, buf)
    }

    fn decode_body(_buf: &[u8]) -> (r: IsobmffResult<Self>) {
        write_only("Mp4a decode not implemented")
    }
}

/// What all video sample entries start with.
#[derive(Debug, Clone, PartialEq, Eq)]
pub struct Visual {
    pub data_reference_index: u16,
    pub width: u16,
    pub height: u16,
}

impl Visual {
    /// 72 dpi, one frame per sample, no compressor name, 24 bits of depth.
    pub open spec fn bytes(&self) -> Seq<u8> {
        bytes::zeros(6) + bytes::be16(self.data_reference_index) + bytes::zeros(16) + bytes::be16(
            self.width,
        ) + bytes::be16(self.height) + bytes::be32(0x0048_0000) + bytes::be32(0x0048_0000)
            + bytes::be32(0) + bytes::be16(1) + bytes::zeros(32) + bytes::be16(0x0018)
            + bytes::be16(0xFFFF)
    }

    fn encode_into(&self, buf: &mut Vec<u8>)
        ensures
            final(buf)@ == old(buf)@ + self.bytes(),
    {
        let mut out: Vec<u8> = Vec::new();
        bytes::put_zeros(&mut out, 6);
        assert(out@ =~= bytes::zeros(6));
        bytes::put_u16(&mut out, self.data_reference_index);
        bytes::put_zeros(&mut out, 16);
        bytes::put_u16(&mut out, self.width);
        bytes::put_u16(&mut out, self.height);
        bytes::put_u32(&mut out, 0x0048_0000);
        bytes::put_u32(&mut out, 0x0048_0000);
        bytes::put_u32(&mut out, 0);
        bytes::put_u16(&mut out, 1);
        bytes::put_zeros(&mut out, 32);
        bytes::put_u16(&mut out, 0x0018);
        bytes::put_u16(&mut out, 0xFFFF);
        bytes::put_slice(buf, out.as_slice());
    }
}

/// A video sample entry: what all start with, the decoder's configuration and what is
/// known of pixels and rates.
pub open spec fn video_entry(visual: Seq<u8>, config: Wire, pasp: Wire, btrt: Wire) -> Wire {
    boxes::joined(boxes::joined(boxes::joined(Ok(visual), config), pasp), btrt)
}

fn encode_video<C: Encode, P: Encode, B: Encode>(
    visual: &Vec<u8>,
    config: &C,
    pasp: &Option<P>,
    btrt: &Option<B>,
    buf: &mut Vec<u8>,
) -> (r: IsobmffResult<()>)
    ensures
        boxes::wrote(
            video_entry(visual@, config.wire(), boxes::opt_wire(*pasp), boxes::opt_wire(*btrt)),
            old(buf)@,
            final(buf)@,
            r,
        ),
{
    broadcast use boxes::group_wire;

    bytes::put_slice(buf, visual.as_slice());
    config.encode(buf)?;
    encode_opt(pasp, buf)?;
    encode_opt(btrt, buf)
}

/// The configuration of an AVC decoder, as it is.
#[derive(Debug, Clone, PartialEq, Eq)]
pub struct AvcC {
    pub configuration_record: Vec<u8>,
}

impl Atom for AvcC {
    const KIND: [u8; 4] = kinds::AVCC;

    open spec fn kind() -> Seq<u8> {
        kinds::AVCC@
    }

    proof fn kind_is_code() {
    }

    open spec fn body(&self) -> Wire {
        Ok(self.configuration_record@)
    }

    open spec fn reads_body(b: Seq<u8>, r: IsobmffResult<Self>) -> bool {
        error::malformed(r, "AvcC decode not implemented"@)
    }

    fn encode_body(&self, buf: &mut Vec<u8>) -> (r: IsobmffResult<()>) {
        bytes::put_slice(buf, self.configuration_record.as_slice());
        Ok(())
    }

    fn decode_body(_buf: &[u8]) -> (r: IsobmffResult<Self>) {
        write_only("AvcC decode not implemented")
    }
}

/// An AVC sample entry whose parameter sets are all in [`AvcC`].
#[derive(Debug, Clone, PartialEq, Eq)]
pub struct Avc1 {
    pub visual: Visual,
    pub avcc: AvcC,
    pub pasp: Option<Pasp>,
    pub btrt: Option<Btrt>,
}

impl Atom for Avc1 {
    const KIND: [u8; 4] = kinds::AVC1;

    open spec fn kind() -> Seq<u8> {
        kinds::AVC1@
    }

    proof fn kind_is_code() {
    }

    open spec fn body(&self) -> Wire {
        video_entry(
            self.visual.bytes(),
            self.avcc.wire(),
            boxes::opt_wire(self.pasp),
            boxes::opt_wire(self.btrt),
        )
    }

    open spec fn reads_body(b: Seq<u8>, r: IsobmffResult<Self>) -> bool {
        error::malformed(r, "Avc1 decode not implemented"@)
    }

    fn encode_body(&self, buf: &mut Vec<u8>) -> (r: IsobmffResult<()>) {
        let mut visual: Vec<u8> = Vec::new();
        self.visual.encode_into(&mut visual);
        assert(visual@ =~= self.visual.bytes());
        encode_video(&visual, &self.avcc, &self.pasp, &self.btrt, buf)
    }

    fn decode_body(_buf: &[u8]) -> (r: IsobmffResult<Self>) {
        write_only("Avc1 decode not implemented")
    }
}

/// An AVC sample entry whose samples may hold parameter sets.
#[derive(Debug, Clone, PartialEq, Eq)]
pub struct Avc3 {
    pub visual: Visual,
    pub avcc: AvcC,
    pub pasp: Option<Pasp>,
    pub btrt: Option<Btrt>,
}

impl Atom for Avc3 {
    const KIND: [u8; 4] = kinds::AVC3;

    open spec fn kind() -> Seq<u8> {
        kinds::AVC3@
    }

    proof fn kind_is_code() {
    }

    open spec fn body(&self) -> Wire {
        video_entry(
            self.visual.bytes(),
            self.avcc.wire(),
            boxes::opt_wire(self.pasp),
            boxes::opt_wire(self.btrt),
        )
    }

    open spec fn reads_body(b: Seq<u8>, r: IsobmffResult<Self>) -> bool {
        error::malformed(r, "Avc3 decode not implemented"@)
    }

    fn encode_body(&self, buf: &mut Vec<u8>) -> (r: IsobmffResult<()>) {
        let mut visual: Vec<u8> = Vec::new();
        self.visual.encode_into(&mut visual);
        assert(visual@ =~= self.visual.bytes());
        encode_video(&visual, &self.avcc, &self.pasp, &self.btrt, buf)
    }

    fn decode_body(_buf: &[u8]) -> (r: IsobmffResult<Self>) {
        write_only("Avc3 decode not implemented")
    }
}

/// The configuration of an HEVC decoder, as it is.
#[derive(Debug, Clone, PartialEq, Eq)]
pub struct HvcC {
    pub configuration_record: Vec<u8>,
}

impl Atom for HvcC {
    const KIND: [u8; 4] = kinds::HVCC;

    open spec fn kind() -> Seq<u8> {
        kinds::HVCC@
    }

    proof fn kind_is_code() {
    }

    open spec fn body(&self) -> Wire {
        Ok(self.configuration_record@)
    }

    open spec fn reads_body(b: Seq<u8>, r: IsobmffResult<Self>) -> bool {
        error::malformed(r, "HvcC decode not implemented"@)
    }

    fn encode_body(&self, buf: &mut Vec<u8>) -> (r: IsobmffResult<()>) {
        bytes::put_slice(buf, self.configuration_record.as_slice());
        Ok(())
    }

    fn decode_body(_buf: &[u8]) -> (r: IsobmffResult<Self>) {
        write_only("HvcC decode not implemented")
    }
}

/// An HEVC sample entry whose parameter sets are all in [`HvcC`].
#[derive(Debug, Clone, PartialEq, Eq)]
pub struct Hvc1 {
    pub visual: Visual,
    pub hvcc: HvcC,
    pub pasp: Option<Pasp>,
    pub btrt: Option<Btrt>,
}

impl Atom for Hvc1 {
    const KIND: [u8; 4] = kinds::HVC1;

    open spec fn kind() -> Seq<u8> {
        kinds::HVC1@
    }

    proof fn kind_is_code() {
    }

    open spec fn body(&self) -> Wire {
        video_entry(
            self.visual.bytes(),
            self.hvcc.wire(),
            boxes::opt_wire(self.pasp),
            boxes::opt_wire(self.btrt),
        )
    }

    open spec fn reads_body(b: Seq<u8>, r: IsobmffResult<Self>) -> bool {
        error::malformed(r, "Hvc1 decode not implemented"@)
    }

    fn encode_body(&self, buf: &mut Vec<u8>) -> (r: IsobmffResult<()>) {
        let mut visual: Vec<u8> = Vec::new();
        self.visual.encode_into(&mut visual);
        assert(visual@ =~= self.visual.bytes());
        encode_video(&visual, &self.hvcc, &self.pasp, &self.btrt, buf)
    }

    fn decode_body(_buf: &[u8]) -> (r: IsobmffResult<Self>) {
        write_only("Hvc1 decode not implemented")
    }
}

/// An HEVC sample entry whose samples may hold parameter sets.
#[derive(Debug, Clone, PartialEq, Eq)]
pub struct Hev1 {
    pub visual: Visual,
    pub hvcc: HvcC,
    pub pasp: Option<Pasp>,
    pub btrt: Option<Btrt>,
}

impl Atom for Hev1 {
    const KIND: [u8; 4] = kinds::HEV1;

    open spec fn kind() -> Seq<u8> {
        kinds::HEV1@
    }

    proof fn kind_is_code() {
    }

    open spec fn body(&self) -> Wire {
        video_entry(
            self.visual.bytes(),
            self.hvcc.wire(),
            boxes::opt_wire(self.pasp),
            boxes::opt_wire(self.btrt),
        )
    }

    open spec fn reads_body(b: Seq<u8>, r: IsobmffResult<Self>) -> bool {
        error::malformed(r, "Hev1 decode not implemented"@)
    }

    fn encode_body(&self, buf: &mut Vec<u8>) -> (r: IsobmffResult<()>) {
        let mut visual: Vec<u8> = Vec::new();
        self.visual.encode_into(&mut visual);
        assert(visual@ =~= self.visual.bytes());
        encode_video(&visual, &self.hvcc, &self.pasp, &self.btrt, buf)
    }

    fn decode_body(_buf: &[u8]) -> (r: IsobmffResult<Self>) {
        write_only("Hev1 decode not implemented")
    }
}

/// The configuration of an AV1 decoder, as it is.
#[derive(Debug, Clone, PartialEq, Eq)]
pub struct Av1C {
    pub configuration_record: Vec<u8>,
}

impl Atom for Av1C {
    const KIND: [u8; 4] = kinds::AV1C;

    open spec fn kind() -> Seq<u8> {
        kinds::AV1C@
    }

    proof fn kind_is_code() {
    }

    open spec fn body(&self) -> Wire {
        Ok(self.configuration_record@)
    }

    open spec fn reads_body(b: Seq<u8>, r: IsobmffResult<Self>) -> bool {
        error::malformed(r, "Av1C decode not implemented"@)
    }

    fn encode_body(&self, buf: &mut Vec<u8>) -> (r: IsobmffResult<()>) {
        bytes::put_slice(buf, self.configuration_record.as_slice());
        Ok(())
    }

    fn decode_body(_buf: &[u8]) -> (r: IsobmffResult<Self>) {
        write_only("Av1C decode not implemented")
    }
}

/// An AV1 sample entry.
#[derive(Debug, Clone, PartialEq, Eq)]
pub struct Av01 {
    pub visual: Visual,
    pub av1c: Av1C,
    pub pasp: Option<Pasp>,
    pub btrt: Option<Btrt>,
}

impl Atom for Av01 {
    const KIND: [u8; 4] = kinds::AV01;

    open spec fn kind() -> Seq<u8> {
        kinds::AV01@
    }

    proof fn kind_is_code() {
    }

    open spec fn body(&self) -> Wire {
        video_entry(
            self.visual.bytes(),
            self.av1c.wire(),
            boxes::opt_wire(self.pasp),
            boxes::opt_wire(self.btrt),
        )
    }

    open spec fn reads_body(b: Seq<u8>, r: IsobmffResult<Self>) -> bool {
        error::malformed(r, "Av01 decode not implemented"@)
    }

    fn encode_body(&self, buf: &mut Vec<u8>) -> (r: IsobmffResult<()>) {
        let mut visual: Vec<u8> = Vec::new();
        self.visual.encode_into(&mut visual);
        assert(visual@ =~= self.visual.bytes());
        encode_video(&visual, &self.av1c, &self.pasp, &self.btrt, buf)
    }

    fn decode_body(_buf: &[u8]) -> (r: IsobmffResult<Self>) {
        write_only("Av01 decode not implemented")
    }
}

/// A sample entry.
#[derive(Debug, Clone, PartialEq, Eq)]
pub enum Codec {
    Mp4a(Mp4a),
    Opus(Opus),
    Flac(Flac),
    Avc1(Avc1),
    Avc3(Avc3),
    Hvc1(Hvc1),
    Hev1(Hev1),
    Av01(Av01),
    /// A code without a body.
    Unknown(FourCC),
    /// An entry with this body.
    RawEntry { kind: FourCC, body: Vec<u8> },
}

impl Encode for Codec {
    open spec fn wire(&self) -> Wire {
        match self {
            Codec::Mp4a(a) => a.wire(),
            Codec::Opus(a) => a.wire(),
            Codec::Flac(a) => a.wire(),
            Codec::Avc1(a) => a.wire(),
            Codec::Avc3(a) => a.wire(),
            Codec::Hvc1(a) => a.wire(),
            Codec::Hev1(a) => a.wire(),
            Codec::Av01(a) => a.wire(),
            Codec::Unknown(four) => Ok(bytes::be32(8) + four.0@),
            Codec::RawEntry { kind, body } => Ok(
                bytes::be32(boxes::count32((body@.len() + 8) as nat)) + kind.0@ + body@,
            ),
        }
    }

    fn encode(&self, buf: &mut Vec<u8>) -> (r: IsobmffResult<()>) {
        broadcast use boxes::group_wire;

        match self {
            Codec::Mp4a(a) => a.encode(buf),
            Codec::Opus(a) => a.encode(buf),
            Codec::Flac(a) => a.encode(buf),
            Codec::Avc1(a) => a.encode(buf),
            Codec::Avc3(a) => a.encode(buf),
            Codec::Hvc1(a) => a.encode(buf),
            Codec::Hev1(a) => a.encode(buf),
            Codec::Av01(a) => a.encode(buf),
            Codec::Unknown(four) => {
                bytes::put_u32(buf, 8);
                bytes::put_slice(buf, &four.0);
                Ok(())
            },
            Codec::RawEntry { kind, body } => {
                let total: u128 = body.len() as u128 + 8;
                bytes::put_u32(buf, (total % 0x1_0000_0000) as u32);
                bytes::put_slice(buf, &kind.0);
                bytes::put_slice(buf, body.as_slice());
                Ok(())
            },
        }
    }
}

/// How a track's samples are coded.
#[derive(Debug, Clone, Default, PartialEq, Eq)]
pub struct Stsd {
    pub codecs: Vec<Codec>,
}

impl FullBox for Stsd {
    const KIND: [u8; 4] = kinds::STSD;

    open spec fn version_of(&self) -> u8 {
        0
    }

    open spec fn flags_of(&self) -> u32 {
        0
    }

    open spec fn full_body(&self) -> Wire {
        boxes::joined(
            Ok(bytes::be32(boxes::count32(self.codecs@.len()))),
            boxes::all_wire(self.codecs@),
        )
    }

    open spec fn reads_full_body(version: u8, flags: u32, b: Seq<u8>, r: IsobmffResult<Self>) -> bool {
        error::malformed(r, "Stsd decode not implemented"@)
    }

    fn version(&self) -> (r: u8) {
        0
    }

    fn flags(&self) -> (r: u32) {
        0
    }

    fn encode_full_body(&self, buf: &mut Vec<u8>) -> (r: IsobmffResult<()>) {
        broadcast use boxes::group_wire;

        put_count(buf, self.codecs.len());
        encode_all(&self.codecs, buf)
    }

    fn decode_full_body(_version: u8, _flags: u32, _buf: &[u8]) -> (r: IsobmffResult<Self>) {
        write_only("Stsd decode not implemented")
    }
}

impl Encode for Stsd {
    open spec fn wire(&self) -> Wire {
        boxes::full_boxed(kinds::STSD@, self.version_of(), self.flags_of(), self.full_body())
    }

    fn encode(&self, buf: &mut Vec<u8>) -> (r: IsobmffResult<()>) {
        encode_full(self, buf)
    }
}

} // verus!
