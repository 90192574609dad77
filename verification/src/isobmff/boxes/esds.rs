//! Descriptors of elementary streams.
//!
//! Lengths are written in the four-byte form that all players accept.

use crate::bytes;
use vstd::prelude::*;

verus! {

/// A descriptor: its tag, the length of its body and the body.
pub open spec fn descriptor(tag: u8, body: Seq<u8>) -> Seq<u8> {
    seq![tag, 0x80, 0x80, 0x80, (body.len() % 128) as u8] + body
}

pub(crate) fn put_descriptor(buf: &mut Vec<u8>, tag: u8, body: &Vec<u8>)
    ensures
        final(buf)@ == old(buf)@ + descriptor(tag, body@),
{
    buf.push(tag);
    buf.push(0x80);
    buf.push(0x80);
    buf.push(0x80);
    buf.push((body.len() % 128) as u8);
    bytes::put_slice(buf, body.as_slice());
    assert(buf@ =~= old(buf)@ + descriptor(tag, body@));
}

/// The configuration of the sync layer, which is a predefined one.
#[derive(Debug, Clone, Copy, Default, PartialEq, Eq)]
pub struct SLConfig;

/// The tag of [`SLConfig`].
pub const SL_CONFIG_TAG: u8 = 0x06;

/// The tag of [`DecoderSpecific`].
pub const DECODER_SPECIFIC_TAG: u8 = 0x05;

/// The tag of [`DecoderConfig`].
pub const DECODER_CONFIG_TAG: u8 = 0x04;

/// The tag of [`EsDescriptor`].
pub const ES_DESCRIPTOR_TAG: u8 = 0x03;

impl SLConfig {
    pub const TAG: u8 = SL_CONFIG_TAG;

    pub open spec fn body(&self) -> Seq<u8> {
        seq![2u8]
    }

    /// Appends the body.
    pub fn encode_into(&self, buf: &mut Vec<u8>)
        ensures
            final(buf)@ == old(buf)@ + self.body(),
    {
        bytes::put_u8(buf, 2);
    }
}

/// The configuration of an AAC decoder, in its short form.
#[derive(Debug, Clone, Copy, Default, PartialEq, Eq)]
pub struct DecoderSpecific {
    pub profile: u8,
    pub freq_index: u8,
    pub chan_conf: u8,
}

impl DecoderSpecific {
    pub const TAG: u8 = DECODER_SPECIFIC_TAG;

    /// Five bits of profile, four of frequency index and four of channel
    /// configuration; what does not fit is dropped.
    pub open spec fn body(&self) -> Seq<u8> {
        seq![
            ((self.profile * 8 + self.freq_index / 2) % 256) as u8,
            ((self.freq_index * 128 + self.chan_conf * 8) % 256) as u8,
        ]
    }

    /// Appends the body.
    pub fn encode_into(&self, buf: &mut Vec<u8>)
        ensures
            final(buf)@ == old(buf)@ + self.body(),
    {
        let a: u32 = self.profile as u32 * 8 + self.freq_index as u32 / 2;
        let b: u32 = self.freq_index as u32 * 128 + self.chan_conf as u32 * 8;
        buf.push((a % 256) as u8);
        buf.push((b % 256) as u8);
        assert(buf@ =~= old(buf)@ + self.body());
    }
}

/// What decodes a stream, and at which rates.
#[derive(Debug, Clone, Copy, Default, PartialEq, Eq)]
pub struct DecoderConfig {
    pub object_type_indication: u8,
    pub stream_type: u8,
    pub up_stream: u8,
    pub buffer_size_db: u32,
    pub max_bitrate: u32,
    pub avg_bitrate: u32,
    pub dec_specific: DecoderSpecific,
}

impl DecoderConfig {
    pub const TAG: u8 = DECODER_CONFIG_TAG;

    pub open spec fn body(&self) -> Seq<u8> {
        seq![
            self.object_type_indication,
            (self.stream_type % 64 * 4 + self.up_stream / 2 % 2 * 2 + 1) as u8,
        ] + bytes::be24(self.buffer_size_db) + bytes::be32(self.max_bitrate) + bytes::be32(
            self.avg_bitrate,
        ) + descriptor(DECODER_SPECIFIC_TAG, self.dec_specific.body())
    }

    /// Appends the body.
    pub fn encode_into(&self, buf: &mut Vec<u8>)
        ensures
            final(buf)@ == old(buf)@ + self.body(),
    {
        let mut out: Vec<u8> = Vec::new();
        out.push(self.object_type_indication);
        out.push(self.stream_type % 64 * 4 + self.up_stream / 2 % 2 * 2 + 1);
        assert(out@ =~= seq![
            self.object_type_indication,
            (self.stream_type % 64 * 4 + self.up_stream / 2 % 2 * 2 + 1) as u8,
        ]);
        bytes::put_u24(&mut out, self.buffer_size_db);
        bytes::put_u32(&mut out, self.max_bitrate);
        bytes::put_u32(&mut out, self.avg_bitrate);
        let mut inner: Vec<u8> = Vec::new();
        self.dec_specific.encode_into(&mut inner);
        assert(inner@ =~= self.dec_specific.body());
        put_descriptor(&mut out, DECODER_SPECIFIC_TAG, &inner);
        bytes::put_slice(buf, out.as_slice());
    }
}

/// An elementary stream.
#[derive(Debug, Clone, Copy, Default, PartialEq, Eq)]
pub struct EsDescriptor {
    pub es_id: u16,
    pub dec_config: DecoderConfig,
    pub sl_config: SLConfig,
}

impl EsDescriptor {
    pub const TAG: u8 = ES_DESCRIPTOR_TAG;

    pub open spec fn body(&self) -> Seq<u8> {
        bytes::be16(self.es_id) + seq![0u8] + descriptor(
            DECODER_CONFIG_TAG,
            self.dec_config.body(),
        ) + descriptor(SL_CONFIG_TAG, self.sl_config.body())
    }

    /// Appends the body.
    pub fn encode_into(&self, buf: &mut Vec<u8>)
        ensures
            final(buf)@ == old(buf)@ + self.body(),
    {
        let mut out: Vec<u8> = Vec::new();
        bytes::put_u16(&mut out, self.es_id);
        assert(out@ =~= bytes::be16(self.es_id));
        bytes::put_u8(&mut out, 0);
        let mut config: Vec<u8> = Vec::new();
        self.dec_config.encode_into(&mut config);
        assert(config@ =~= self.dec_config.body());
        put_descriptor(&mut out, DECODER_CONFIG_TAG, &config);
        let mut sl: Vec<u8> = Vec::new();
        self.sl_config.encode_into(&mut sl);
        assert(sl@ =~= self.sl_config.body());
        put_descriptor(&mut out, SL_CONFIG_TAG, &sl);
        bytes::put_slice(buf, out.as_slice());
    }
}

/// Appends an elementary stream's descriptor.
pub(crate) fn encode_es_descriptor(es: &EsDescriptor, buf: &mut Vec<u8>)
    ensures
        final(buf)@ == old(buf)@ + descriptor(ES_DESCRIPTOR_TAG, es.body()),
{
    let mut body: Vec<u8> = Vec::new();
    es.encode_into(&mut body);
    assert(body@ =~= es.body());
    put_descriptor(buf, ES_DESCRIPTOR_TAG, &body);
}

} // verus!
