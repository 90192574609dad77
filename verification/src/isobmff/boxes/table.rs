//! Sample tables.

use crate::bytes;
use crate::isobmff::boxes;
use crate::isobmff::boxes::{encode_full, kinds, put_count, write_only, Encode, FullBox, Wire};
use crate::isobmff::error;
use crate::isobmff::IsobmffResult;
use vstd::prelude::*;

verus! {

/// So many samples of this length.
#[derive(Debug, Clone, Default, PartialEq, Eq)]
pub struct SttsEntry {
    pub sample_count: u32,
    pub sample_delta: u32,
}

pub open spec fn stts_bytes() -> spec_fn(SttsEntry) -> Seq<u8> {
    |e: SttsEntry| bytes::be32(e.sample_count) + bytes::be32(e.sample_delta)
}

/// Decode times: runs of samples of equal length.
#[derive(Debug, Clone, Default, PartialEq, Eq)]
pub struct Stts {
    pub entries: Vec<SttsEntry>,
}

impl FullBox for Stts {
    const KIND: [u8; 4] = kinds::STTS;

    open spec fn version_of(&self) -> u8 {
        0
    }

    open spec fn flags_of(&self) -> u32 {
        0
    }

    open spec fn full_body(&self) -> Wire {
        Ok(bytes::be32(boxes::count32(self.entries@.len())) + boxes::run(self.entries@, stts_bytes()))
    }

    open spec fn reads_full_body(version: u8, flags: u32, b: Seq<u8>, r: IsobmffResult<Self>) -> bool {
        error::malformed(r, "Stts decode not implemented"@)
    }

    fn version(&self) -> (r: u8) {
        0
    }

    fn flags(&self) -> (r: u32) {
        0
    }

    fn encode_full_body(&self, buf: &mut Vec<u8>) -> (r: IsobmffResult<()>) {
        broadcast use boxes::group_wire;

        put_count(buf, self.entries.len());
        let ghost before = buf@;
        let mut i: usize = 0;
        assert(self.entries@.take(0) =~= Seq::empty());
        assert(before + Seq::<u8>::empty() =~= before);
        while i < self.entries.len()
            invariant
                i <= self.entries@.len(),
                buf@ == before + boxes::run(self.entries@.take(i as int), stts_bytes()),
            decreases self.entries@.len() - i,
        {
            broadcast use boxes::group_wire;
        
            proof {
                boxes::lemma_run(self.entries@, stts_bytes(), i as int);
            }
            let e = &self.entries[i];
            bytes::put_u32(buf, e.sample_count);
            bytes::put_u32(buf, e.sample_delta);
            i = i + 1;
        }
        assert(self.entries@.take(i as int) =~= self.entries@);
        Ok(())
    }

    fn decode_full_body(_version: u8, _flags: u32, _buf: &[u8]) -> (r: IsobmffResult<Self>) {
        write_only("Stts decode not implemented")
    }
}

impl Encode for Stts {
    open spec fn wire(&self) -> Wire {
        boxes::full_boxed(kinds::STTS@, self.version_of(), self.flags_of(), self.full_body())
    }

    fn encode(&self, buf: &mut Vec<u8>) -> (r: IsobmffResult<()>) {
        encode_full(self, buf)
    }
}

/// So many samples in each chunk from this one on.
#[derive(Debug, Clone, Default, PartialEq, Eq)]
pub struct StscEntry {
    pub first_chunk: u32,
    pub samples_per_chunk: u32,
    pub sample_description_index: u32,
}

pub open spec fn stsc_bytes() -> spec_fn(StscEntry) -> Seq<u8> {
    |e: StscEntry| bytes::be32(e.first_chunk) + bytes::be32(e.samples_per_chunk) + bytes::be32(
            e.sample_description_index,
        )
}

/// Which samples are in which chunk.
#[derive(Debug, Clone, Default, PartialEq, Eq)]
pub struct Stsc {
    pub entries: Vec<StscEntry>,
}

impl FullBox for Stsc {
    const KIND: [u8; 4] = kinds::STSC;

    open spec fn version_of(&self) -> u8 {
        0
    }

    open spec fn flags_of(&self) -> u32 {
        0
    }

    open spec fn full_body(&self) -> Wire {
        Ok(bytes::be32(boxes::count32(self.entries@.len())) + boxes::run(self.entries@, stsc_bytes()))
    }

    open spec fn reads_full_body(version: u8, flags: u32, b: Seq<u8>, r: IsobmffResult<Self>) -> bool {
        error::malformed(r, "Stsc decode not implemented"@)
    }

    fn version(&self) -> (r: u8) {
        0
    }

    fn flags(&self) -> (r: u32) {
        0
    }

    fn encode_full_body(&self, buf: &mut Vec<u8>) -> (r: IsobmffResult<()>) {
        broadcast use boxes::group_wire;

        put_count(buf, self.entries.len());
        let ghost before = buf@;
        let mut i: usize = 0;
        assert(self.entries@.take(0) =~= Seq::empty());
        assert(before + Seq::<u8>::empty() =~= before);
        while i < self.entries.len()
            invariant
                i <= self.entries@.len(),
                buf@ == before + boxes::run(self.entries@.take(i as int), stsc_bytes()),
            decreases self.entries@.len() - i,
        {
            broadcast use boxes::group_wire;
        
            proof {
                boxes::lemma_run(self.entries@, stsc_bytes(), i as int);
            }
            let e = &self.entries[i];
            bytes::put_u32(buf, e.first_chunk);
            bytes::put_u32(buf, e.samples_per_chunk);
            bytes::put_u32(buf, e.sample_description_index);
            i = i + 1;
        }
        assert(self.entries@.take(i as int) =~= self.entries@);
        Ok(())
    }

    fn decode_full_body(_version: u8, _flags: u32, _buf: &[u8]) -> (r: IsobmffResult<Self>) {
        write_only("Stsc decode not implemented")
    }
}

impl Encode for Stsc {
    open spec fn wire(&self) -> Wire {
        boxes::full_boxed(kinds::STSC@, self.version_of(), self.flags_of(), self.full_body())
    }

    fn encode(&self, buf: &mut Vec<u8>) -> (r: IsobmffResult<()>) {
        encode_full(self, buf)
    }
}

/// Sizes: one for all samples, or one for each.
#[derive(Debug, Clone, PartialEq, Eq)]
pub enum StszSamples {
    Identical { count: u32, size: u32 },
    Different { sizes: Vec<u32> },
}

impl Default for StszSamples {
    fn default() -> (r: Self)
        ensures
            r matches StszSamples::Different { sizes } && sizes@.len() == 0,
    {
        StszSamples::Different { sizes: Vec::new() }
    }
}

pub open spec fn number_bytes() -> spec_fn(u32) -> Seq<u8> {
    |v: u32| bytes::be32(v)
}

/// Appends numbers one after the other.
fn put_numbers(buf: &mut Vec<u8>, v: &Vec<u32>)
    ensures
        final(buf)@ == old(buf)@ + boxes::run(v@, number_bytes()),
{
    broadcast use boxes::group_wire;

    let mut i: usize = 0;
    assert(v@.take(0) =~= Seq::empty());
    assert(buf@ + Seq::<u8>::empty() =~= buf@);
    while i < v.len()
        invariant
            i <= v@.len(),
            buf@ == old(buf)@ + boxes::run(v@.take(i as int), number_bytes()),
        decreases v@.len() - i,
    {
        broadcast use boxes::group_wire;

        proof {
            boxes::lemma_run(v@, number_bytes(), i as int);
        }
        bytes::put_u32(buf, v[i]);
        i = i + 1;
    }
    assert(v@.take(i as int) =~= v@);
}

/// Sample sizes.
#[derive(Debug, Clone, Default, PartialEq, Eq)]
pub struct Stsz {
    pub samples: StszSamples,
}

impl FullBox for Stsz {
    const KIND: [u8; 4] = kinds::STSZ;

    open spec fn version_of(&self) -> u8 {
        0
    }

    open spec fn flags_of(&self) -> u32 {
        0
    }

    open spec fn full_body(&self) -> Wire {
        match self.samples {
            StszSamples::Identical { count, size } => Ok(bytes::be32(size) + bytes::be32(count)),
            StszSamples::Different { sizes } => Ok(
                bytes::be32(0) + bytes::be32(boxes::count32(sizes@.len())) + boxes::run(
                    sizes@,
                    number_bytes(),
                ),
            ),
        }
    }

    open spec fn reads_full_body(version: u8, flags: u32, b: Seq<u8>, r: IsobmffResult<Self>) -> bool {
        error::malformed(r, "Stsz decode not implemented"@)
    }

    fn version(&self) -> (r: u8) {
        0
    }

    fn flags(&self) -> (r: u32) {
        0
    }

    fn encode_full_body(&self, buf: &mut Vec<u8>) -> (r: IsobmffResult<()>) {
        broadcast use boxes::group_wire;

        match &self.samples {
            StszSamples::Identical { count, size } => {
                bytes::put_u32(buf, *size);
                bytes::put_u32(buf, *count);
            },
            StszSamples::Different { sizes } => {
                bytes::put_u32(buf, 0);
                put_count(buf, sizes.len());
                put_numbers(buf, sizes);
            },
        }
        Ok(())
    }

    fn decode_full_body(_version: u8, _flags: u32, _buf: &[u8]) -> (r: IsobmffResult<Self>) {
        write_only("Stsz decode not implemented")
    }
}

impl Encode for Stsz {
    open spec fn wire(&self) -> Wire {
        boxes::full_boxed(kinds::STSZ@, self.version_of(), self.flags_of(), self.full_body())
    }

    fn encode(&self, buf: &mut Vec<u8>) -> (r: IsobmffResult<()>) {
        encode_full(self, buf)
    }
}

/// Where the chunks start, in 32-bit offsets.
#[derive(Debug, Clone, Default, PartialEq, Eq)]
pub struct Stco {
    pub entries: Vec<u32>,
}

impl FullBox for Stco {
    const KIND: [u8; 4] = kinds::STCO;

    open spec fn version_of(&self) -> u8 {
        0
    }

    open spec fn flags_of(&self) -> u32 {
        0
    }

    open spec fn full_body(&self) -> Wire {
        Ok(
            bytes::be32(boxes::count32(self.entries@.len())) + boxes::run(
                self.entries@,
                number_bytes(),
            ),
        )
    }

    open spec fn reads_full_body(version: u8, flags: u32, b: Seq<u8>, r: IsobmffResult<Self>) -> bool {
        error::malformed(r, "Stco decode not implemented"@)
    }

    fn version(&self) -> (r: u8) {
        0
    }

    fn flags(&self) -> (r: u32) {
        0
    }

    fn encode_full_body(&self, buf: &mut Vec<u8>) -> (r: IsobmffResult<()>) {
        broadcast use boxes::group_wire;

        put_count(buf, self.entries.len());
        put_numbers(buf, &self.entries);
        Ok(())
    }

    fn decode_full_body(_version: u8, _flags: u32, _buf: &[u8]) -> (r: IsobmffResult<Self>) {
        write_only("Stco decode not implemented")
    }
}

impl Encode for Stco {
    open spec fn wire(&self) -> Wire {
        boxes::full_boxed(kinds::STCO@, self.version_of(), self.flags_of(), self.full_body())
    }

    fn encode(&self, buf: &mut Vec<u8>) -> (r: IsobmffResult<()>) {
        encode_full(self, buf)
    }
}

} // verus!
