//! Bounded reading of Matroska from a seekable source.
//!
//! Nothing here reads. [`open::Opener`] and [`walk::Walker`] say what to read,
//! skip or copy next, take what came back, and keep the budgets: the metadata is
//! found by walking element boundaries, and blocks of tracks that nobody asked for
//! are passed over by seeking.

pub mod bounded;
pub mod memory;
pub mod open;
pub mod walk;
pub mod yielded;

use crate::bytes;
use crate::mkv::ebml::element;
use crate::mkv::ebml::varint;
use crate::mkv::ebml::varint::{read_vint_id, read_vint_raw};
use crate::mkv::streaming::bounded::IoHeader;
use crate::mkv::Error;
use vstd::prelude::*;

verus! {

/// What is known of a frame once its data was copied.
///
/// The time is that of presentation: frames of codecs that reorder come in the
/// order of decoding.
#[derive(Debug, Clone, Copy, PartialEq, Eq, Structural)]
pub struct FrameHeader {
    pub track: u64,
    pub timestamp_ns: u64,
    pub is_keyframe: Option<bool>,
    pub is_invisible: bool,
    pub is_discardable: Option<bool>,
    /// The BlockDuration of a BlockGroup that has one.
    pub block_duration_ns: Option<u64>,
    /// How many ReferenceBlocks a BlockGroup holds; `None` for a SimpleBlock.
    pub reference_block_count: Option<u8>,
    /// How many bytes of data were copied.
    pub data_size: u32,
}

/// A frame with its data.
#[derive(Debug, Clone)]
pub struct OwnedFrame {
    pub track: u64,
    pub timestamp_ns: u64,
    pub is_keyframe: Option<bool>,
    pub is_invisible: bool,
    pub is_discardable: Option<bool>,
    /// The BlockDuration of a BlockGroup that has one.
    pub block_duration_ns: Option<u64>,
    /// How many ReferenceBlocks a BlockGroup holds; `None` for a SimpleBlock.
    pub reference_block_count: Option<u8>,
    pub data: Vec<u8>,
}

impl FrameHeader {
    /// The frame with its data.
    pub fn with_data(self, data: Vec<u8>) -> (r: OwnedFrame)
        ensures
            r == (OwnedFrame {
                track: self.track,
                timestamp_ns: self.timestamp_ns,
                is_keyframe: self.is_keyframe,
                is_invisible: self.is_invisible,
                is_discardable: self.is_discardable,
                block_duration_ns: self.block_duration_ns,
                reference_block_count: self.reference_block_count,
                data,
            }),
    {
        OwnedFrame {
            track: self.track,
            timestamp_ns: self.timestamp_ns,
            is_keyframe: self.is_keyframe,
            is_invisible: self.is_invisible,
            is_discardable: self.is_discardable,
            block_duration_ns: self.block_duration_ns,
            reference_block_count: self.reference_block_count,
            data,
        }
    }
}

/// How many bytes to read next, `b` being what was read of an element header: its
/// first byte fixes the length of the ID, and the byte behind the ID that of the
/// size. IDs take at most four bytes.
pub open spec fn missing(b: Seq<u8>) -> Result<int, Error> {
    if b.len() == 0 {
        Ok(1)
    } else if b[0] == 0 || varint::width_of(b[0]) > 4 {
        Err(Error::InvalidVint)
    } else {
        let w = varint::width_of(b[0]);
        if b.len() < w {
            Ok(w - b.len())
        } else if b.len() == w {
            Ok(1)
        } else if b[w] == 0 {
            Err(Error::InvalidVint)
        } else if b.len() < w + varint::width_of(b[w]) {
            Ok(w + varint::width_of(b[w]) - b.len())
        } else {
            Ok(0)
        }
    }
}

/// The header in `b`, which starts at offset `at` of the source.
pub open spec fn header_of(b: Seq<u8>, at: u64) -> Result<IoHeader, Error> {
    let w = varint::width_of(b[0]);
    let n = w + varint::width_of(b[w]);
    let size = varint::vint_at(b, w)->Ok_0;
    if at + n > u64::MAX {
        Err(Error::SizeOverflow)
    } else if !size.2 && at + n + size.0 > u64::MAX {
        Err(Error::SizeOverflow)
    } else {
        Ok(
            IoHeader {
                id: bytes::uint(b.take(w)) as u64,
                payload_start: (at + n) as u64,
                payload_end: if size.2 {
                    None
                } else {
                    Some((at + n + size.0) as u64)
                },
            },
        )
    }
}

/// How long the element header is that `b` starts with.
pub open spec fn header_len(b: Seq<u8>) -> int {
    let w = varint::width_of(b[0]);
    w + varint::width_of(b[w])
}

/// A header that stands at the start of `b` is read piece by piece: as long as it is not
/// complete, more of it is asked for, but never more than there is of it.
pub proof fn law_header_comes_in_pieces(b: Seq<u8>, k: int)
    requires
        missing(b) == Ok::<int, Error>(0),
        0 <= k <= header_len(b),
    ensures
        k < header_len(b) ==> (missing(b.take(k)) matches Ok(n) && 0 < n && k + n <= header_len(b)),
        k == header_len(b) ==> missing(b.take(k)) == Ok::<int, Error>(0) && forall|at: u64|
            #[trigger] header_of(b.take(k), at) == header_of(b, at),
{
    let w = varint::width_of(b[0]);
    let n = header_len(b);
    if k == n {
        assert(b.take(k).take(w) =~= b.take(w));
        assert(b.take(k).subrange(w, n) =~= b.subrange(w, n));
    }
}

/// How many bytes of an element header to read next; none if it is complete.
pub fn header_missing(buf: &[u8]) -> (r: Result<usize, Error>)
    ensures
        match missing(buf@) {
            Ok(n) => r is Ok && r->Ok_0 == n,
            Err(e) => r == Err::<usize, Error>(e),
        },
{
    let n: usize = buf.len();
    if n == 0 {
        return Ok(1);
    }
    if buf[0] == 0 {
        return Err(Error::InvalidVint);
    }
    let w: usize = varint::width(buf[0]);
    if w > 4 {
        return Err(Error::InvalidVint);
    }
    if n < w {
        return Ok(w - n);
    }
    if n == w {
        return Ok(1);
    }
    if buf[w] == 0 {
        return Err(Error::InvalidVint);
    }
    let end: usize = w + varint::width(buf[w]);
    if n < end {
        return Ok(end - n);
    }
    Ok(0)
}

/// Decodes an element header that is complete.
pub fn decode_header(buf: &[u8], at: u64) -> (r: Result<IoHeader, Error>)
    requires
        missing(buf@) == Ok::<int, Error>(0),
    ensures
        r == header_of(buf@, at),
{
    let mut pos: usize = 0;
    let id = read_vint_id(buf, &mut pos)?;
    assert(buf@.subrange(0, varint::width_of(buf@[0])) =~= buf@.take(varint::width_of(buf@[0])));
    let (size, _width, unknown) = read_vint_raw(buf, &mut pos)?;
    let payload_start: u64 = match at.checked_add(pos as u64) {
        Some(p) => p,
        None => return Err(Error::SizeOverflow),
    };
    let payload_end: Option<u64> = if unknown {
        None
    } else {
        match payload_start.checked_add(size) {
            Some(e) => Some(e),
            None => return Err(Error::SizeOverflow),
        }
    };
    Ok(IoHeader { id: id.value, payload_start, payload_end })
}

/// A header read piece by piece is the one that the whole source holds there.
pub proof fn law_header_agrees(s: Seq<u8>, pos: u64)
    requires
        pos < s.len() <= usize::MAX,
        missing(s.skip(pos as int)) == Ok::<int, Error>(0),
    ensures
        element::header_at(s, pos as int) matches Ok(h) && match h.size {
            Some(n) => h.payload_start + n <= u64::MAX ==> header_of(s.skip(pos as int), pos)
                == Ok::<IoHeader, Error>(
                IoHeader {
                    id: h.id.value,
                    payload_start: h.payload_start as u64,
                    payload_end: Some((h.payload_start + n) as u64),
                },
            ),
            None => header_of(s.skip(pos as int), pos) == Ok::<IoHeader, Error>(
                IoHeader {
                    id: h.id.value,
                    payload_start: h.payload_start as u64,
                    payload_end: None,
                },
            ),
        },
{
    let b = s.skip(pos as int);
    let w = varint::width_of(b[0]);
    let n = w + varint::width_of(b[w]);
    assert(b[0] == s[pos as int]);
    assert(b[w] == s[pos + w]);
    assert(b.take(w) =~= s.subrange(pos as int, pos + w));
    assert(b.subrange(w, n) =~= s.subrange(pos + w, pos + n));
}

} // verus!
