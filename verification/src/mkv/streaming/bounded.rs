//! Budgets, and the strict subset of metadata that streaming accepts.

use crate::mkv::ebml::element;
use crate::mkv::ebml::element::{ElementHeader, Reader};
use crate::mkv::ebml::schema::ids;
use crate::mkv::Error;
use crate::text;
use std::collections::BTreeSet;
use vstd::prelude::*;
use vstd::utf8::*;

verus! {

/// Budgets for one open and the walk that follows it; seeking does not reset them.
#[derive(Debug, Clone, Copy)]
pub struct StreamingLimits {
    /// Pass over Cues, for readers that only go forward.
    pub skip_cues: bool,
    pub metadata_element_bytes: usize,
    pub total_metadata_bytes: usize,
    pub elements: usize,
    pub read_bytes: u64,
    pub io_operations: u64,
}

impl Default for StreamingLimits {
    fn default() -> (r: Self)
        ensures
            r == (StreamingLimits {
                skip_cues: false,
                metadata_element_bytes: 1_048_576,
                total_metadata_bytes: 2_097_152,
                elements: 100_000,
                read_bytes: 67_108_864,
                io_operations: 1_000_000,
            }),
    {
        StreamingLimits {
            skip_cues: false,
            metadata_element_bytes: 1_048_576,
            total_metadata_bytes: 2_097_152,
            elements: 100_000,
            read_bytes: 64 * 1024 * 1024,
            io_operations: 1_000_000,
        }
    }
}

/// How many more elements may be read.
#[derive(Debug)]
pub struct WalkBudget {
    pub elements: usize,
}

impl WalkBudget {
    /// Pays for one element.
    pub fn element(&mut self) -> (r: Result<(), Error>)
        ensures
            if old(self).elements == 0 {
                r == Err::<(), Error>(Error::Unsupported { what: "strict element budget exceeded" })
                    && final(self).elements == 0
            } else {
                r is Ok && final(self).elements == old(self).elements - 1
            },
    {
        if self.elements == 0 {
            return Err(Error::Unsupported { what: "strict element budget exceeded" });
        }
        self.elements = self.elements - 1;
        Ok(())
    }
}

/// How much more may be read from the source, and in how many operations.
#[derive(Debug)]
pub struct ReadBudget {
    pub bytes: u64,
    pub operations: u64,
    /// No single read takes more than this.
    pub max_read: usize,
}

impl ReadBudget {
    /// The budget that `limits` grants.
    pub fn new(limits: StreamingLimits) -> (r: Self)
        ensures
            r == (ReadBudget {
                bytes: limits.read_bytes,
                operations: limits.io_operations,
                max_read: usize::MAX,
            }),
    {
        ReadBudget {
            bytes: limits.read_bytes,
            operations: limits.io_operations,
            max_read: usize::MAX,
        }
    }

    /// Pays for one operation.
    pub fn operation(&mut self) -> (r: Result<(), &'static str>)
        ensures
            if old(self).operations == 0 {
                r == Err::<(), &'static str>("strict I/O operation budget exceeded")
                    && *final(self) == *old(self)
            } else {
                r is Ok && *final(self) == (ReadBudget {
                    operations: (old(self).operations - 1) as u64,
                    ..*old(self)
                })
            },
    {
        if self.operations == 0 {
            return Err("strict I/O operation budget exceeded");
        }
        self.operations = self.operations - 1;
        Ok(())
    }

    /// Pays for one read of up to `want` bytes and says how many may be asked for.
    pub fn begin_read(&mut self, want: usize) -> (r: Result<usize, &'static str>)
        ensures
            if old(self).operations == 0 {
                r == Err::<usize, &'static str>("strict I/O operation budget exceeded")
                    && *final(self) == *old(self)
            } else {
                &&& *final(self) == (ReadBudget {
                    operations: (old(self).operations - 1) as u64,
                    ..*old(self)
                })
                &&& if want > 0 && old(self).bytes == 0 {
                    r == Err::<usize, &'static str>("strict read byte budget exceeded")
                } else {
                    r is Ok && r->Ok_0 == least3(
                        want as int,
                        old(self).max_read as int,
                        old(self).bytes as int,
                    )
                }
            },
    {
        self.operation()?;
        if want == 0 {
            return Ok(0);
        }
        if self.bytes == 0 {
            return Err("strict read byte budget exceeded");
        }
        let mut n: usize = want;
        if self.max_read < n {
            n = self.max_read;
        }
        if self.bytes < n as u64 {
            n = self.bytes as usize;
        }
        Ok(n)
    }

    /// Charges the `n` bytes that a read returned.
    pub fn end_read(&mut self, n: usize)
        requires
            n <= old(self).bytes,
        ensures
            *final(self) == (ReadBudget { bytes: (old(self).bytes - n) as u64, ..*old(self) }),
    {
        self.bytes = self.bytes - n as u64;
    }
}

/// The smallest of three numbers.
pub open spec fn least3(a: int, b: int, c: int) -> int {
    if a <= b && a <= c {
        a
    } else if b <= c {
        b
    } else {
        c
    }
}

/// An element header by its offsets in the source.
#[derive(Debug, Clone, Copy, PartialEq, Eq, Structural)]
pub struct IoHeader {
    pub id: u64,
    pub payload_start: u64,
    /// `None` for an unknown size.
    pub payload_end: Option<u64>,
}

/// Where an element ends: its size must be known and stay within its parent.
pub open spec fn end_of(h: IoHeader, parent_end: u64) -> Result<u64, Error> {
    match h.payload_end {
        None => Err(Error::Unsupported { what: "strict stream requires known child sizes" }),
        Some(end) => if end < h.payload_start || end > parent_end {
            Err(Error::Malformed("element exceeds parent/file bounds"))
        } else {
            Ok(end)
        },
    }
}

/// Where an element ends.
pub fn checked_end(h: &IoHeader, parent_end: u64) -> (r: Result<u64, Error>)
    ensures
        r == end_of(*h, parent_end),
{
    match h.payload_end {
        None => Err(Error::Unsupported { what: "strict stream requires known child sizes" }),
        Some(end) => {
            if end < h.payload_start || end > parent_end {
                return Err(Error::Malformed("element exceeds parent/file bounds"));
            }
            Ok(end)
        },
    }
}

/// The children that the strict subset knows.
pub open spec fn knows(parent: u64, id: u64) -> bool {
    if parent == ids::EBML {
        id == ids::EBML_VERSION || id == ids::EBML_READ_VERSION || id == ids::EBML_MAX_ID_LENGTH
            || id == ids::EBML_MAX_SIZE_LENGTH || id == ids::DOC_TYPE || id == ids::DOC_TYPE_VERSION
            || id == ids::DOC_TYPE_READ_VERSION
    } else if parent == ids::INFO {
        id == ids::TIMESTAMP_SCALE || id == ids::DURATION || id == ids::DATE_UTC || id == ids::TITLE
            || id == ids::MUXING_APP || id == ids::WRITING_APP || id == ids::SEGMENT_UID
    } else if parent == ids::TRACKS {
        id == ids::TRACK_ENTRY
    } else if parent == ids::CUES {
        id == ids::CUE_POINT
    } else if parent == ids::CUE_POINT {
        id == ids::CUE_TIME || id == ids::CUE_TRACK_POSITIONS
    } else if parent == ids::CUE_TRACK_POSITIONS {
        id == ids::CUE_TRACK || id == ids::CUE_CLUSTER_POSITION || id == 0xF0 || id == 0xB2 || id
            == 0x5378
    } else if parent == ids::TRACK_ENTRY {
        id == ids::TRACK_NUMBER || id == ids::TRACK_UID || id == ids::TRACK_TYPE || id
            == ids::FLAG_ENABLED || id == ids::FLAG_DEFAULT || id == ids::FLAG_FORCED || id
            == ids::FLAG_LACING || id == ids::MIN_CACHE || id == ids::MAX_BLOCK_ADDITION_ID || id
            == ids::BLOCK_ADDITION_MAPPING || id == ids::DEFAULT_DURATION || id == ids::NAME || id
            == ids::LANGUAGE || id == ids::LANGUAGE_IETF || id == ids::CODEC_ID || id
            == ids::CODEC_PRIVATE || id == ids::CODEC_NAME || id == ids::CODEC_DELAY || id
            == ids::SEEK_PRE_ROLL || id == ids::VIDEO || id == ids::AUDIO
    } else if parent == ids::BLOCK_ADDITION_MAPPING {
        id == ids::BLOCK_ADD_ID_VALUE || id == ids::BLOCK_ADD_ID_NAME || id
            == ids::BLOCK_ADD_ID_TYPE || id == ids::BLOCK_ADD_ID_EXTRA_DATA
    } else if parent == ids::VIDEO {
        id == ids::PIXEL_WIDTH || id == ids::PIXEL_HEIGHT || id == ids::DISPLAY_WIDTH || id
            == ids::DISPLAY_HEIGHT || id == ids::FRAME_RATE || id == ids::FLAG_INTERLACED
    } else if parent == ids::AUDIO {
        id == ids::SAMPLING_FREQUENCY || id == ids::OUTPUT_SAMPLING_FREQUENCY || id == ids::CHANNELS
            || id == ids::BIT_DEPTH
    } else {
        false
    }
}

/// The elements that carry nothing.
pub open spec fn is_filler(id: u64) -> bool {
    id == ids::VOID || id == ids::CRC32
}

/// The elements that may stand in a parent more than once.
pub open spec fn repeatable(id: u64) -> bool {
    id == ids::TRACK_ENTRY || id == ids::BLOCK_ADDITION_MAPPING || id == ids::CUE_POINT || id
        == ids::CUE_TRACK_POSITIONS || is_filler(id)
}

/// The elements whose children are checked in turn.
pub open spec fn nests(id: u64) -> bool {
    id == ids::TRACK_ENTRY || id == ids::BLOCK_ADDITION_MAPPING || id == ids::VIDEO || id
        == ids::AUDIO || id == ids::CUE_POINT || id == ids::CUE_TRACK_POSITIONS
}

/// The elements that hold text.
pub open spec fn holds_text(id: u64) -> bool {
    id == ids::DOC_TYPE || id == ids::TITLE || id == ids::MUXING_APP || id == ids::WRITING_APP || id
        == ids::NAME || id == ids::LANGUAGE || id == ids::LANGUAGE_IETF || id == ids::CODEC_ID || id
        == ids::CODEC_NAME
}

/// The largest value of an EBML header field.
pub open spec fn ebml_limit(id: u64) -> u64 {
    if id == ids::EBML_MAX_ID_LENGTH {
        4
    } else if id == ids::EBML_MAX_SIZE_LENGTH {
        8
    } else if id == ids::DOC_TYPE_VERSION || id == ids::DOC_TYPE_READ_VERSION {
        4
    } else {
        1
    }
}

/// Whether a character is a control character.
pub open spec fn is_control(c: char) -> bool {
    (c as u32) < 0x20 || 0x7F <= c as u32 <= 0x9F
}

/// Whether a text holds a control character.
pub open spec fn has_control(t: Seq<char>) -> bool {
    exists|i: int| 0 <= i < t.len() && is_control(#[trigger] t[i])
}

/// Whether bytes are printable ASCII.
pub open spec fn printable(b: Seq<u8>) -> bool {
    forall|i: int| 0 <= i < b.len() ==> 0x20 <= #[trigger] b[i] <= 0x7E
}

/// What was seen of an element's children.
pub struct Walked {
    pub seen: Set<u64>,
    pub track_type: Option<u64>,
    /// Whether the track declares additions to its blocks.
    pub extended: bool,
    /// How many more elements may be read.
    pub left: int,
}

/// No child was seen.
pub open spec fn unseen(left: int) -> Walked {
    Walked { seen: Set::empty(), track_type: None, extended: false, left }
}

/// What a child of a track adds to what was seen.
pub open spec fn track_field(b: Seq<u8>, h: ElementHeader, st: Walked) -> Result<Walked, Error> {
    let id = h.id.value;
    if id == ids::TRACK_TYPE {
        match element::uint_of(b, h) {
            Err(e) => Err(e),
            Ok(v) => Ok(Walked { track_type: Some(v), ..st }),
        }
    } else if id == ids::BLOCK_ADDITION_MAPPING {
        Ok(Walked { extended: true, ..st })
    } else if id == ids::MAX_BLOCK_ADDITION_ID {
        match element::uint_of(b, h) {
            Err(e) => Err(e),
            Ok(v) => Ok(Walked { extended: st.extended || v != 0, ..st }),
        }
    } else if id == ids::MIN_CACHE && element::uint_of(b, h) is Err {
        Err(
            Error::Malformed("MinCache element 0x6DE7 in parent 0xAE: unsigned integer > 8 bytes"),
        )
    } else {
        Ok(st)
    }
}

/// What is wrong with a child of a BlockAdditionMapping.
pub open spec fn mapping_field(b: Seq<u8>, h: ElementHeader, end: int) -> Option<Error> {
    let id = h.id.value;
    if id == ids::BLOCK_ADD_ID_VALUE {
        match element::uint_of(b, h) {
            Err(e) => Some(e),
            Ok(v) => if v < 2 {
                Some(Error::Malformed("BlockAddIDValue must be at least 2"))
            } else {
                None
            },
        }
    } else if id == ids::BLOCK_ADD_ID_TYPE {
        match element::uint_of(b, h) {
            Err(e) => Some(e),
            Ok(_) => None,
        }
    } else if id == ids::BLOCK_ADD_ID_NAME && !printable(
        b.subrange(h.payload_start as int, end),
    ) {
        Some(Error::Malformed("BlockAddIDName must be printable ASCII"))
    } else {
        None
    }
}

/// What a child, but for its own children, makes of what was seen.
pub open spec fn child_field(
    b: Seq<u8>,
    h: ElementHeader,
    end: int,
    parent: u64,
    st: Walked,
) -> Result<Walked, Error> {
    let id = h.id.value;
    let s = Walked { seen: st.seen.insert(id), ..st };
    if !repeatable(id) && st.seen.contains(id) {
        Err(Error::Malformed("duplicate strict metadata field"))
    } else if !knows(parent, id) && !is_filler(id) {
        Err(Error::UnsupportedElement { parent, element: id })
    } else if parent == ids::TRACK_ENTRY {
        track_field(b, h, s)
    } else if parent == ids::BLOCK_ADDITION_MAPPING {
        match mapping_field(b, h, end) {
            Some(e) => Err(e),
            None => Ok(s),
        }
    } else {
        Ok(s)
    }
}

/// What is wrong with a child's text or version.
pub open spec fn child_value(b: Seq<u8>, h: ElementHeader, end: int, parent: u64) -> Option<Error> {
    let id = h.id.value;
    let p = b.subrange(h.payload_start as int, end);
    if holds_text(id) && !valid_utf8(p) {
        Some(Error::Malformed("strict metadata UTF-8"))
    } else if holds_text(id) && has_control(decode_utf8(p)) {
        Some(Error::Malformed("strict metadata control character"))
    } else if parent == ids::EBML && id != ids::DOC_TYPE && !is_filler(id) {
        match element::uint_of(b, h) {
            Err(e) => Some(e),
            Ok(v) => if v == 0 || v > ebml_limit(id) {
                Some(Error::Unsupported { what: "strict EBML version/width" })
            } else {
                None
            },
        }
    } else {
        None
    }
}

/// What is missing once all children were seen.
pub open spec fn whole(parent: u64, st: Walked) -> Option<Error> {
    if parent == ids::TRACK_ENTRY && st.extended && st.track_type != Some(1u64) {
        Some(
            Error::Unsupported {
                what:
                    "BlockAdditionMapping/MaxBlockAdditionID extensions are supported only as opaque video metadata",
            },
        )
    } else if (parent == ids::CUE_POINT && !(st.seen.contains(ids::CUE_TIME) && st.seen.contains(
        ids::CUE_TRACK_POSITIONS,
    ))) || (parent == ids::CUE_TRACK_POSITIONS && !(st.seen.contains(ids::CUE_TRACK)
        && st.seen.contains(ids::CUE_CLUSTER_POSITION))) {
        Some(Error::Malformed("missing required Cue field"))
    } else {
        None
    }
}

/// Where a child ends, if its size is known and it stays within its parent.
pub open spec fn inner_end(b: Seq<u8>, h: ElementHeader) -> Option<int> {
    match h.size {
        None => None,
        Some(n) => if h.payload_start + n <= b.len() {
            Some(h.payload_start + n)
        } else {
            None
        },
    }
}

/// What the children of `parent` from `pos` on make of what was seen.
pub open spec fn walked(b: Seq<u8>, pos: int, parent: u64, st: Walked) -> Result<Walked, Error>
    decreases b.len(), b.len() - pos,
{
    if pos >= b.len() {
        Ok(st)
    } else if st.left < 1 {
        Err(Error::Unsupported { what: "strict element budget exceeded" })
    } else {
        match element::header_at(b, pos) {
            Err(e) => Err(e),
            Ok(h) => match inner_end(b, h) {
                None => Err(Error::SizeOverflow),
                Some(end) => if !(0 <= pos < h.payload_start <= end <= b.len()) {
                    Ok(st)
                } else {
                    match child_field(b, h, end, parent, Walked { left: st.left - 1, ..st }) {
                        Err(e) => Err(e),
                        Ok(s) => {
                            let id = h.id.value;
                            let inner = if nests(id) {
                                walked(
                                    b.subrange(h.payload_start as int, end),
                                    0,
                                    id,
                                    unseen(s.left),
                                )
                            } else {
                                Ok(unseen(s.left))
                            };
                            match inner {
                                Err(e) => Err(e),
                                Ok(w) => if nests(id) && whole(id, w) is Some {
                                    Err(whole(id, w)->Some_0)
                                } else {
                                    match child_value(b, h, end, parent) {
                                        Some(e) => Err(e),
                                        None => walked(
                                            b,
                                            end,
                                            parent,
                                            Walked { left: w.left, ..s },
                                        ),
                                    }
                                },
                            }
                        },
                    }
                },
            },
        }
    }
}

/// Whether the children of `parent` are in the strict subset, and then how many more
/// elements may be read.
pub open spec fn validated(b: Seq<u8>, parent: u64, left: int) -> Result<int, Error> {
    match walked(b, 0, parent, unseen(left)) {
        Err(e) => Err(e),
        Ok(st) => match whole(parent, st) {
            Some(e) => Err(e),
            None => Ok(st.left),
        },
    }
}

fn is_known(parent: u64, id: u64) -> (r: bool)
    ensures
        r == knows(parent, id),
{
    match parent {
        ids::EBML => matches!(
            id,
            ids::EBML_VERSION | ids::EBML_READ_VERSION | ids::EBML_MAX_ID_LENGTH
                | ids::EBML_MAX_SIZE_LENGTH | ids::DOC_TYPE | ids::DOC_TYPE_VERSION
                | ids::DOC_TYPE_READ_VERSION
        ),
        ids::INFO => matches!(
            id,
            ids::TIMESTAMP_SCALE | ids::DURATION | ids::DATE_UTC | ids::TITLE | ids::MUXING_APP
                | ids::WRITING_APP | ids::SEGMENT_UID
        ),
        ids::TRACKS => id == ids::TRACK_ENTRY,
        ids::CUES => id == ids::CUE_POINT,
        ids::CUE_POINT => matches!(id, ids::CUE_TIME | ids::CUE_TRACK_POSITIONS),
        // CueRelativePosition, CueDuration and CueBlockNumber are known as well.
        ids::CUE_TRACK_POSITIONS => matches!(
            id,
            ids::CUE_TRACK | ids::CUE_CLUSTER_POSITION | 0xF0 | 0xB2 | 0x5378
        ),
        ids::TRACK_ENTRY => matches!(
            id,
            ids::TRACK_NUMBER | ids::TRACK_UID | ids::TRACK_TYPE | ids::FLAG_ENABLED
                | ids::FLAG_DEFAULT | ids::FLAG_FORCED | ids::FLAG_LACING | ids::MIN_CACHE
                | ids::MAX_BLOCK_ADDITION_ID | ids::BLOCK_ADDITION_MAPPING | ids::DEFAULT_DURATION
                | ids::NAME | ids::LANGUAGE | ids::LANGUAGE_IETF | ids::CODEC_ID
                | ids::CODEC_PRIVATE | ids::CODEC_NAME | ids::CODEC_DELAY | ids::SEEK_PRE_ROLL
                | ids::VIDEO | ids::AUDIO
        ),
        ids::BLOCK_ADDITION_MAPPING => matches!(
            id,
            ids::BLOCK_ADD_ID_VALUE | ids::BLOCK_ADD_ID_NAME | ids::BLOCK_ADD_ID_TYPE
                | ids::BLOCK_ADD_ID_EXTRA_DATA
        ),
        ids::VIDEO => matches!(
            id,
            ids::PIXEL_WIDTH | ids::PIXEL_HEIGHT | ids::DISPLAY_WIDTH | ids::DISPLAY_HEIGHT
                | ids::FRAME_RATE | ids::FLAG_INTERLACED
        ),
        ids::AUDIO => matches!(
            id,
            ids::SAMPLING_FREQUENCY | ids::OUTPUT_SAMPLING_FREQUENCY | ids::CHANNELS
                | ids::BIT_DEPTH
        ),
        _ => false,
    }
}

fn may_repeat(id: u64) -> (r: bool)
    ensures
        r == repeatable(id),
{
    matches!(
        id,
        ids::TRACK_ENTRY | ids::BLOCK_ADDITION_MAPPING | ids::CUE_POINT | ids::CUE_TRACK_POSITIONS
            | ids::VOID | ids::CRC32
    )
}

fn is_nested(id: u64) -> (r: bool)
    ensures
        r == nests(id),
{
    matches!(
        id,
        ids::TRACK_ENTRY | ids::BLOCK_ADDITION_MAPPING | ids::VIDEO | ids::AUDIO | ids::CUE_POINT
            | ids::CUE_TRACK_POSITIONS
    )
}

fn is_text(id: u64) -> (r: bool)
    ensures
        r == holds_text(id),
{
    matches!(
        id,
        ids::DOC_TYPE | ids::TITLE | ids::MUXING_APP | ids::WRITING_APP | ids::NAME | ids::LANGUAGE
            | ids::LANGUAGE_IETF | ids::CODEC_ID | ids::CODEC_NAME
    )
}

/// Whether a text holds a control character.
fn contains_control(t: &str) -> (r: bool)
    ensures
        r == has_control(t@),
{
    broadcast use vstd::string::axiom_spec_iter;

    let mut found: bool = false;
    for c in it: t.chars()
        invariant
            it.seq() == t@,
            found == (exists|i: int| 0 <= i < it.index() && is_control(#[trigger] t@[i])),
    {
        let v: u32 = c as u32;
        let hit: bool = v < 0x20 || (0x7F <= v && v <= 0x9F);
        proof {
            let k = it.index();
            assert(c == t@[k]);
            assert(hit == is_control(t@[k]));
        }
        if hit {
            found = true;
        }
    }
    found
}

/// Whether bytes are printable ASCII.
fn is_printable(b: &[u8]) -> (r: bool)
    ensures
        r == printable(b@),
{
    let mut i: usize = 0;
    while i < b.len()
        invariant
            i <= b@.len(),
            forall|j: int| 0 <= j < i ==> 0x20 <= #[trigger] b@[j] <= 0x7E,
        decreases b@.len() - i,
    {
        if b[i] < 0x20 || b[i] > 0x7E {
            return false;
        }
        i = i + 1;
    }
    true
}

/// The value of what was seen.
spec fn walked_view(
    seen: Set<u64>,
    track_type: Option<u64>,
    extended: bool,
    left: usize,
) -> Walked {
    Walked { seen, track_type, extended, left: left as int }
}

/// Checks a child's text or version.
fn check_value(bytes: &[u8], r: &Reader<'_>, h: &ElementHeader, end: usize, parent: u64) -> (res:
    Result<(), Error>)
    requires
        r.data() == bytes@,
        h.payload_start <= end <= bytes@.len(),
    ensures
        match child_value(bytes@, *h, end as int, parent) {
            Some(e) => res == Err::<(), Error>(e),
            None => res is Ok,
        },
{
    let id: u64 = h.id.value;
    if is_text(id) {
        match text::from_utf8(&bytes[h.payload_start..end]) {
            Err(_) => return Err(Error::Malformed("strict metadata UTF-8")),
            Ok(t) => {
                if contains_control(t) {
                    return Err(Error::Malformed("strict metadata control character"));
                }
            },
        }
    }
    if parent == ids::EBML && !matches!(id, ids::DOC_TYPE | ids::VOID | ids::CRC32) {
        let v: u64 = r.read_uint(h)?;
        let max: u64 = match id {
            ids::EBML_MAX_ID_LENGTH => 4,
            ids::EBML_MAX_SIZE_LENGTH => 8,
            ids::DOC_TYPE_VERSION | ids::DOC_TYPE_READ_VERSION => 4,
            _ => 1,
        };
        if v == 0 || v > max {
            return Err(Error::Unsupported { what: "strict EBML version/width" });
        }
    }
    Ok(())
}

/// Checks a child of a BlockAdditionMapping.
fn check_mapping(bytes: &[u8], r: &Reader<'_>, h: &ElementHeader, end: usize) -> (res: Result<
    (),
    Error,
>)
    requires
        r.data() == bytes@,
        h.payload_start <= end <= bytes@.len(),
    ensures
        match mapping_field(bytes@, *h, end as int) {
            Some(e) => res == Err::<(), Error>(e),
            None => res is Ok,
        },
{
    match h.id.value {
        ids::BLOCK_ADD_ID_VALUE => {
            if r.read_uint(h)? < 2 {
                return Err(Error::Malformed("BlockAddIDValue must be at least 2"));
            }
        },
        ids::BLOCK_ADD_ID_TYPE => {
            r.read_uint(h)?;
        },
        ids::BLOCK_ADD_ID_NAME => {
            if !is_printable(&bytes[h.payload_start..end]) {
                return Err(Error::Malformed("BlockAddIDName must be printable ASCII"));
            }
        },
        _ => {},
    }
    Ok(())
}

/// Checks that the children of `parent` are in the strict subset. Every element
/// read is paid for.
pub fn validate_metadata(bytes: &[u8], parent: u64, state: &mut WalkBudget) -> (res: Result<
    (),
    Error,
>)
    ensures
        match validated(bytes@, parent, old(state).elements as int) {
            Ok(left) => res is Ok && final(state).elements == left,
            Err(e) => res == Err::<(), Error>(e),
        },
    decreases bytes@.len(),
{
    broadcast use vstd::std_specs::btree::group_btree_axioms;

    let len: usize = bytes.len();
    let mut r = Reader::new(bytes);
    let mut seen: BTreeSet<u64> = BTreeSet::new();
    let mut track_type: Option<u64> = None;
    let mut extended: bool = false;
    let ghost target = walked(bytes@, 0, parent, unseen(state.elements as int));
    while !r.eof()
        invariant
            len == bytes@.len(),
            r.data() == bytes@,
            0 <= r.at(),
            target == walked(bytes@, 0, parent, unseen(old(state).elements as int)),
            target == walked(
                bytes@,
                r.at(),
                parent,
                walked_view(seen@, track_type, extended, state.elements),
            ),
        decreases len - r.at(),
    {
        state.element()?;
        let h = r.read_header()?;
        let end: usize = match h.size {
            None => return Err(Error::SizeOverflow),
            Some(n) => {
                if n > (len - h.payload_start) as u64 {
                    return Err(Error::SizeOverflow);
                }
                h.payload_start + n as usize
            },
        };
        assert(inner_end(bytes@, h) == Some(end as int));
        let id: u64 = h.id.value;
        let duplicate: bool = !seen.insert(id);
        if !may_repeat(id) && duplicate {
            return Err(Error::Malformed("duplicate strict metadata field"));
        }
        if !is_known(parent, id) && !matches!(id, ids::VOID | ids::CRC32) {
            return Err(Error::UnsupportedElement { parent, element: id });
        }
        if parent == ids::TRACK_ENTRY {
            match id {
                ids::TRACK_TYPE => {
                    track_type = Some(r.read_uint(&h)?);
                },
                ids::BLOCK_ADDITION_MAPPING => {
                    extended = true;
                },
                ids::MAX_BLOCK_ADDITION_ID => {
                    let v: u64 = r.read_uint(&h)?;
                    if v != 0 {
                        extended = true;
                    }
                },
                ids::MIN_CACHE => {
                    // A playback hint of older files. It is checked, but no cache
                    // is sized by it.
                    if r.read_uint(&h).is_err() {
                        return Err(
                            Error::Malformed(
                                "MinCache element 0x6DE7 in parent 0xAE: unsigned integer > 8 bytes",
                            ),
                        );
                    }
                },
                _ => {},
            }
        }
        if parent == ids::BLOCK_ADDITION_MAPPING {
            check_mapping(bytes, &r, &h, end)?;
        }
        if is_nested(id) {
            validate_metadata(&bytes[h.payload_start..end], id, state)?;
        }
        check_value(bytes, &r, &h, end, parent)?;
        r.skip_payload(&h)?;
    }
    // Only now is it known what the track is: the order of fields means nothing.
    if parent == ids::TRACK_ENTRY && extended && track_type != Some(1u64) {
        return Err(
            Error::Unsupported {
                what:
                    "BlockAdditionMapping/MaxBlockAdditionID extensions are supported only as opaque video metadata",
            },
        );
    }
    if (parent == ids::CUE_POINT && (!seen.contains(&ids::CUE_TIME) || !seen.contains(
        &ids::CUE_TRACK_POSITIONS,
    ))) || (parent == ids::CUE_TRACK_POSITIONS && (!seen.contains(&ids::CUE_TRACK)
        || !seen.contains(&ids::CUE_CLUSTER_POSITION))) {
        return Err(Error::Malformed("missing required Cue field"));
    }
    Ok(())
}

} // verus!
