//! Movie, track and media headers.

use crate::bytes;
use crate::isobmff::boxes;
use crate::isobmff::boxes::{
    encode_all, encode_full, encode_opt, kinds, put_count, write_only, Atom, Encode, FixedPoint,
    FourCC, FullBox, Wire,
};
use crate::isobmff::error;
use crate::isobmff::IsobmffResult;
use vstd::prelude::*;
use vstd::string::*;
use vstd::utf8::*;

verus! {

/// The orientation of a movie or track.
#[derive(Debug, Clone, Copy, PartialEq, Eq)]
pub struct Matrix {
    pub a: i32,
    pub b: i32,
    pub u: i32,
    pub c: i32,
    pub d: i32,
    pub v: i32,
    pub x: i32,
    pub y: i32,
    pub w: i32,
}

/// The matrix that leaves everything as it is.
pub open spec fn unity() -> Matrix {
    Matrix { a: 0x00010000, b: 0, u: 0, c: 0, d: 0x00010000, v: 0, x: 0, y: 0, w: 0x40000000 }
}

impl Default for Matrix {
    fn default() -> (r: Self)
        ensures
            r == unity(),
    {
        Matrix { a: 0x00010000, b: 0, u: 0, c: 0, d: 0x00010000, v: 0, x: 0, y: 0, w: 0x40000000 }
    }
}

pub open spec fn matrix_bytes(m: Matrix) -> Seq<u8> {
    bytes::be32i(m.a) + bytes::be32i(m.b) + bytes::be32i(m.u) + bytes::be32i(m.c) + bytes::be32i(
        m.d,
    ) + bytes::be32i(m.v) + bytes::be32i(m.x) + bytes::be32i(m.y) + bytes::be32i(m.w)
}

fn put_matrix(buf: &mut Vec<u8>, m: &Matrix)
    ensures
        final(buf)@ == old(buf)@ + matrix_bytes(*m),
{
    broadcast use boxes::group_wire;

    bytes::put_i32(buf, m.a);
    bytes::put_i32(buf, m.b);
    bytes::put_i32(buf, m.u);
    bytes::put_i32(buf, m.c);
    bytes::put_i32(buf, m.d);
    bytes::put_i32(buf, m.v);
    bytes::put_i32(buf, m.x);
    bytes::put_i32(buf, m.y);
    bytes::put_i32(buf, m.w);
}

/// A time or duration, in 32 bits or in 64.
pub open spec fn time_bytes(short: bool, t: u64) -> Seq<u8> {
    if short {
        bytes::be32(t as u32)
    } else {
        bytes::be64(t)
    }
}

fn put_time(buf: &mut Vec<u8>, short: bool, t: u64)
    requires
        short ==> t <= u32::MAX,
    ensures
        final(buf)@ == old(buf)@ + time_bytes(short, t),
{
    if short {
        bytes::put_u32(buf, t as u32);
    } else {
        bytes::put_u64(buf, t);
    }
}

/// Whether times fit in 32 bits.
pub open spec fn fits_short(creation: u64, modification: u64, duration: u64) -> bool {
    creation <= u32::MAX && modification <= u32::MAX && duration <= u32::MAX
}

fn fits_v0(creation: u64, modification: u64, duration: u64) -> (r: bool)
    ensures
        r == fits_short(creation, modification, duration),
{
    creation <= u32::MAX as u64 && modification <= u32::MAX as u64 && duration <= u32::MAX as u64
}

/// How fast and how loud a movie plays, and what is reserved behind that.
pub open spec fn playback_bytes(rate: FixedPoint<u16>, volume: FixedPoint<u8>) -> Seq<u8> {
    bytes::be16(rate.whole) + bytes::be16(rate.fraction) + seq![volume.whole] + seq![
        volume.fraction,
    ] + bytes::zeros(10)
}

fn put_playback(buf: &mut Vec<u8>, rate: &FixedPoint<u16>, volume: &FixedPoint<u8>)
    ensures
        final(buf)@ == old(buf)@ + playback_bytes(*rate, *volume),
{
    broadcast use boxes::group_wire;

    bytes::put_u16(buf, rate.whole);
    bytes::put_u16(buf, rate.fraction);
    bytes::put_u8(buf, volume.whole);
    bytes::put_u8(buf, volume.fraction);
    bytes::put_zeros(buf, 10);
}

/// The movie header. Times take 32 bits if all of them fit.
#[derive(Debug, Clone, PartialEq, Eq)]
pub struct Mvhd {
    pub creation_time: u64,
    pub modification_time: u64,
    pub timescale: u32,
    pub duration: u64,
    pub rate: FixedPoint<u16>,
    pub volume: FixedPoint<u8>,
    pub matrix: Matrix,
    pub next_track_id: u32,
}

impl Default for Mvhd {
    fn default() -> (r: Self)
        ensures
            r == (Mvhd {
                creation_time: 0,
                modification_time: 0,
                timescale: 1000,
                duration: 0,
                rate: FixedPoint { whole: 0, fraction: 0 },
                volume: FixedPoint { whole: 0, fraction: 0 },
                matrix: unity(),
                next_track_id: 1,
            }),
    {
        Mvhd {
            creation_time: 0,
            modification_time: 0,
            timescale: 1000,
            duration: 0,
            rate: FixedPoint { whole: 0, fraction: 0 },
            volume: FixedPoint { whole: 0, fraction: 0 },
            matrix: Matrix::default(),
            next_track_id: 1,
        }
    }
}

impl FullBox for Mvhd {
    const KIND: [u8; 4] = kinds::MVHD;

    open spec fn version_of(&self) -> u8 {
        if fits_short(self.creation_time, self.modification_time, self.duration) {
            0
        } else {
            1
        }
    }

    open spec fn flags_of(&self) -> u32 {
        0
    }

    open spec fn full_body(&self) -> Wire {
        let short = fits_short(self.creation_time, self.modification_time, self.duration);
        Ok(
            time_bytes(short, self.creation_time) + time_bytes(short, self.modification_time)
                + bytes::be32(self.timescale) + time_bytes(short, self.duration)
                + playback_bytes(self.rate, self.volume) + matrix_bytes(self.matrix)
                + bytes::zeros(24) + bytes::be32(self.next_track_id),
        )
    }

    open spec fn reads_full_body(version: u8, flags: u32, b: Seq<u8>, r: IsobmffResult<Self>) -> bool {
        error::malformed(r, "Mvhd decode not implemented"@)
    }

    fn version(&self) -> (r: u8) {
        if fits_v0(self.creation_time, self.modification_time, self.duration) {
            0
        } else {
            1
        }
    }

    fn flags(&self) -> (r: u32) {
        0
    }

    fn encode_full_body(&self, buf: &mut Vec<u8>) -> (r: IsobmffResult<()>) {
        let mut out: Vec<u8> = Vec::new();
        let short: bool = fits_v0(self.creation_time, self.modification_time, self.duration);
        put_time(&mut out, short, self.creation_time);
        assert(out@ =~= time_bytes(short, self.creation_time));
        put_time(&mut out, short, self.modification_time);
        bytes::put_u32(&mut out, self.timescale);
        put_time(&mut out, short, self.duration);
        put_playback(&mut out, &self.rate, &self.volume);
        put_matrix(&mut out, &self.matrix);
        bytes::put_zeros(&mut out, 24);
        bytes::put_u32(&mut out, self.next_track_id);
        bytes::put_slice(buf, out.as_slice());
        Ok(())
    }

    fn decode_full_body(_version: u8, _flags: u32, _buf: &[u8]) -> (r: IsobmffResult<Self>) {
        write_only("Mvhd decode not implemented")
    }
}

impl Encode for Mvhd {
    open spec fn wire(&self) -> Wire {
        boxes::full_boxed(kinds::MVHD@, self.version_of(), self.flags_of(), self.full_body())
    }

    fn encode(&self, buf: &mut Vec<u8>) -> (r: IsobmffResult<()>) {
        encode_full(self, buf)
    }
}

/// The track header. The track is enabled and part of the movie.
#[derive(Debug, Clone, PartialEq, Eq)]
pub struct Tkhd {
    pub creation_time: u64,
    pub modification_time: u64,
    pub track_id: u32,
    pub duration: u64,
    pub layer: u16,
    pub alternate_group: u16,
    pub volume: FixedPoint<u8>,
    pub matrix: Matrix,
    pub width: FixedPoint<u16>,
    pub height: FixedPoint<u16>,
}

impl Default for Tkhd {
    fn default() -> (r: Self)
        ensures
            r == (Tkhd {
                creation_time: 0,
                modification_time: 0,
                track_id: 1,
                duration: 0,
                layer: 0,
                alternate_group: 0,
                volume: FixedPoint { whole: 0, fraction: 0 },
                matrix: unity(),
                width: FixedPoint { whole: 0, fraction: 0 },
                height: FixedPoint { whole: 0, fraction: 0 },
            }),
    {
        Tkhd {
            creation_time: 0,
            modification_time: 0,
            track_id: 1,
            duration: 0,
            layer: 0,
            alternate_group: 0,
            volume: FixedPoint { whole: 0, fraction: 0 },
            matrix: Matrix::default(),
            width: FixedPoint { whole: 0, fraction: 0 },
            height: FixedPoint { whole: 0, fraction: 0 },
        }
    }
}

impl FullBox for Tkhd {
    const KIND: [u8; 4] = kinds::TKHD;

    open spec fn version_of(&self) -> u8 {
        if fits_short(self.creation_time, self.modification_time, self.duration) {
            0
        } else {
            1
        }
    }

    open spec fn flags_of(&self) -> u32 {
        0x000003
    }

    open spec fn full_body(&self) -> Wire {
        let short = fits_short(self.creation_time, self.modification_time, self.duration);
        Ok(
            time_bytes(short, self.creation_time) + time_bytes(short, self.modification_time)
                + bytes::be32(self.track_id) + bytes::zeros(4) + time_bytes(short, self.duration)
                + bytes::zeros(8) + bytes::be16(self.layer) + bytes::be16(self.alternate_group)
                + seq![self.volume.whole] + seq![self.volume.fraction] + bytes::zeros(2)
                + matrix_bytes(self.matrix) + bytes::be16(self.width.whole) + bytes::be16(
                self.width.fraction,
            ) + bytes::be16(self.height.whole) + bytes::be16(self.height.fraction),
        )
    }

    open spec fn reads_full_body(version: u8, flags: u32, b: Seq<u8>, r: IsobmffResult<Self>) -> bool {
        error::malformed(r, "Tkhd decode not implemented"@)
    }

    fn version(&self) -> (r: u8) {
        if fits_v0(self.creation_time, self.modification_time, self.duration) {
            0
        } else {
            1
        }
    }

    fn flags(&self) -> (r: u32) {
        0x000003
    }

    fn encode_full_body(&self, buf: &mut Vec<u8>) -> (r: IsobmffResult<()>) {
        let mut out: Vec<u8> = Vec::new();
        let short: bool = fits_v0(self.creation_time, self.modification_time, self.duration);
        put_time(&mut out, short, self.creation_time);
        assert(out@ =~= time_bytes(short, self.creation_time));
        put_time(&mut out, short, self.modification_time);
        bytes::put_u32(&mut out, self.track_id);
        bytes::put_zeros(&mut out, 4);
        put_time(&mut out, short, self.duration);
        bytes::put_zeros(&mut out, 8);
        bytes::put_u16(&mut out, self.layer);
        bytes::put_u16(&mut out, self.alternate_group);
        bytes::put_u8(&mut out, self.volume.whole);
        bytes::put_u8(&mut out, self.volume.fraction);
        bytes::put_zeros(&mut out, 2);
        put_matrix(&mut out, &self.matrix);
        bytes::put_u16(&mut out, self.width.whole);
        bytes::put_u16(&mut out, self.width.fraction);
        bytes::put_u16(&mut out, self.height.whole);
        bytes::put_u16(&mut out, self.height.fraction);
        bytes::put_slice(buf, out.as_slice());
        Ok(())
    }

    fn decode_full_body(_version: u8, _flags: u32, _buf: &[u8]) -> (r: IsobmffResult<Self>) {
        write_only("Tkhd decode not implemented")
    }
}

impl Encode for Tkhd {
    open spec fn wire(&self) -> Wire {
        boxes::full_boxed(kinds::TKHD@, self.version_of(), self.flags_of(), self.full_body())
    }

    fn encode(&self, buf: &mut Vec<u8>) -> (r: IsobmffResult<()>) {
        encode_full(self, buf)
    }
}

/// The defaults of a track's fragments.
#[derive(Debug, Clone, Default, PartialEq, Eq)]
pub struct Trex {
    pub track_id: u32,
    pub default_sample_description_index: u32,
    pub default_sample_duration: u32,
    pub default_sample_size: u32,
    pub default_sample_flags: u32,
}

impl FullBox for Trex {
    const KIND: [u8; 4] = kinds::TREX;

    open spec fn version_of(&self) -> u8 {
        0
    }

    open spec fn flags_of(&self) -> u32 {
        0
    }

    open spec fn full_body(&self) -> Wire {
        Ok(
            bytes::be32(self.track_id) + bytes::be32(self.default_sample_description_index)
                + bytes::be32(self.default_sample_duration) + bytes::be32(self.default_sample_size)
                + bytes::be32(self.default_sample_flags),
        )
    }

    open spec fn reads_full_body(version: u8, flags: u32, b: Seq<u8>, r: IsobmffResult<Self>) -> bool {
        error::malformed(r, "Trex decode not implemented"@)
    }

    fn version(&self) -> (r: u8) {
        0
    }

    fn flags(&self) -> (r: u32) {
        0
    }

    fn encode_full_body(&self, buf: &mut Vec<u8>) -> (r: IsobmffResult<()>) {
        broadcast use boxes::group_wire;

        bytes::put_u32(buf, self.track_id);
        bytes::put_u32(buf, self.default_sample_description_index);
        bytes::put_u32(buf, self.default_sample_duration);
        bytes::put_u32(buf, self.default_sample_size);
        bytes::put_u32(buf, self.default_sample_flags);
        Ok(())
    }

    fn decode_full_body(_version: u8, _flags: u32, _buf: &[u8]) -> (r: IsobmffResult<Self>) {
        write_only("Trex decode not implemented")
    }
}

impl Encode for Trex {
    open spec fn wire(&self) -> Wire {
        boxes::full_boxed(kinds::TREX@, self.version_of(), self.flags_of(), self.full_body())
    }

    fn encode(&self, buf: &mut Vec<u8>) -> (r: IsobmffResult<()>) {
        encode_full(self, buf)
    }
}

/// One edit.
#[derive(Debug, Clone, Default, PartialEq, Eq)]
pub struct ElstEntry {
    pub segment_duration: u64,
    pub media_time: u64,
    pub media_rate: u16,
    pub media_rate_fraction: u16,
}

pub open spec fn edit_bytes() -> spec_fn(ElstEntry) -> Seq<u8> {
    |e: ElstEntry| bytes::be64(e.segment_duration) + bytes::be64(e.media_time) + bytes::be16(e.media_rate)
            + bytes::be16(e.media_rate_fraction)
}

/// An edit list, in 64-bit form.
#[derive(Debug, Clone, Default, PartialEq, Eq)]
pub struct Elst {
    pub entries: Vec<ElstEntry>,
}

impl FullBox for Elst {
    const KIND: [u8; 4] = kinds::ELST;

    open spec fn version_of(&self) -> u8 {
        1
    }

    open spec fn flags_of(&self) -> u32 {
        0
    }

    open spec fn full_body(&self) -> Wire {
        Ok(bytes::be32(boxes::count32(self.entries@.len())) + boxes::run(self.entries@, edit_bytes()))
    }

    open spec fn reads_full_body(version: u8, flags: u32, b: Seq<u8>, r: IsobmffResult<Self>) -> bool {
        error::malformed(r, "Elst decode not implemented"@)
    }

    fn version(&self) -> (r: u8) {
        1
    }

    fn flags(&self) -> (r: u32) {
        0
    }

    fn encode_full_body(&self, buf: &mut Vec<u8>) -> (r: IsobmffResult<()>) {
        broadcast use boxes::group_wire;

        put_count(buf, self.entries.len());
        let ghost before = buf@;
        let mut i: usize = 0;
        assert(self.entries@.take(0) =~= Seq::empty());
        assert(before + Seq::<u8>::empty() =~= before);
        while i < self.entries.len()
            invariant
                i <= self.entries@.len(),
                buf@ == before + boxes::run(self.entries@.take(i as int), edit_bytes()),
            decreases self.entries@.len() - i,
        {
            broadcast use boxes::group_wire;
        
            proof {
                boxes::lemma_run(self.entries@, edit_bytes(), i as int);
            }
            let e = &self.entries[i];
            bytes::put_u64(buf, e.segment_duration);
            bytes::put_u64(buf, e.media_time);
            bytes::put_u16(buf, e.media_rate);
            bytes::put_u16(buf, e.media_rate_fraction);
            i = i + 1;
        }
        assert(self.entries@.take(i as int) =~= self.entries@);
        Ok(())
    }

    fn decode_full_body(_version: u8, _flags: u32, _buf: &[u8]) -> (r: IsobmffResult<Self>) {
        write_only("Elst decode not implemented")
    }
}

impl Encode for Elst {
    open spec fn wire(&self) -> Wire {
        boxes::full_boxed(kinds::ELST@, self.version_of(), self.flags_of(), self.full_body())
    }

    fn encode(&self, buf: &mut Vec<u8>) -> (r: IsobmffResult<()>) {
        encode_full(self, buf)
    }
}

/// Edits.
#[derive(Debug, Clone, Default, PartialEq, Eq)]
pub struct Edts {
    pub elst: Option<Elst>,
}

impl Atom for Edts {
    const KIND: [u8; 4] = kinds::EDTS;

    open spec fn kind() -> Seq<u8> {
        kinds::EDTS@
    }

    proof fn kind_is_code() {
    }

    open spec fn body(&self) -> Wire {
        boxes::opt_wire(self.elst)
    }

    open spec fn reads_body(b: Seq<u8>, r: IsobmffResult<Self>) -> bool {
        error::malformed(r, "Edts decode not implemented"@)
    }

    fn encode_body(&self, buf: &mut Vec<u8>) -> (r: IsobmffResult<()>) {
        broadcast use boxes::group_wire;

        encode_opt(&self.elst, buf)
    }

    fn decode_body(_buf: &[u8]) -> (r: IsobmffResult<Self>) {
        write_only("Edts decode not implemented")
    }
}

/// The UTF-16 code units of a character.
pub open spec fn units_of_char(c: char) -> Seq<u16> {
    let v = c as u32;
    if v < 0x1_0000 {
        seq![v as u16]
    } else {
        seq![(0xD800 + (v - 0x1_0000) / 0x400) as u16, (0xDC00 + (v - 0x1_0000) % 0x400) as u16]
    }
}

/// The UTF-16 code units of a text.
pub open spec fn units_of(s: Seq<char>) -> Seq<u16>
    decreases s.len(),
{
    if s.len() == 0 {
        Seq::empty()
    } else {
        units_of_char(s[0]) + units_of(s.skip(1))
    }
}

/// The low five bits of a code unit, if it is there.
pub open spec fn letter(u: Seq<u16>, i: int) -> int {
    if i < u.len() {
        (u[i] % 32) as int
    } else {
        0
    }
}

/// A language code: three letters of five bits each.
pub open spec fn language_of(lang: Seq<char>) -> u16 {
    let u = units_of(lang);
    (letter(u, 0) * 1024 + letter(u, 1) * 32 + letter(u, 2)) as u16
}

/// The first units of a text come from its first characters.
proof fn lemma_units(s: Seq<char>, n: int)
    requires
        0 <= n <= s.len(),
    ensures
        units_of(s) == units_of(s.take(n)) + units_of(s.skip(n)),
        units_of(s.take(n)).len() >= n,
    decreases n,
{
    if n == 0 {
        assert(s.take(0) =~= Seq::empty());
        assert(s.skip(0) =~= s);
        assert(units_of(s) =~= units_of(s.take(n)) + units_of(s.skip(n)));
    } else {
        let t = s.skip(1);
        lemma_units(t, n - 1);
        assert(t.take(n - 1) =~= s.take(n).skip(1));
        assert(t.skip(n - 1) =~= s.skip(n));
        assert(s.take(n)[0] == s[0]);
        assert(units_of(s) =~= units_of(s.take(n)) + units_of(s.skip(n)));
    }
}

/// Packs a language code.
fn language_code(lang: &str) -> (r: u16)
    ensures
        r == language_of(lang@),
{
    let total: usize = lang.unicode_len();
    let n: usize = if total < 3 {
        total
    } else {
        3
    };
    let mut units: Vec<u16> = Vec::new();
    let mut i: usize = 0;
    assert(lang@.take(0) =~= Seq::empty());
    while i < n
        invariant
            i <= n <= 3,
            n <= lang@.len(),
            units@ == units_of(lang@.take(i as int)),
        decreases n - i,
    {
        let v: u32 = lang.get_char(i) as u32;
        let ghost before = units@;
        if v < 0x1_0000 {
            units.push(v as u16);
        } else {
            units.push((0xD800 + (v - 0x1_0000) / 0x400) as u16);
            units.push((0xDC00 + (v - 0x1_0000) % 0x400) as u16);
        }
        proof {
            let t = lang@.take(i + 1);
            lemma_units(t, i as int);
            assert(t.take(i as int) =~= lang@.take(i as int));
            assert(t.skip(i as int) =~= seq![lang@[i as int]]);
            assert(seq![lang@[i as int]].skip(1) =~= Seq::empty());
            assert(units_of(Seq::<char>::empty()) =~= Seq::empty());
            assert(units_of(seq![lang@[i as int]]) =~= units_of_char(lang@[i as int]));
            assert(units@ =~= before + units_of_char(lang@[i as int]));
        }
        i = i + 1;
    }
    proof {
        lemma_units(lang@, n as int);
        if total <= 3 {
            assert(lang@.take(n as int) =~= lang@);
        }
    }
    let a: u16 = if units.len() > 0 {
        units[0] % 32
    } else {
        0
    };
    let b: u16 = if units.len() > 1 {
        units[1] % 32
    } else {
        0
    };
    let c: u16 = if units.len() > 2 {
        units[2] % 32
    } else {
        0
    };
    a * 1024 + b * 32 + c
}

/// The media header. Times take 32 bits if all of them fit.
#[derive(Debug, Clone, Default, PartialEq, Eq)]
pub struct Mdhd {
    pub creation_time: u64,
    pub modification_time: u64,
    pub timescale: u32,
    pub duration: u64,
    pub language: String,
}

impl FullBox for Mdhd {
    const KIND: [u8; 4] = kinds::MDHD;

    open spec fn version_of(&self) -> u8 {
        if fits_short(self.creation_time, self.modification_time, self.duration) {
            0
        } else {
            1
        }
    }

    open spec fn flags_of(&self) -> u32 {
        0
    }

    open spec fn full_body(&self) -> Wire {
        let short = fits_short(self.creation_time, self.modification_time, self.duration);
        Ok(
            time_bytes(short, self.creation_time) + time_bytes(short, self.modification_time)
                + bytes::be32(self.timescale) + time_bytes(short, self.duration) + bytes::be16(
                language_of(self.language@),
            ) + bytes::zeros(2),
        )
    }

    open spec fn reads_full_body(version: u8, flags: u32, b: Seq<u8>, r: IsobmffResult<Self>) -> bool {
        error::malformed(r, "Mdhd decode not implemented"@)
    }

    fn version(&self) -> (r: u8) {
        if fits_v0(self.creation_time, self.modification_time, self.duration) {
            0
        } else {
            1
        }
    }

    fn flags(&self) -> (r: u32) {
        0
    }

    fn encode_full_body(&self, buf: &mut Vec<u8>) -> (r: IsobmffResult<()>) {
        let mut out: Vec<u8> = Vec::new();
        let short: bool = fits_v0(self.creation_time, self.modification_time, self.duration);
        put_time(&mut out, short, self.creation_time);
        assert(out@ =~= time_bytes(short, self.creation_time));
        put_time(&mut out, short, self.modification_time);
        bytes::put_u32(&mut out, self.timescale);
        put_time(&mut out, short, self.duration);
        bytes::put_u16(&mut out, language_code(self.language.as_str()));
        bytes::put_zeros(&mut out, 2);
        bytes::put_slice(buf, out.as_slice());
        Ok(())
    }

    fn decode_full_body(_version: u8, _flags: u32, _buf: &[u8]) -> (r: IsobmffResult<Self>) {
        write_only("Mdhd decode not implemented")
    }
}

impl Encode for Mdhd {
    open spec fn wire(&self) -> Wire {
        boxes::full_boxed(kinds::MDHD@, self.version_of(), self.flags_of(), self.full_body())
    }

    fn encode(&self, buf: &mut Vec<u8>) -> (r: IsobmffResult<()>) {
        encode_full(self, buf)
    }
}

/// What a track carries, and a name for it.
#[derive(Debug, Clone, PartialEq, Eq)]
pub struct Hdlr {
    pub handler: FourCC,
    pub name: String,
}

/// The code `none`.
pub const NONE: [u8; 4] = [0x6E, 0x6F, 0x6E, 0x65];

impl Default for Hdlr {
    fn default() -> (r: Self)
        ensures
            r.handler == FourCC(NONE),
            r.name@ == Seq::<char>::empty(),
    {
        Hdlr { handler: FourCC(NONE), name: String::new() }
    }
}

impl FullBox for Hdlr {
    const KIND: [u8; 4] = kinds::HDLR;

    open spec fn version_of(&self) -> u8 {
        0
    }

    open spec fn flags_of(&self) -> u32 {
        0
    }

    open spec fn full_body(&self) -> Wire {
        Ok(
            bytes::zeros(4) + self.handler.0@ + bytes::zeros(12) + encode_utf8(self.name@) + seq![
                0u8,
            ],
        )
    }

    open spec fn reads_full_body(version: u8, flags: u32, b: Seq<u8>, r: IsobmffResult<Self>) -> bool {
        error::malformed(r, "Hdlr decode not implemented"@)
    }

    fn version(&self) -> (r: u8) {
        0
    }

    fn flags(&self) -> (r: u32) {
        0
    }

    fn encode_full_body(&self, buf: &mut Vec<u8>) -> (r: IsobmffResult<()>) {
        broadcast use boxes::group_wire;

        bytes::put_zeros(buf, 4);
        bytes::put_slice(buf, &self.handler.0);
        bytes::put_zeros(buf, 12);
        bytes::put_slice(buf, self.name.as_str().as_bytes());
        bytes::put_u8(buf, 0);
        Ok(())
    }

    fn decode_full_body(_version: u8, _flags: u32, _buf: &[u8]) -> (r: IsobmffResult<Self>) {
        write_only("Hdlr decode not implemented")
    }
}

impl Encode for Hdlr {
    open spec fn wire(&self) -> Wire {
        boxes::full_boxed(kinds::HDLR@, self.version_of(), self.flags_of(), self.full_body())
    }

    fn encode(&self, buf: &mut Vec<u8>) -> (r: IsobmffResult<()>) {
        encode_full(self, buf)
    }
}

/// The sound media header.
#[derive(Debug, Clone, Default, PartialEq, Eq)]
pub struct Smhd {
    pub balance: FixedPoint<i8>,
}

impl FullBox for Smhd {
    const KIND: [u8; 4] = kinds::SMHD;

    open spec fn version_of(&self) -> u8 {
        0
    }

    open spec fn flags_of(&self) -> u32 {
        0
    }

    open spec fn full_body(&self) -> Wire {
        Ok(
            seq![self.balance.whole as u8] + seq![self.balance.fraction as u8] + bytes::zeros(2),
        )
    }

    open spec fn reads_full_body(version: u8, flags: u32, b: Seq<u8>, r: IsobmffResult<Self>) -> bool {
        error::malformed(r, "Smhd decode not implemented"@)
    }

    fn version(&self) -> (r: u8) {
        0
    }

    fn flags(&self) -> (r: u32) {
        0
    }

    fn encode_full_body(&self, buf: &mut Vec<u8>) -> (r: IsobmffResult<()>) {
        broadcast use boxes::group_wire;

        bytes::put_u8(buf, self.balance.whole as u8);
        bytes::put_u8(buf, self.balance.fraction as u8);
        bytes::put_zeros(buf, 2);
        Ok(())
    }

    fn decode_full_body(_version: u8, _flags: u32, _buf: &[u8]) -> (r: IsobmffResult<Self>) {
        write_only("Smhd decode not implemented")
    }
}

impl Encode for Smhd {
    open spec fn wire(&self) -> Wire {
        boxes::full_boxed(kinds::SMHD@, self.version_of(), self.flags_of(), self.full_body())
    }

    fn encode(&self, buf: &mut Vec<u8>) -> (r: IsobmffResult<()>) {
        encode_full(self, buf)
    }
}

/// The video media header.
#[derive(Debug, Clone, Default, PartialEq, Eq)]
pub struct Vmhd {
    pub graphicsmode: u16,
    pub opcolor: [u16; 3],
}

impl FullBox for Vmhd {
    const KIND: [u8; 4] = kinds::VMHD;

    open spec fn version_of(&self) -> u8 {
        0
    }

    open spec fn flags_of(&self) -> u32 {
        0x000001
    }

    open spec fn full_body(&self) -> Wire {
        Ok(
            bytes::be16(self.graphicsmode) + bytes::be16(self.opcolor[0]) + bytes::be16(
                self.opcolor[1],
            ) + bytes::be16(self.opcolor[2]),
        )
    }

    open spec fn reads_full_body(version: u8, flags: u32, b: Seq<u8>, r: IsobmffResult<Self>) -> bool {
        error::malformed(r, "Vmhd decode not implemented"@)
    }

    fn version(&self) -> (r: u8) {
        0
    }

    fn flags(&self) -> (r: u32) {
        0x000001
    }

    fn encode_full_body(&self, buf: &mut Vec<u8>) -> (r: IsobmffResult<()>) {
        broadcast use boxes::group_wire;

        bytes::put_u16(buf, self.graphicsmode);
        bytes::put_u16(buf, self.opcolor[0]);
        bytes::put_u16(buf, self.opcolor[1]);
        bytes::put_u16(buf, self.opcolor[2]);
        Ok(())
    }

    fn decode_full_body(_version: u8, _flags: u32, _buf: &[u8]) -> (r: IsobmffResult<Self>) {
        write_only("Vmhd decode not implemented")
    }
}

impl Encode for Vmhd {
    open spec fn wire(&self) -> Wire {
        boxes::full_boxed(kinds::VMHD@, self.version_of(), self.flags_of(), self.full_body())
    }

    fn encode(&self, buf: &mut Vec<u8>) -> (r: IsobmffResult<()>) {
        encode_full(self, buf)
    }
}

/// Where media data is. It is in the same file, so a location is optional.
#[derive(Debug, Clone, Default, PartialEq, Eq)]
pub struct Url {
    pub location: String,
}

impl FullBox for Url {
    const KIND: [u8; 4] = kinds::URL;

    open spec fn version_of(&self) -> u8 {
        0
    }

    open spec fn flags_of(&self) -> u32 {
        0x000001
    }

    open spec fn full_body(&self) -> Wire {
        if self.location@.len() > 0 {
            Ok(encode_utf8(self.location@) + seq![0u8])
        } else {
            Ok(Seq::empty())
        }
    }

    open spec fn reads_full_body(version: u8, flags: u32, b: Seq<u8>, r: IsobmffResult<Self>) -> bool {
        error::malformed(r, "Url decode not implemented"@)
    }

    fn version(&self) -> (r: u8) {
        0
    }

    fn flags(&self) -> (r: u32) {
        0x000001
    }

    fn encode_full_body(&self, buf: &mut Vec<u8>) -> (r: IsobmffResult<()>) {
        broadcast use boxes::group_wire;

        if self.location.as_str().unicode_len() > 0 {
            bytes::put_slice(buf, self.location.as_str().as_bytes());
            bytes::put_u8(buf, 0);
        } else {
            assert(buf@ + Seq::<u8>::empty() =~= buf@);
        }
        Ok(())
    }

    fn decode_full_body(_version: u8, _flags: u32, _buf: &[u8]) -> (r: IsobmffResult<Self>) {
        write_only("Url decode not implemented")
    }
}

impl Encode for Url {
    open spec fn wire(&self) -> Wire {
        boxes::full_boxed(kinds::URL@, self.version_of(), self.flags_of(), self.full_body())
    }

    fn encode(&self, buf: &mut Vec<u8>) -> (r: IsobmffResult<()>) {
        encode_full(self, buf)
    }
}

/// The places of media data.
#[derive(Debug, Clone, Default, PartialEq, Eq)]
pub struct Dref {
    pub urls: Vec<Url>,
}

impl FullBox for Dref {
    const KIND: [u8; 4] = kinds::DREF;

    open spec fn version_of(&self) -> u8 {
        0
    }

    open spec fn flags_of(&self) -> u32 {
        0
    }

    open spec fn full_body(&self) -> Wire {
        boxes::joined(
            Ok(bytes::be32(boxes::count32(self.urls@.len()))),
            boxes::all_wire(self.urls@),
        )
    }

    open spec fn reads_full_body(version: u8, flags: u32, b: Seq<u8>, r: IsobmffResult<Self>) -> bool {
        error::malformed(r, "Dref decode not implemented"@)
    }

    fn version(&self) -> (r: u8) {
        0
    }

    fn flags(&self) -> (r: u32) {
        0
    }

    fn encode_full_body(&self, buf: &mut Vec<u8>) -> (r: IsobmffResult<()>) {
        broadcast use boxes::group_wire;

        put_count(buf, self.urls.len());
        encode_all(&self.urls, buf)
    }

    fn decode_full_body(_version: u8, _flags: u32, _buf: &[u8]) -> (r: IsobmffResult<Self>) {
        write_only("Dref decode not implemented")
    }
}

impl Encode for Dref {
    open spec fn wire(&self) -> Wire {
        boxes::full_boxed(kinds::DREF@, self.version_of(), self.flags_of(), self.full_body())
    }

    fn encode(&self, buf: &mut Vec<u8>) -> (r: IsobmffResult<()>) {
        encode_full(self, buf)
    }
}

/// The box around [`Dref`].
#[derive(Debug, Clone, Default, PartialEq, Eq)]
pub struct Dinf {
    pub dref: Dref,
}

impl Atom for Dinf {
    const KIND: [u8; 4] = kinds::DINF;

    open spec fn kind() -> Seq<u8> {
        kinds::DINF@
    }

    proof fn kind_is_code() {
    }

    open spec fn body(&self) -> Wire {
        self.dref.wire()
    }

    open spec fn reads_body(b: Seq<u8>, r: IsobmffResult<Self>) -> bool {
        error::malformed(r, "Dinf decode not implemented"@)
    }

    fn encode_body(&self, buf: &mut Vec<u8>) -> (r: IsobmffResult<()>) {
        broadcast use boxes::group_wire;

        self.dref.encode(buf)
    }

    fn decode_body(_buf: &[u8]) -> (r: IsobmffResult<Self>) {
        write_only("Dinf decode not implemented")
    }
}

} // verus!
