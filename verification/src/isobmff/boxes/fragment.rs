//! File types, media data and movie fragments.

use crate::bytes;
use crate::isobmff::boxes;
use crate::isobmff::boxes::{
    encode_all, encode_full, encode_opt, kinds, put_count, write_only, Atom, Decode, Encode, FourCC,
    FullBox, Wire,
};
use crate::isobmff::error;
use crate::isobmff::{IsobmffError, IsobmffResult};
use vstd::prelude::*;

verus! {

pub open spec fn code_bytes() -> spec_fn(FourCC) -> Seq<u8> {
    |c: FourCC| c.0@
}

/// A brand, a version and compatible brands.
pub open spec fn brands_body(major: FourCC, minor: u32, compatible: Seq<FourCC>) -> Seq<u8> {
    major.0@ + bytes::be32(minor) + boxes::run(compatible, code_bytes())
}

/// The brand at `i`.
pub open spec fn brand_at(b: Seq<u8>, i: int) -> FourCC {
    FourCC([b[i], b[i + 1], b[i + 2], b[i + 3]])
}

/// The brands in a body of a file or segment type.
pub open spec fn brands_in(b: Seq<u8>) -> Seq<FourCC> {
    Seq::new(((b.len() - 8) / 4) as nat, |i: int| brand_at(b, 8 + 4 * i))
}

/// The text of the error of a body that does not hold whole brands, if it is one.
pub open spec fn brands_fault(b: Seq<u8>) -> Option<Seq<char>> {
    if b.len() < 4 {
        Some(boxes::short_text(4, b.len()))
    } else if b.len() < 8 {
        Some(boxes::short_text(4, (b.len() - 4) as nat))
    } else if b.len() % 4 != 0 {
        Some(boxes::short_text(4, b.len() % 4))
    } else {
        None
    }
}

fn put_brands(major: &FourCC, minor: u32, compatible: &Vec<FourCC>, buf: &mut Vec<u8>)
    ensures
        final(buf)@ == old(buf)@ + brands_body(*major, minor, compatible@),
{
    broadcast use boxes::group_wire;

    bytes::put_slice(buf, &major.0);
    bytes::put_u32(buf, minor);
    let ghost before = buf@;
    let mut i: usize = 0;
    assert(compatible@.take(0) =~= Seq::empty());
    assert(before + Seq::<u8>::empty() =~= before);
    while i < compatible.len()
        invariant
            i <= compatible@.len(),
            buf@ == before + boxes::run(compatible@.take(i as int), code_bytes()),
        decreases compatible@.len() - i,
    {
        broadcast use boxes::group_wire;

        proof {
            boxes::lemma_run(compatible@, code_bytes(), i as int);
        }
        bytes::put_slice(buf, &compatible[i].0);
        i = i + 1;
    }
    assert(compatible@.take(i as int) =~= compatible@);
}

fn read_brands(b: &[u8]) -> (r: IsobmffResult<(FourCC, u32, Vec<FourCC>)>)
    ensures
        match brands_fault(b@) {
            Some(m) => error::malformed(r, m),
            None => r is Ok && r->Ok_0.0 == brand_at(b@, 0) && r->Ok_0.1 == bytes::get32(b@, 4)
                && r->Ok_0.2@ == brands_in(b@),
        },
{
    let mut rest: &[u8] = b;
    let major = FourCC::decode(&mut rest)?;
    let minor = u32::decode(&mut rest)?;
    let mut out: Vec<FourCC> = Vec::new();
    assert(rest@ =~= b@.skip(8));
    while rest.len() > 0
        invariant
            8 + 4 * out@.len() + rest@.len() == b@.len(),
            rest@ == b@.skip(8 + 4 * out@.len() as int),
            forall|i: int| 0 <= i < out@.len() ==> out@[i] == brand_at(b@, 8 + 4 * i),
        decreases rest@.len(),
    {
        let ghost at = 8 + 4 * out@.len() as int;
        let c = FourCC::decode(&mut rest)?;
        out.push(c);
        assert(rest@ =~= b@.skip(at + 4));
    }
    assert(out@ =~= brands_in(b@));
    Ok((major, minor, out))
}

/// Brands that were written read back.
proof fn lemma_brands(major: FourCC, minor: u32, compatible: Seq<FourCC>)
    ensures
        ({
            let b = brands_body(major, minor, compatible);
            &&& brands_fault(b) is None
            &&& brand_at(b, 0) == major
            &&& bytes::get32(b, 4) == minor
            &&& brands_in(b) == compatible
        }),
{
    let b = brands_body(major, minor, compatible);
    lemma_codes(compatible);
    bytes::lemma_be32(minor);
    bytes::lemma_get32_in(b, 4, minor);
    assert(brand_at(b, 0).0@ =~= major.0@);
    assert(brand_at(b, 0).0 =~= major.0);
    assert forall|i: int| 0 <= i < compatible.len() implies brands_in(b)[i] == compatible[i] by {
        let run = boxes::run(compatible, code_bytes());
        assert(run[4 * i] == compatible[i].0[0]);
        assert(brand_at(b, 8 + 4 * i).0@ =~= compatible[i].0@);
        assert(brand_at(b, 8 + 4 * i).0 =~= compatible[i].0);
    }
    assert(brands_in(b) =~= compatible);
}

proof fn lemma_codes(s: Seq<FourCC>)
    ensures
        boxes::run(s, code_bytes()).len() == 4 * s.len(),
        forall|i: int|
            #![trigger s[i]]
            0 <= i < s.len() ==> boxes::run(s, code_bytes())[4 * i] == s[i].0[0] && boxes::run(
                s,
                code_bytes(),
            )[4 * i + 1] == s[i].0[1] && boxes::run(s, code_bytes())[4 * i + 2] == s[i].0[2]
                && boxes::run(s, code_bytes())[4 * i + 3] == s[i].0[3],
    decreases s.len(),
{
    if s.len() > 0 {
        lemma_codes(s.drop_last());
        assert forall|i: int|
            #![trigger s[i]]
            0 <= i < s.len() implies boxes::run(s, code_bytes())[4 * i] == s[i].0[0] && boxes::run(
            s,
            code_bytes(),
        )[4 * i + 1] == s[i].0[1] && boxes::run(s, code_bytes())[4 * i + 2] == s[i].0[2]
            && boxes::run(s, code_bytes())[4 * i + 3] == s[i].0[3] by {
            if i < s.len() - 1 {
                assert(s.drop_last()[i] == s[i]);
            }
        }
    }
}

/// The file type.
#[derive(Debug, Clone, PartialEq, Eq)]
pub struct Ftyp {
    pub major_brand: FourCC,
    pub minor_version: u32,
    pub compatible_brands: Vec<FourCC>,
}

impl Atom for Ftyp {
    const KIND: [u8; 4] = kinds::FTYP;

    open spec fn kind() -> Seq<u8> {
        kinds::FTYP@
    }

    proof fn kind_is_code() {
    }

    open spec fn body(&self) -> Wire {
        Ok(brands_body(self.major_brand, self.minor_version, self.compatible_brands@))
    }

    open spec fn reads_body(b: Seq<u8>, r: IsobmffResult<Self>) -> bool {
        match brands_fault(b) {
            Some(m) => error::malformed(r, m),
            None => r is Ok && r->Ok_0.major_brand == brand_at(b, 0) && r->Ok_0.minor_version
                == bytes::get32(b, 4) && r->Ok_0.compatible_brands@ == brands_in(b),
        }
    }

    fn encode_body(&self, buf: &mut Vec<u8>) -> (r: IsobmffResult<()>) {
        put_brands(&self.major_brand, self.minor_version, &self.compatible_brands, buf);
        Ok(())
    }

    fn decode_body(buf: &[u8]) -> (r: IsobmffResult<Self>) {
        let (major_brand, minor_version, compatible_brands) = read_brands(buf)?;
        Ok(Ftyp { major_brand, minor_version, compatible_brands })
    }
}

/// A file type that was written reads back.
pub proof fn law_ftyp_reads_back(x: Ftyp, r: IsobmffResult<Ftyp>)
    requires
        Ftyp::reads_body(x.body()->Ok_0, r),
    ensures
        r is Ok,
        r->Ok_0.major_brand == x.major_brand,
        r->Ok_0.minor_version == x.minor_version,
        r->Ok_0.compatible_brands@ == x.compatible_brands@,
{
    lemma_brands(x.major_brand, x.minor_version, x.compatible_brands@);
}

/// The type of a segment. It is laid out like the file type.
#[derive(Debug, Clone, PartialEq, Eq)]
pub struct Styp {
    pub major_brand: FourCC,
    pub minor_version: u32,
    pub compatible_brands: Vec<FourCC>,
}

impl Atom for Styp {
    const KIND: [u8; 4] = kinds::STYP;

    open spec fn kind() -> Seq<u8> {
        kinds::STYP@
    }

    proof fn kind_is_code() {
    }

    open spec fn body(&self) -> Wire {
        Ok(brands_body(self.major_brand, self.minor_version, self.compatible_brands@))
    }

    open spec fn reads_body(b: Seq<u8>, r: IsobmffResult<Self>) -> bool {
        match brands_fault(b) {
            Some(m) => error::malformed(r, m),
            None => r is Ok && r->Ok_0.major_brand == brand_at(b, 0) && r->Ok_0.minor_version
                == bytes::get32(b, 4) && r->Ok_0.compatible_brands@ == brands_in(b),
        }
    }

    fn encode_body(&self, buf: &mut Vec<u8>) -> (r: IsobmffResult<()>) {
        put_brands(&self.major_brand, self.minor_version, &self.compatible_brands, buf);
        Ok(())
    }

    fn decode_body(buf: &[u8]) -> (r: IsobmffResult<Self>) {
        let (major_brand, minor_version, compatible_brands) = read_brands(buf)?;
        Ok(Styp { major_brand, minor_version, compatible_brands })
    }
}

/// A segment type that was written reads back.
pub proof fn law_styp_reads_back(x: Styp, r: IsobmffResult<Styp>)
    requires
        Styp::reads_body(x.body()->Ok_0, r),
    ensures
        r is Ok,
        r->Ok_0.major_brand == x.major_brand,
        r->Ok_0.minor_version == x.minor_version,
        r->Ok_0.compatible_brands@ == x.compatible_brands@,
{
    lemma_brands(x.major_brand, x.minor_version, x.compatible_brands@);
}

/// Media data: the samples as they are.
#[derive(Debug, Clone, PartialEq)]
pub struct Mdat {
    pub data: Vec<u8>,
}

impl Atom for Mdat {
    const KIND: [u8; 4] = kinds::MDAT;

    open spec fn kind() -> Seq<u8> {
        kinds::MDAT@
    }

    proof fn kind_is_code() {
    }

    open spec fn body(&self) -> Wire {
        Ok(self.data@)
    }

    open spec fn reads_body(b: Seq<u8>, r: IsobmffResult<Self>) -> bool {
        r is Ok && r->Ok_0.data@ == b
    }

    fn encode_body(&self, buf: &mut Vec<u8>) -> (r: IsobmffResult<()>) {
        bytes::put_slice(buf, self.data.as_slice());
        Ok(())
    }

    fn decode_body(buf: &[u8]) -> (r: IsobmffResult<Self>) {
        Ok(Mdat { data: bytes::to_vec(buf) })
    }
}

/// Media data that was written reads back.
pub proof fn law_mdat_reads_back(x: Mdat, r: IsobmffResult<Mdat>)
    requires
        Mdat::reads_body(x.body()->Ok_0, r),
    ensures
        r is Ok,
        r->Ok_0.data@ == x.data@,
{
}

/// The header of a movie fragment: its number in the sequence.
#[derive(Debug, Clone, PartialEq, Eq)]
pub struct Mfhd {
    pub sequence_number: u32,
}

impl Default for Mfhd {
    fn default() -> (r: Self)
        ensures
            r == (Mfhd { sequence_number: 1 }),
    {
        Mfhd { sequence_number: 1 }
    }
}

impl FullBox for Mfhd {
    const KIND: [u8; 4] = kinds::MFHD;

    open spec fn version_of(&self) -> u8 {
        0
    }

    open spec fn flags_of(&self) -> u32 {
        0
    }

    open spec fn full_body(&self) -> Wire {
        Ok(bytes::be32(self.sequence_number))
    }

    open spec fn reads_full_body(version: u8, flags: u32, b: Seq<u8>, r: IsobmffResult<Self>) -> bool {
        if b.len() < 4 {
            error::malformed(r, boxes::short_text(4, b.len()))
        } else {
            r is Ok && r->Ok_0.sequence_number == bytes::get32(b, 0)
        }
    }

    fn version(&self) -> (r: u8) {
        0
    }

    fn flags(&self) -> (r: u32) {
        0
    }

    fn encode_full_body(&self, buf: &mut Vec<u8>) -> (r: IsobmffResult<()>) {
        bytes::put_u32(buf, self.sequence_number);
        Ok(())
    }

    fn decode_full_body(_version: u8, _flags: u32, buf: &[u8]) -> (r: IsobmffResult<Self>) {
        let mut rest: &[u8] = buf;
        let sequence_number = u32::decode(&mut rest)?;
        Ok(Mfhd { sequence_number })
    }
}

impl Encode for Mfhd {
    open spec fn wire(&self) -> Wire {
        boxes::full_boxed(kinds::MFHD@, self.version_of(), self.flags_of(), self.full_body())
    }

    fn encode(&self, buf: &mut Vec<u8>) -> (r: IsobmffResult<()>) {
        encode_full(self, buf)
    }
}

/// A fragment header that was written reads back.
pub proof fn law_mfhd_reads_back(x: Mfhd, r: IsobmffResult<Mfhd>)
    requires
        Mfhd::reads_full_body(x.version_of(), x.flags_of(), x.full_body()->Ok_0, r),
    ensures
        r == Ok::<Mfhd, IsobmffError>(x),
{
    bytes::lemma_be32(x.sequence_number);
    bytes::lemma_get32_in(x.full_body()->Ok_0, 0, x.sequence_number);
}

/// The header of a track fragment. Offsets count from the movie fragment.
#[derive(Debug, Clone, PartialEq, Eq)]
pub struct Tfhd {
    pub track_id: u32,
    pub base_data_offset: Option<u64>,
    pub sample_description_index: Option<u32>,
    pub default_sample_duration: Option<u32>,
    pub default_sample_size: Option<u32>,
    pub default_sample_flags: Option<u32>,
}

impl Default for Tfhd {
    fn default() -> (r: Self)
        ensures
            r == (Tfhd {
                track_id: 0,
                base_data_offset: None,
                sample_description_index: None,
                default_sample_duration: None,
                default_sample_size: None,
                default_sample_flags: None,
            }),
    {
        Tfhd {
            track_id: 0,
            base_data_offset: None,
            sample_description_index: None,
            default_sample_duration: None,
            default_sample_size: None,
            default_sample_flags: None,
        }
    }
}

/// The bytes of an optional field.
#[verifier::opaque]
pub open spec fn opt32(v: Option<u32>) -> Seq<u8> {
    match v {
        Some(x) => bytes::be32(x),
        None => Seq::empty(),
    }
}

/// The bytes of an optional field.
#[verifier::opaque]
pub open spec fn opt64(v: Option<u64>) -> Seq<u8> {
    match v {
        Some(x) => bytes::be64(x),
        None => Seq::empty(),
    }
}

/// A flag's weight if it is set.
pub open spec fn flag(on: bool, weight: u32) -> int {
    if on {
        weight as int
    } else {
        0
    }
}

/// Whether the flag of this weight is set.
pub open spec fn flagged(flags: u32, weight: u32) -> bool {
    flags / weight % 2 == 1
}

/// An optional 32-bit field at the front, and what follows it.
#[verifier::opaque]
pub open spec fn field32(b: Seq<u8>, on: bool) -> Result<(Option<u32>, Seq<u8>), Seq<char>> {
    if !on {
        Ok((None, b))
    } else if b.len() < 4 {
        Err(boxes::short_text(4, b.len()))
    } else {
        Ok((Some(bytes::get32(b, 0)), b.skip(4)))
    }
}

/// An optional 64-bit field at the front, and what follows it.
#[verifier::opaque]
pub open spec fn field64(b: Seq<u8>, on: bool) -> Result<(Option<u64>, Seq<u8>), Seq<char>> {
    if !on {
        Ok((None, b))
    } else if b.len() < 8 {
        Err(boxes::short_text(8, b.len()))
    } else {
        Ok((Some(bytes::get64(b, 0)), b.skip(8)))
    }
}

fn put_opt32(buf: &mut Vec<u8>, v: Option<u32>)
    ensures
        final(buf)@ == old(buf)@ + opt32(v),
{
    reveal(opt32);
    match v {
        Some(x) => bytes::put_u32(buf, x),
        None => {
            assert(buf@ + Seq::<u8>::empty() =~= buf@);
        },
    }
}

fn put_opt64(buf: &mut Vec<u8>, v: Option<u64>)
    ensures
        final(buf)@ == old(buf)@ + opt64(v),
{
    reveal(opt64);
    match v {
        Some(x) => bytes::put_u64(buf, x),
        None => {
            assert(buf@ + Seq::<u8>::empty() =~= buf@);
        },
    }
}

fn take32(buf: &mut &[u8], on: bool) -> (r: IsobmffResult<Option<u32>>)
    ensures
        match field32((*old(buf))@, on) {
            Ok((v, rest)) => r is Ok && r->Ok_0 == v && (*final(buf))@ == rest,
            Err(m) => error::malformed(r, m),
        },
{
    reveal(field32);
    if on {
        let v = u32::decode(buf)?;
        Ok(Some(v))
    } else {
        Ok(None)
    }
}

fn take64(buf: &mut &[u8], on: bool) -> (r: IsobmffResult<Option<u64>>)
    ensures
        match field64((*old(buf))@, on) {
            Ok((v, rest)) => r is Ok && r->Ok_0 == v && (*final(buf))@ == rest,
            Err(m) => error::malformed(r, m),
        },
{
    reveal(field64);
    if on {
        let v = u64::decode(buf)?;
        Ok(Some(v))
    } else {
        Ok(None)
    }
}

/// What the bytes behind the flags of a track fragment header stand for.
pub open spec fn tfhd_of(flags: u32, b: Seq<u8>) -> Result<Tfhd, Seq<char>> {
    match field32(b, true) {
        Err(m) => Err(m),
        Ok((track_id, b1)) => match field64(b1, flagged(flags, 1)) {
            Err(m) => Err(m),
            Ok((base_data_offset, b2)) => match field32(b2, flagged(flags, 2)) {
                Err(m) => Err(m),
                Ok((sample_description_index, b3)) => match field32(b3, flagged(flags, 8)) {
                    Err(m) => Err(m),
                    Ok((default_sample_duration, b4)) => match field32(b4, flagged(flags, 16)) {
                        Err(m) => Err(m),
                        Ok((default_sample_size, b5)) => match field32(b5, flagged(flags, 32)) {
                            Err(m) => Err(m),
                            Ok((default_sample_flags, _)) => Ok(
                                Tfhd {
                                    track_id: track_id->Some_0,
                                    base_data_offset,
                                    sample_description_index,
                                    default_sample_duration,
                                    default_sample_size,
                                    default_sample_flags,
                                },
                            ),
                        },
                    },
                },
            },
        },
    }
}

/// The flag by which offsets count from the movie fragment.
pub const DEFAULT_BASE_IS_MOOF: u32 = 0x020000;

impl FullBox for Tfhd {
    const KIND: [u8; 4] = kinds::TFHD;

    open spec fn version_of(&self) -> u8 {
        0
    }

    open spec fn flags_of(&self) -> u32 {
        (DEFAULT_BASE_IS_MOOF + flag(self.base_data_offset is Some, 1) + flag(
            self.sample_description_index is Some,
            2,
        ) + flag(self.default_sample_duration is Some, 8) + flag(
            self.default_sample_size is Some,
            16,
        ) + flag(self.default_sample_flags is Some, 32)) as u32
    }

    open spec fn full_body(&self) -> Wire {
        Ok(
            bytes::be32(self.track_id) + opt64(self.base_data_offset) + opt32(
                self.sample_description_index,
            ) + opt32(self.default_sample_duration) + opt32(self.default_sample_size) + opt32(
                self.default_sample_flags,
            ),
        )
    }

    open spec fn reads_full_body(version: u8, flags: u32, b: Seq<u8>, r: IsobmffResult<Self>) -> bool {
        match tfhd_of(flags, b) {
            Ok(x) => r == Ok::<Tfhd, IsobmffError>(x),
            Err(m) => error::malformed(r, m),
        }
    }

    fn version(&self) -> (r: u8) {
        0
    }

    fn flags(&self) -> (r: u32) {
        let mut f: u32 = DEFAULT_BASE_IS_MOOF;
        if self.base_data_offset.is_some() {
            f = f + 1;
        }
        if self.sample_description_index.is_some() {
            f = f + 2;
        }
        if self.default_sample_duration.is_some() {
            f = f + 8;
        }
        if self.default_sample_size.is_some() {
            f = f + 16;
        }
        if self.default_sample_flags.is_some() {
            f = f + 32;
        }
        f
    }

    fn encode_full_body(&self, buf: &mut Vec<u8>) -> (r: IsobmffResult<()>) {
        broadcast use boxes::group_wire;

        bytes::put_u32(buf, self.track_id);
        put_opt64(buf, self.base_data_offset);
        put_opt32(buf, self.sample_description_index);
        put_opt32(buf, self.default_sample_duration);
        put_opt32(buf, self.default_sample_size);
        put_opt32(buf, self.default_sample_flags);
        Ok(())
    }

    fn decode_full_body(_version: u8, flags: u32, buf: &[u8]) -> (r: IsobmffResult<Self>) {
        reveal(field32);
        let mut rest: &[u8] = buf;
        let track_id = u32::decode(&mut rest)?;
        let base_data_offset = take64(&mut rest, flags % 2 == 1)?;
        let sample_description_index = take32(&mut rest, flags / 2 % 2 == 1)?;
        let default_sample_duration = take32(&mut rest, flags / 8 % 2 == 1)?;
        let default_sample_size = take32(&mut rest, flags / 16 % 2 == 1)?;
        let default_sample_flags = take32(&mut rest, flags / 32 % 2 == 1)?;
        Ok(
            Tfhd {
                track_id,
                base_data_offset,
                sample_description_index,
                default_sample_duration,
                default_sample_size,
                default_sample_flags,
            },
        )
    }
}

impl Encode for Tfhd {
    open spec fn wire(&self) -> Wire {
        boxes::full_boxed(kinds::TFHD@, self.version_of(), self.flags_of(), self.full_body())
    }

    fn encode(&self, buf: &mut Vec<u8>) -> (r: IsobmffResult<()>) {
        encode_full(self, buf)
    }
}

/// A field that was written is read, and what follows it is left.
proof fn lemma_field32(v: Option<u32>, rest: Seq<u8>)
    ensures
        field32(opt32(v) + rest, v is Some) == Ok::<(Option<u32>, Seq<u8>), Seq<char>>((v, rest)),
{
    reveal(opt32);
    reveal(field32);
    let b = opt32(v) + rest;
    if let Some(x) = v {
        bytes::lemma_be32(x);
        bytes::lemma_get32_in(b, 0, x);
        assert(b.skip(4) =~= rest);
    } else {
        assert(b =~= rest);
    }
}

/// A field that was written is read, and what follows it is left.
proof fn lemma_field64(v: Option<u64>, rest: Seq<u8>)
    ensures
        field64(opt64(v) + rest, v is Some) == Ok::<(Option<u64>, Seq<u8>), Seq<char>>((v, rest)),
{
    reveal(opt64);
    reveal(field64);
    let b = opt64(v) + rest;
    if let Some(x) = v {
        bytes::lemma_be64(x);
        assert(bytes::get64(b, 0) == bytes::get64(bytes::be64(x), 0));
        assert(b.skip(8) =~= rest);
    } else {
        assert(b =~= rest);
    }
}

/// A track fragment header that was written reads back.
pub proof fn law_tfhd_reads_back(x: Tfhd, r: IsobmffResult<Tfhd>)
    requires
        Tfhd::reads_full_body(x.version_of(), x.flags_of(), x.full_body()->Ok_0, r),
    ensures
        r == Ok::<Tfhd, IsobmffError>(x),
{
    let b5 = opt32(x.default_sample_flags);
    let b4 = opt32(x.default_sample_size) + b5;
    let b3 = opt32(x.default_sample_duration) + b4;
    let b2 = opt32(x.sample_description_index) + b3;
    let b1 = opt64(x.base_data_offset) + b2;
    let b = x.full_body()->Ok_0;
    lemma_tfhd_flags(x);
    assert(opt32(Some(x.track_id)) == bytes::be32(x.track_id)) by {
        reveal(opt32);
    }
    assert(b == opt32(Some(x.track_id)) + b1) by {
        assert(b =~= opt32(Some(x.track_id)) + b1);
    }
    lemma_field32(Some(x.track_id), b1);
    lemma_field64(x.base_data_offset, b2);
    lemma_field32(x.sample_description_index, b3);
    lemma_field32(x.default_sample_duration, b4);
    lemma_field32(x.default_sample_size, b5);
    lemma_field32(x.default_sample_flags, Seq::empty());
    assert(b5 + Seq::<u8>::empty() =~= b5);
}

/// Each flag says that its field is there.
proof fn lemma_tfhd_flags(x: Tfhd)
    ensures
        flagged(x.flags_of(), 1) == x.base_data_offset is Some,
        flagged(x.flags_of(), 2) == x.sample_description_index is Some,
        flagged(x.flags_of(), 8) == x.default_sample_duration is Some,
        flagged(x.flags_of(), 16) == x.default_sample_size is Some,
        flagged(x.flags_of(), 32) == x.default_sample_flags is Some,
{
}

/// Each flag says that its field is there.
proof fn lemma_trun_flags(x: Trun)
    ensures
        flagged(x.flags_of(), 1) == x.data_offset is Some,
        !flagged(x.flags_of(), 4),
        flagged(x.flags_of(), 0x100) == carried(x.entries@).duration,
        flagged(x.flags_of(), 0x200) == carried(x.entries@).size,
        flagged(x.flags_of(), 0x400) == carried(x.entries@).flags,
        flagged(x.flags_of(), 0x800) == carried(x.entries@).cts,
{
}

/// A field that is not there takes nothing.
proof fn lemma_no_field(b: Seq<u8>)
    ensures
        field32(b, false) == Ok::<(Option<u32>, Seq<u8>), Seq<char>>((None, b)),
{
    reveal(field32);
}

/// The decode time of a fragment's first sample.
#[derive(Debug, Clone, PartialEq, Eq)]
pub struct Tfdt {
    pub base_media_decode_time: u64,
}

impl Default for Tfdt {
    fn default() -> (r: Self)
        ensures
            r == (Tfdt { base_media_decode_time: 0 }),
    {
        Tfdt { base_media_decode_time: 0 }
    }
}

impl FullBox for Tfdt {
    const KIND: [u8; 4] = kinds::TFDT;

    open spec fn version_of(&self) -> u8 {
        1
    }

    open spec fn flags_of(&self) -> u32 {
        0
    }

    open spec fn full_body(&self) -> Wire {
        Ok(bytes::be64(self.base_media_decode_time))
    }

    open spec fn reads_full_body(version: u8, flags: u32, b: Seq<u8>, r: IsobmffResult<Self>) -> bool {
        if version == 1 {
            if b.len() < 8 {
                error::malformed(r, boxes::short_text(8, b.len()))
            } else {
                r is Ok && r->Ok_0.base_media_decode_time == bytes::get64(b, 0)
            }
        } else {
            if b.len() < 4 {
                error::malformed(r, boxes::short_text(4, b.len()))
            } else {
                r is Ok && r->Ok_0.base_media_decode_time == bytes::get32(b, 0)
            }
        }
    }

    fn version(&self) -> (r: u8) {
        1
    }

    fn flags(&self) -> (r: u32) {
        0
    }

    fn encode_full_body(&self, buf: &mut Vec<u8>) -> (r: IsobmffResult<()>) {
        bytes::put_u64(buf, self.base_media_decode_time);
        Ok(())
    }

    fn decode_full_body(version: u8, _flags: u32, buf: &[u8]) -> (r: IsobmffResult<Self>) {
        let mut rest: &[u8] = buf;
        let base_media_decode_time: u64 = if version == 1 {
            u64::decode(&mut rest)?
        } else {
            u32::decode(&mut rest)? as u64
        };
        Ok(Tfdt { base_media_decode_time })
    }
}

impl Encode for Tfdt {
    open spec fn wire(&self) -> Wire {
        boxes::full_boxed(kinds::TFDT@, self.version_of(), self.flags_of(), self.full_body())
    }

    fn encode(&self, buf: &mut Vec<u8>) -> (r: IsobmffResult<()>) {
        encode_full(self, buf)
    }
}

/// A decode time that was written reads back.
pub proof fn law_tfdt_reads_back(x: Tfdt, r: IsobmffResult<Tfdt>)
    requires
        Tfdt::reads_full_body(x.version_of(), x.flags_of(), x.full_body()->Ok_0, r),
    ensures
        r == Ok::<Tfdt, IsobmffError>(x),
{
    bytes::lemma_be64(x.base_media_decode_time);
}

/// One sample of a run. A field that is missing takes its default.
#[derive(Debug, Clone, PartialEq, Eq)]
pub struct TrunEntry {
    pub duration: Option<u32>,
    pub size: Option<u32>,
    pub flags: Option<u32>,
    pub cts: Option<i32>,
}

impl Default for TrunEntry {
    fn default() -> (r: Self)
        ensures
            r == (TrunEntry { duration: None, size: None, flags: None, cts: None }),
    {
        TrunEntry { duration: None, size: None, flags: None, cts: None }
    }
}

/// A run of samples.
#[derive(Debug, Clone, PartialEq, Eq)]
pub struct Trun {
    pub data_offset: Option<i32>,
    pub entries: Vec<TrunEntry>,
}

impl Default for Trun {
    fn default() -> (r: Self)
        ensures
            r.data_offset is None,
            r.entries@.len() == 0,
    {
        Trun { data_offset: None, entries: Vec::new() }
    }
}

/// Which fields all samples of a run carry. Only those are written.
pub struct Carried {
    pub duration: bool,
    pub size: bool,
    pub flags: bool,
    pub cts: bool,
}

pub open spec fn carried(s: Seq<TrunEntry>) -> Carried {
    Carried {
        duration: forall|i: int| 0 <= i < s.len() ==> (#[trigger] s[i]).duration is Some,
        size: forall|i: int| 0 <= i < s.len() ==> (#[trigger] s[i]).size is Some,
        flags: forall|i: int| 0 <= i < s.len() ==> (#[trigger] s[i]).flags is Some,
        cts: forall|i: int| 0 <= i < s.len() ==> (#[trigger] s[i]).cts is Some,
    }
}

/// Whether a sample is shown before it is decoded.
pub open spec fn any_negative(s: Seq<TrunEntry>) -> bool {
    exists|i: int|
        0 <= i < s.len() && ((#[trigger] s[i]).cts matches Some(c) && c < 0)
}

/// A field that is written, or nothing.
pub open spec fn kept<T>(on: bool, v: Option<T>) -> Option<T> {
    if on {
        v
    } else {
        None
    }
}

/// The two's complement number of 32 bits.
pub open spec fn signed32(v: u32) -> i32 {
    if v < 0x8000_0000 {
        v as i32
    } else {
        (v - 0x1_0000_0000) as i32
    }
}

/// The 32 bits of a number in two's complement.
pub open spec fn bits32(v: i32) -> u32 {
    if v >= 0 {
        v as u32
    } else {
        (v + 0x1_0000_0000) as u32
    }
}

/// The 32 bits of an optional number.
pub open spec fn opt_bits(v: Option<i32>) -> Option<u32> {
    match v {
        Some(x) => Some(bits32(x)),
        None => None,
    }
}

/// The number of optional 32 bits.
pub open spec fn opt_signed(v: Option<u32>) -> Option<i32> {
    match v {
        Some(x) => Some(signed32(x)),
        None => None,
    }
}

/// The bytes of a sample.
pub open spec fn entry_bytes(c: Carried) -> spec_fn(TrunEntry) -> Seq<u8> {
    |e: TrunEntry|
        opt32(kept(c.duration, e.duration)) + opt32(kept(c.size, e.size)) + opt32(
            kept(c.flags, e.flags),
        ) + opt32(opt_bits(kept(c.cts, e.cts)))
}

/// One sample at the front, and what follows it. `first` are the flags of the first
/// sample, if the run gives them once.
pub open spec fn entry_of(b: Seq<u8>, flags: u32, first: Option<u32>) -> Result<
    (TrunEntry, Seq<u8>),
    Seq<char>,
> {
    match field32(b, flagged(flags, 0x100)) {
        Err(m) => Err(m),
        Ok((duration, b1)) => match field32(b1, flagged(flags, 0x200)) {
            Err(m) => Err(m),
            Ok((size, b2)) => match field32(b2, first is None && flagged(flags, 0x400)) {
                Err(m) => Err(m),
                Ok((own, b3)) => match field32(b3, flagged(flags, 0x800)) {
                    Err(m) => Err(m),
                    Ok((cts, b4)) => Ok(
                        (
                            TrunEntry {
                                duration,
                                size,
                                flags: if first is Some {
                                    first
                                } else {
                                    own
                                },
                                cts: opt_signed(cts),
                            },
                            b4,
                        ),
                    ),
                },
            },
        },
    }
}

/// `n` samples at the front, behind `seen`.
pub open spec fn entries_of(
    b: Seq<u8>,
    flags: u32,
    first: Option<u32>,
    n: nat,
    seen: Seq<TrunEntry>,
) -> Result<Seq<TrunEntry>, Seq<char>>
    decreases n,
{
    if n == 0 {
        Ok(seen)
    } else {
        match entry_of(b, flags, first) {
            Err(m) => Err(m),
            Ok((e, rest)) => entries_of(rest, flags, None, (n - 1) as nat, seen.push(e)),
        }
    }
}

/// What the bytes behind the flags of a run stand for.
pub open spec fn trun_of(flags: u32, b: Seq<u8>) -> Result<
    (Option<i32>, Seq<TrunEntry>),
    Seq<char>,
> {
    match field32(b, true) {
        Err(m) => Err(m),
        Ok((count, b1)) => match field32(b1, flagged(flags, 1)) {
            Err(m) => Err(m),
            Ok((offset, b2)) => match field32(b2, flagged(flags, 4)) {
                Err(m) => Err(m),
                Ok((first, b3)) => match entries_of(
                    b3,
                    flags,
                    first,
                    count->Some_0 as nat,
                    Seq::empty(),
                ) {
                    Err(m) => Err(m),
                    Ok(entries) => Ok((opt_signed(offset), entries)),
                },
            },
        },
    }
}

fn to_signed32(v: u32) -> (r: i32)
    ensures
        r == signed32(v),
{
    if v < 0x8000_0000 {
        v as i32
    } else {
        (v as i64 - 0x1_0000_0000) as i32
    }
}

fn to_bits32(v: i32) -> (r: u32)
    ensures
        r == bits32(v),
{
    if v >= 0 {
        v as u32
    } else {
        (v as i64 + 0x1_0000_0000) as u32
    }
}

impl Trun {
    /// Which fields all samples carry: durations, sizes, flags and time offsets.
    fn entry_flags(&self) -> (r: (bool, bool, bool, bool))
        ensures
            carried(self.entries@) == (Carried { duration: r.0, size: r.1, flags: r.2, cts: r.3 }),
    {
        let mut duration: bool = true;
        let mut size: bool = true;
        let mut flags: bool = true;
        let mut cts: bool = true;
        let mut i: usize = 0;
        while i < self.entries.len()
            invariant
                i <= self.entries@.len(),
                duration == (forall|j: int|
                    0 <= j < i ==> (#[trigger] self.entries@[j]).duration is Some),
                size == (forall|j: int| 0 <= j < i ==> (#[trigger] self.entries@[j]).size is Some),
                flags == (forall|j: int| 0 <= j < i ==> (#[trigger] self.entries@[j]).flags is Some),
                cts == (forall|j: int| 0 <= j < i ==> (#[trigger] self.entries@[j]).cts is Some),
            decreases self.entries@.len() - i,
        {
            let e = &self.entries[i];
            let ghost at = self.entries@[i as int];
            if e.duration.is_none() {
                assert(at.duration is None);
                duration = false;
            }
            if e.size.is_none() {
                assert(at.size is None);
                size = false;
            }
            if e.flags.is_none() {
                assert(at.flags is None);
                flags = false;
            }
            if e.cts.is_none() {
                assert(at.cts is None);
                cts = false;
            }
            i = i + 1;
        }
        (duration, size, flags, cts)
    }

    /// Whether a sample is shown before it is decoded.
    fn has_negative(&self) -> (r: bool)
        ensures
            r == any_negative(self.entries@),
    {
        let mut i: usize = 0;
        while i < self.entries.len()
            invariant
                i <= self.entries@.len(),
                forall|j: int|
                    0 <= j < i ==> !((#[trigger] self.entries@[j]).cts matches Some(c) && c < 0),
            decreases self.entries@.len() - i,
        {
            if let Some(c) = self.entries[i].cts {
                if c < 0 {
                    assert(self.entries@[i as int].cts == Some(c));
                    return true;
                }
            }
            i = i + 1;
        }
        false
    }
}

impl FullBox for Trun {
    const KIND: [u8; 4] = kinds::TRUN;

    /// Version 1, in which time offsets are signed, only if one is negative.
    open spec fn version_of(&self) -> u8 {
        if any_negative(self.entries@) {
            1
        } else {
            0
        }
    }

    open spec fn flags_of(&self) -> u32 {
        let c = carried(self.entries@);
        (flag(self.data_offset is Some, 1) + flag(c.duration, 0x100) + flag(c.size, 0x200) + flag(
            c.flags,
            0x400,
        ) + flag(c.cts, 0x800)) as u32
    }

    open spec fn full_body(&self) -> Wire {
        Ok(
            bytes::be32(boxes::count32(self.entries@.len())) + opt32(opt_bits(self.data_offset))
                + boxes::run(self.entries@, entry_bytes(carried(self.entries@))),
        )
    }

    open spec fn reads_full_body(version: u8, flags: u32, b: Seq<u8>, r: IsobmffResult<Self>) -> bool {
        match trun_of(flags, b) {
            Ok((data_offset, entries)) => r is Ok && r->Ok_0.data_offset == data_offset
                && r->Ok_0.entries@ == entries,
            Err(m) => error::malformed(r, m),
        }
    }

    fn version(&self) -> (r: u8) {
        if self.has_negative() {
            1
        } else {
            0
        }
    }

    fn flags(&self) -> (r: u32) {
        let (duration, size, flags, cts) = self.entry_flags();
        let mut f: u32 = 0;
        if self.data_offset.is_some() {
            f = f + 1;
        }
        if duration {
            f = f + 0x100;
        }
        if size {
            f = f + 0x200;
        }
        if flags {
            f = f + 0x400;
        }
        if cts {
            f = f + 0x800;
        }
        f
    }

    fn encode_full_body(&self, buf: &mut Vec<u8>) -> (r: IsobmffResult<()>) {
        broadcast use boxes::group_wire;

        let (duration, size, flags, cts) = self.entry_flags();
        let ghost c = carried(self.entries@);
        put_count(buf, self.entries.len());
        put_opt32(
            buf,
            match self.data_offset {
                Some(o) => Some(to_bits32(o)),
                None => None,
            },
        );
        let ghost before = buf@;
        let mut i: usize = 0;
        assert(self.entries@.take(0) =~= Seq::empty());
        assert(before + Seq::<u8>::empty() =~= before);
        while i < self.entries.len()
            invariant
                i <= self.entries@.len(),
                c == (Carried { duration, size, flags, cts }),
                buf@ == before + boxes::run(self.entries@.take(i as int), entry_bytes(c)),
            decreases self.entries@.len() - i,
        {
            broadcast use boxes::group_wire;

            proof {
                boxes::lemma_run(self.entries@, entry_bytes(c), i as int);
            }
            let e = &self.entries[i];
            if duration {
                put_opt32(buf, e.duration);
            } else {
                put_opt32(buf, None);
            }
            if size {
                put_opt32(buf, e.size);
            } else {
                put_opt32(buf, None);
            }
            if flags {
                put_opt32(buf, e.flags);
            } else {
                put_opt32(buf, None);
            }
            let offset: Option<u32> = match e.cts {
                Some(v) => if cts {
                    Some(to_bits32(v))
                } else {
                    None
                },
                None => None,
            };
            put_opt32(buf, offset);
            i = i + 1;
        }
        assert(self.entries@.take(i as int) =~= self.entries@);
        Ok(())
    }

    fn decode_full_body(_version: u8, flags: u32, buf: &[u8]) -> (r: IsobmffResult<Self>) {
        reveal(field32);
        let mut rest: &[u8] = buf;
        let count: u32 = u32::decode(&mut rest)?;
        let data_offset: Option<i32> = match take32(&mut rest, flags % 2 == 1)? {
            Some(o) => Some(to_signed32(o)),
            None => None,
        };
        let mut first: Option<u32> = take32(&mut rest, flags / 4 % 2 == 1)?;
        let mut entries: Vec<TrunEntry> = Vec::new();
        let mut left: u32 = count;
        assert(entries@ =~= Seq::empty());
        while left > 0
            invariant
                trun_of(flags, buf@) == match entries_of(
                    rest@,
                    flags,
                    first,
                    left as nat,
                    entries@,
                ) {
                    Err(m) => Err(m),
                    Ok(e) => Ok((data_offset, e)),
                },
            decreases left,
        {
            let duration = take32(&mut rest, flags / 0x100 % 2 == 1)?;
            let size = take32(&mut rest, flags / 0x200 % 2 == 1)?;
            let own = take32(&mut rest, first.is_none() && flags / 0x400 % 2 == 1)?;
            let cts: Option<i32> = match take32(&mut rest, flags / 0x800 % 2 == 1)? {
                Some(c) => Some(to_signed32(c)),
                None => None,
            };
            let sample_flags: Option<u32> = if first.is_some() {
                first
            } else {
                own
            };
            first = None;
            entries.push(TrunEntry { duration, size, flags: sample_flags, cts });
            left = left - 1;
        }
        Ok(Trun { data_offset, entries })
    }
}

impl Encode for Trun {
    open spec fn wire(&self) -> Wire {
        boxes::full_boxed(kinds::TRUN@, self.version_of(), self.flags_of(), self.full_body())
    }

    fn encode(&self, buf: &mut Vec<u8>) -> (r: IsobmffResult<()>) {
        encode_full(self, buf)
    }
}

/// What is left of a run that was written: the fields that all samples carry.
pub open spec fn kept_entries(s: Seq<TrunEntry>) -> Seq<TrunEntry> {
    let c = carried(s);
    s.map_values(
        |e: TrunEntry|
            TrunEntry {
                duration: kept(c.duration, e.duration),
                size: kept(c.size, e.size),
                flags: kept(c.flags, e.flags),
                cts: kept(c.cts, e.cts),
            },
    )
}

/// One sample that was written is read.
proof fn lemma_entry(e: TrunEntry, c: Carried, flags: u32, rest: Seq<u8>)
    requires
        flagged(flags, 0x100) == c.duration,
        flagged(flags, 0x200) == c.size,
        flagged(flags, 0x400) == c.flags,
        flagged(flags, 0x800) == c.cts,
        c.duration ==> e.duration is Some,
        c.size ==> e.size is Some,
        c.flags ==> e.flags is Some,
        c.cts ==> e.cts is Some,
    ensures
        entry_of(entry_bytes(c)(e) + rest, flags, None) == Ok::<(TrunEntry, Seq<u8>), Seq<char>>(
            (
                TrunEntry {
                    duration: kept(c.duration, e.duration),
                    size: kept(c.size, e.size),
                    flags: kept(c.flags, e.flags),
                    cts: kept(c.cts, e.cts),
                },
                rest,
            ),
        ),
{
    broadcast use boxes::group_wire;

    let d = kept(c.duration, e.duration);
    let s = kept(c.size, e.size);
    let f = kept(c.flags, e.flags);
    let t = opt_bits(kept(c.cts, e.cts));
    let b3 = opt32(t) + rest;
    let b2 = opt32(f) + b3;
    let b1 = opt32(s) + b2;
    assert(entry_bytes(c)(e) + rest == opt32(d) + b1);
    lemma_field32(d, b1);
    lemma_field32(s, b2);
    lemma_field32(f, b3);
    lemma_field32(t, rest);
}

/// The samples from `i` on that were written are read.
proof fn lemma_entries(s: Seq<TrunEntry>, i: int, flags: u32)
    requires
        0 <= i <= s.len(),
        flagged(flags, 0x100) == carried(s).duration,
        flagged(flags, 0x200) == carried(s).size,
        flagged(flags, 0x400) == carried(s).flags,
        flagged(flags, 0x800) == carried(s).cts,
    ensures
        entries_of(
            boxes::run(s.skip(i), entry_bytes(carried(s))),
            flags,
            None,
            (s.len() - i) as nat,
            kept_entries(s).take(i),
        ) == Ok::<Seq<TrunEntry>, Seq<char>>(kept_entries(s)),
    decreases s.len() - i,
{
    let c = carried(s);
    if i == s.len() {
        assert(kept_entries(s).take(i) =~= kept_entries(s));
    } else {
        lemma_run_front(s.skip(i), entry_bytes(c));
        assert(s.skip(i).skip(1) =~= s.skip(i + 1));
        let rest = boxes::run(s.skip(i + 1), entry_bytes(c));
        assert(s.skip(i)[0] == s[i]);
        lemma_entry(s[i], c, flags, rest);
        lemma_entries(s, i + 1, flags);
        assert(kept_entries(s).take(i + 1) =~= kept_entries(s).take(i).push(kept_entries(s)[i]));
    }
}

/// The first item, and then the others.
proof fn lemma_run_front<T>(s: Seq<T>, f: spec_fn(T) -> Seq<u8>)
    requires
        s.len() > 0,
    ensures
        boxes::run(s, f) == f(s[0]) + boxes::run(s.skip(1), f),
    decreases s.len(),
{
    broadcast use boxes::group_wire;

    if s.len() == 1 {
        assert(s.drop_last() =~= Seq::empty());
        assert(s.skip(1) =~= Seq::empty());
        assert(boxes::run(s, f) =~= f(s[0]) + boxes::run(s.skip(1), f));
    } else {
        lemma_run_front(s.drop_last(), f);
        assert(s.drop_last().skip(1) =~= s.skip(1).drop_last());
        assert(s.skip(1).last() == s.last());
    }
}

/// A run that was written reads back, but for fields that only some samples carry:
/// those are dropped.
pub proof fn law_trun_reads_back(x: Trun, r: IsobmffResult<Trun>)
    requires
        x.entries@.len() <= u32::MAX,
        Trun::reads_full_body(x.version_of(), x.flags_of(), x.full_body()->Ok_0, r),
    ensures
        r is Ok,
        r->Ok_0.data_offset == x.data_offset,
        r->Ok_0.entries@ == kept_entries(x.entries@),
{
    let s = x.entries@;
    let c = carried(s);
    let f = x.flags_of();
    let b2 = boxes::run(s, entry_bytes(c));
    let b1 = opt32(opt_bits(x.data_offset)) + b2;
    let n = boxes::count32(s.len());
    lemma_trun_flags(x);
    assert(opt32(Some(n)) == bytes::be32(n)) by {
        reveal(opt32);
    }
    assert(x.full_body()->Ok_0 =~= opt32(Some(n)) + b1);
    lemma_field32(Some(n), b1);
    lemma_field32(opt_bits(x.data_offset), b2);
    lemma_no_field(b2);
    lemma_entries(s, 0, f);
    assert(s.skip(0) =~= s);
    assert(kept_entries(s).take(0) =~= Seq::empty());
}

/// A track fragment: its header, its decode time and its runs.
#[derive(Debug, Clone, PartialEq, Eq)]
pub struct Traf {
    pub tfhd: Tfhd,
    pub tfdt: Option<Tfdt>,
    pub trun: Vec<Trun>,
}

impl Atom for Traf {
    const KIND: [u8; 4] = kinds::TRAF;

    open spec fn kind() -> Seq<u8> {
        kinds::TRAF@
    }

    proof fn kind_is_code() {
    }

    open spec fn body(&self) -> Wire {
        boxes::joined(
            boxes::joined(self.tfhd.wire(), boxes::opt_wire(self.tfdt)),
            boxes::all_wire(self.trun@),
        )
    }

    open spec fn reads_body(b: Seq<u8>, r: IsobmffResult<Self>) -> bool {
        error::malformed(r, "Traf::decode_body — not yet implemented (production path is encode-only)"@)
    }

    fn encode_body(&self, buf: &mut Vec<u8>) -> (r: IsobmffResult<()>) {
        broadcast use boxes::group_wire;

        self.tfhd.encode(buf)?;
        encode_opt(&self.tfdt, buf)?;
        encode_all(&self.trun, buf)
    }

    fn decode_body(_buf: &[u8]) -> (r: IsobmffResult<Self>) {
        write_only("Traf::decode_body — not yet implemented (production path is encode-only)")
    }
}

/// A movie fragment: its header and its track fragments.
#[derive(Debug, Clone, PartialEq, Eq)]
pub struct Moof {
    pub mfhd: Mfhd,
    pub traf: Vec<Traf>,
}

impl Atom for Moof {
    const KIND: [u8; 4] = kinds::MOOF;

    open spec fn kind() -> Seq<u8> {
        kinds::MOOF@
    }

    proof fn kind_is_code() {
    }

    open spec fn body(&self) -> Wire {
        boxes::joined(self.mfhd.wire(), boxes::all_wire(self.traf@))
    }

    open spec fn reads_body(b: Seq<u8>, r: IsobmffResult<Self>) -> bool {
        error::malformed(r, "Moof::decode_body — not yet implemented (production path is encode-only)"@)
    }

    fn encode_body(&self, buf: &mut Vec<u8>) -> (r: IsobmffResult<()>) {
        broadcast use boxes::group_wire;

        self.mfhd.encode(buf)?;
        encode_all(&self.traf, buf)
    }

    fn decode_body(_buf: &[u8]) -> (r: IsobmffResult<Self>) {
        write_only("Moof::decode_body — not yet implemented (production path is encode-only)")
    }
}

} // verus!
