//! What the headers of a file's top-level boxes mean for the walk over them.

use crate::bytes;
use crate::isobmff::boxes::kinds;
use crate::isobmff::demux::open;
use crate::isobmff::demux::open::{OpenAsk, OpenView, Phase};
use crate::isobmff::parse::boxed::code;
use crate::isobmff::parse::listed::{n32, n64};
use vstd::prelude::*;

verus! {

proof fn lemma_codes()
    ensures
        kinds::FTYP@ == code('f', 't', 'y', 'p'),
        kinds::MOOV@ == code('m', 'o', 'o', 'v'),
        kinds::MDAT@ == code('m', 'd', 'a', 't'),
        kinds::MOOF@ == code('m', 'o', 'o', 'f'),
{
    assert(kinds::FTYP@ =~= code('f', 't', 'y', 'p'));
    assert(kinds::MOOV@ =~= code('m', 'o', 'o', 'v'));
    assert(kinds::MDAT@ =~= code('m', 'd', 'a', 't'));
    assert(kinds::MOOF@ =~= code('m', 'o', 'o', 'f'));
}

/// Where a box ends that starts at the current position and has this header: where its
/// length says, or at the end of the file if that is zero.
pub open spec fn box_end(s: OpenView, n: int) -> int {
    if n == 0 {
        s.budget.len as int
    } else {
        s.pos + n
    }
}

/// What a walk does with a box of a kind whose header takes `header` bytes and which ends at
/// `end`. Media data is noted, from behind the header to the end. The bodies of the movie and
/// of the brands are asked for. Any other box is passed over, but a fragment of a movie is
/// refused.
pub open spec fn goes(
    s: OpenView,
    kind: Seq<u8>,
    header: int,
    end: int,
    v: OpenView,
    a: OpenAsk,
) -> bool {
    let at = s.pos + header;
    &&& kind != code('m', 'o', 'o', 'f')
    &&& if kind == code('m', 'o', 'o', 'v') {
        &&& s.moov is None
        &&& v.phase == Phase::Movie
        &&& v.pos == s.pos
        &&& v.end == end
        &&& a == (OpenAsk::Read { at: at as u64, len: (end - at) as usize })
        &&& v.mdat == s.mdat
    } else if kind == code('f', 't', 'y', 'p') {
        &&& !s.ftyp
        &&& v.phase == Phase::Brands
        &&& v.pos == s.pos
        &&& v.end == end
        &&& a == (OpenAsk::Read { at: at as u64, len: (end - at) as usize })
        &&& v.mdat == s.mdat
    } else {
        &&& v.pos == end
        &&& v.moov == s.moov
        &&& v.mdat == if kind == code('m', 'd', 'a', 't') {
            s.mdat.push((at as u64, end as u64))
        } else {
            s.mdat
        }
        &&& asks_next(v, a)
    }
}

/// The header of the box at the current position is asked for, if the file goes on there.
pub open spec fn asks_next(v: OpenView, a: OpenAsk) -> bool {
    if v.pos < v.budget.len {
        v.phase == Phase::Header && a == (OpenAsk::Read { at: v.pos, len: 8 })
    } else {
        v.phase == Phase::Done && a == OpenAsk::Done
    }
}

/// A box starts with its length and its code. A length of one says that the length stands
/// behind the code, in 64 bits, which are asked for.
pub proof fn law_header_is_met(s: OpenView, data: Seq<u8>)
    requires
        s.phase == Phase::Header,
        data.len() == 8,
        open::fed(s, data) is Ok,
    ensures
        ({
            let (v, a) = open::fed(s, data)->Ok_0;
            let n = n32(data, 0);
            if n == 1 {
                &&& v.phase == Phase::Wide
                &&& v.kind == data.subrange(4, 8)
                &&& v.pos == s.pos
                &&& a == (OpenAsk::Read { at: (s.pos + 8) as u64, len: 8 })
                &&& v.mdat == s.mdat
                &&& v.moov == s.moov
            } else {
                goes(s, data.subrange(4, 8), 8, box_end(s, n), v, a)
            }
        }),
{
    lemma_codes();
    assert(bytes::get32(data, 0) == n32(data, 0));
}

/// A length of 64 bits counts from the start of the box, and its header takes 16 bytes.
pub proof fn law_long_header_is_met(s: OpenView, data: Seq<u8>)
    requires
        s.phase == Phase::Wide,
        data.len() == 8,
        open::fed(s, data) is Ok,
    ensures
        goes(
            s,
            s.kind,
            16,
            s.pos + n64(data, 0),
            open::fed(s, data)->Ok_0.0,
            open::fed(s, data)->Ok_0.1,
        ),
{
    lemma_codes();
    assert(bytes::get64(data, 0) == n64(data, 0));
}

/// The body of the movie is kept as it is, and the walk goes on behind it. So it does behind
/// the brands, of which one but the second must be known.
pub proof fn law_body_is_met(s: OpenView, data: Seq<u8>)
    requires
        s.phase == Phase::Movie || s.phase == Phase::Brands,
        open::fed(s, data) is Ok,
    ensures
        ({
            let (v, a) = open::fed(s, data)->Ok_0;
            &&& v.pos == s.end
            &&& v.mdat == s.mdat
            &&& asks_next(v, a)
            &&& if s.phase == Phase::Movie {
                v.moov == Some(data) && v.ftyp == s.ftyp
            } else {
                v.ftyp && v.moov == s.moov && exists|k: int|
                    0 <= k && 4 * k + 4 <= data.len() && k != 1 && brand(
                        #[trigger] open::brand_at(data, k),
                    )
            }
        }),
{
    if s.phase == Phase::Brands {
        let k = choose|k: int|
            0 <= k < data.len() / 4 && k != 1 && open::known_brand(
                #[trigger] open::brand_at(data, k),
            );
        lemma_brand(open::brand_at(data, k));
    }
}

/// The brands of files that are supported.
pub open spec fn brand(b: Seq<u8>) -> bool {
    ||| b == code('i', 's', 'o', 'm')
    ||| b == code('i', 's', 'o', '2')
    ||| b == code('i', 's', 'o', '3')
    ||| b == code('i', 's', 'o', '4')
    ||| b == code('i', 's', 'o', '5')
    ||| b == code('i', 's', 'o', '6')
    ||| b == code('m', 'p', '4', '1')
    ||| b == code('m', 'p', '4', '2')
    ||| b == code('M', '4', 'V', ' ')
    ||| b == code('a', 'v', 'c', '1')
    ||| b == code('d', 'a', 's', 'h')
}

proof fn lemma_brand(b: Seq<u8>)
    requires
        open::known_brand(b),
    ensures
        brand(b),
{
    assert(kinds::ISOM@ =~= code('i', 's', 'o', 'm'));
    assert(kinds::ISO2@ =~= code('i', 's', 'o', '2'));
    assert(kinds::ISO3@ =~= code('i', 's', 'o', '3'));
    assert(kinds::ISO4@ =~= code('i', 's', 'o', '4'));
    assert(kinds::ISO5@ =~= code('i', 's', 'o', '5'));
    assert(kinds::ISO6@ =~= code('i', 's', 'o', '6'));
    assert(kinds::MP41@ =~= code('m', 'p', '4', '1'));
    assert(kinds::MP42@ =~= code('m', 'p', '4', '2'));
    assert(kinds::M4V@ =~= code('M', '4', 'V', ' '));
    assert(kinds::AVC1@ =~= code('a', 'v', 'c', '1'));
    assert(kinds::DASH@ =~= code('d', 'a', 's', 'h'));
}

} // verus!
