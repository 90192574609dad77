//! EBML element writers, the inverse of [`element`](super::element).
//!
//! Each `write_*` function appends one complete element to a caller-supplied
//! buffer. A master element takes its finished body; nested masters are built
//! from the innermost outward. For an unknown-size master,
//! [`open_master_unknown_size`] appends the opening alone.

use crate::bytes;
use crate::mkv::ebml::element;
use crate::mkv::ebml::varint;
use vstd::prelude::*;
use vstd::string::*;
use vstd::utf8::*;

verus! {

/// One past the largest size that a VINT can carry.
pub open spec fn size_limit() -> nat {
    (varint::marker(8) - 1) as nat
}

/// One past the largest ID that can be written.
pub open spec fn id_limit() -> nat {
    0x1_0000_0000
}

/// The smallest width from `w` up whose VINT can carry the size `n`, all ones
/// being reserved.
pub open spec fn size_width_from(n: nat, w: int) -> int
    decreases 8 - w,
{
    if w >= 8 || n + 1 < varint::marker(w) {
        w
    } else {
        size_width_from(n, w + 1)
    }
}

/// The width of the VINT that carries the size `n`.
#[verifier::opaque]
pub open spec fn size_width(n: nat) -> int {
    size_width_from(n, 1)
}

/// The VINT that carries the size `n`.
pub open spec fn size_bytes(n: nat) -> Seq<u8> {
    bytes::fixed(n + varint::marker(size_width(n)), size_width(n) as nat)
}

/// The width of an ID.
pub open spec fn id_width_spec(id: u64) -> int {
    if id <= 0xFF {
        1
    } else if id <= 0xFFFF {
        2
    } else if id <= 0xFF_FFFF {
        3
    } else {
        4
    }
}

/// An ID on the wire.
pub open spec fn id_bytes(id: u64) -> Seq<u8> {
    bytes::fixed(id as nat, id_width_spec(id) as nat)
}

/// One element on the wire.
pub open spec fn element_bytes(id: u64, payload: Seq<u8>) -> Seq<u8> {
    id_bytes(id) + size_bytes(payload.len()) + payload
}

/// How many digits `n` has in base 256, at least one.
pub open spec fn digits(n: nat) -> nat
    decreases n,
{
    if n < 256 {
        1
    } else {
        digits(n / 256) + 1
    }
}

/// The shortest big-endian form of `n`, at least one byte long.
pub open spec fn uint_bytes(n: u64) -> Seq<u8> {
    bytes::fixed(n as nat, digits(n as nat))
}

/// How many bytes the two's complement of `v` needs.
pub open spec fn signed_width(v: i64) -> nat {
    if -0x80 <= v < 0x80 {
        1
    } else if -0x8000 <= v < 0x8000 {
        2
    } else if -0x80_0000 <= v < 0x80_0000 {
        3
    } else if -0x8000_0000 <= v < 0x8000_0000 {
        4
    } else if -0x80_0000_0000 <= v < 0x80_0000_0000 {
        5
    } else if -0x8000_0000_0000 <= v < 0x8000_0000_0000 {
        6
    } else if -0x80_0000_0000_0000 <= v < 0x80_0000_0000_0000 {
        7
    } else {
        8
    }
}

/// The shortest two's complement form of `v`.
pub open spec fn int_bytes(v: i64) -> Seq<u8> {
    let w = signed_width(v);
    bytes::fixed(
        (if v < 0 {
            v + bytes::pow256(w)
        } else {
            v as int
        }) as nat,
        w,
    )
}

/// The size VINT of `n` is as wide as it must be and no wider.
pub proof fn lemma_size_width(n: nat)
    requires
        n < size_limit(),
    ensures
        1 <= size_width(n) <= 8,
        n + 1 < varint::marker(size_width(n)),
        size_width(n) > 1 ==> n + 1 >= varint::marker(size_width(n) - 1),
        size_bytes(n).len() == size_width(n),
{
    reveal(size_width);
    reveal_with_fuel(size_width_from, 9);
    bytes::lemma_fixed_len(n + varint::marker(size_width(n)), size_width(n) as nat);
}

/// A size reads back from where its VINT stands.
pub proof fn lemma_size_reads_back(s: Seq<u8>, pos: int, n: nat)
    requires
        n < size_limit(),
        0 <= pos,
        pos + size_width(n) <= s.len(),
        s.subrange(pos, pos + size_width(n)) == size_bytes(n),
    ensures
        varint::vint_bytes(s, pos) == Ok::<Seq<u8>, crate::mkv::Error>(size_bytes(n)),
        varint::vint_at(s, pos) == Ok::<(u64, u8, bool), crate::mkv::Error>(
            (n as u64, size_width(n) as u8, false),
        ),
        varint::size_at(s, pos) == Ok::<Option<u64>, crate::mkv::Error>(Some(n as u64)),
{
    lemma_size_width(n);
    let w = size_width(n);
    let v = n + varint::marker(w);
    bytes::lemma_pow256();
    bytes::lemma_uint_fixed(v, w as nat);
    varint::lemma_width_of_value(size_bytes(n));
    assert(s[pos] == s.subrange(pos, pos + w)[0]);
}

/// The widths of IDs that announce themselves: those whose leading byte carries
/// the matching marker.
pub open spec fn is_id(id: u64) -> bool {
    &&& id < id_limit()
    &&& varint::marker(id_width_spec(id)) <= id < 2 * varint::marker(id_width_spec(id))
}

/// An ID reads back from where it stands.
pub proof fn lemma_id_reads_back(s: Seq<u8>, pos: int, id: u64)
    requires
        is_id(id),
        0 <= pos,
        pos + id_width_spec(id) <= s.len(),
        s.subrange(pos, pos + id_width_spec(id)) == id_bytes(id),
    ensures
        varint::id_at(s, pos) == Ok::<varint::Vint, crate::mkv::Error>(
            varint::Vint { value: id, width: id_width_spec(id) as u8 },
        ),
{
    let w = id_width_spec(id);
    bytes::lemma_pow256();
    bytes::lemma_uint_fixed(id as nat, w as nat);
    varint::lemma_width_of_value(id_bytes(id));
    assert(s[pos] == s.subrange(pos, pos + w)[0]);
}

/// The header of a written element.
pub open spec fn header_of(pos: int, id: u64, len: nat) -> element::ElementHeader {
    element::ElementHeader {
        id: varint::Vint { value: id, width: id_width_spec(id) as u8 },
        size: Some(len as u64),
        element_start: pos as usize,
        payload_start: (pos + id_width_spec(id) + size_width(len)) as usize,
    }
}

/// How many bytes an element takes.
pub open spec fn element_len(id: u64, len: nat) -> nat {
    (id_width_spec(id) + size_width(len) + len) as nat
}

/// An element is as long as its parts.
pub proof fn lemma_element_len(id: u64, payload: Seq<u8>)
    requires
        payload.len() < size_limit(),
    ensures
        element_bytes(id, payload).len() == element_len(id, payload.len()),
        1 <= id_width_spec(id) <= 4,
        1 <= size_width(payload.len()) <= 8,
{
    lemma_size_width(payload.len());
    bytes::lemma_fixed_len(id as nat, id_width_spec(id) as nat);
}

/// What [`write_element`] writes, the reader reads back: the header gives the ID
/// and the size, the header's extent is the payload, and the walk goes on behind
/// the element.
pub proof fn law_element_reads_back(s: Seq<u8>, pos: int, id: u64, payload: Seq<u8>)
    requires
        is_id(id),
        payload.len() < size_limit(),
        s.len() <= usize::MAX,
        0 <= pos,
        pos + element_len(id, payload.len()) <= s.len(),
        s.subrange(pos, pos + element_len(id, payload.len())) == element_bytes(id, payload),
    ensures
        element::header_at(s, pos) == Ok::<element::ElementHeader, crate::mkv::Error>(
            header_of(pos, id, payload.len()),
        ),
        element::payload_of(s, header_of(pos, id, payload.len())) == Ok::<
            Seq<u8>,
            crate::mkv::Error,
        >(payload),
        element::children_of(s, header_of(pos, id, payload.len())) == Ok::<
            Seq<u8>,
            crate::mkv::Error,
        >(payload),
        element::after(s, header_of(pos, id, payload.len())) == Ok::<int, crate::mkv::Error>(
            (pos + element_len(id, payload.len())) as int,
        ),
{
    let wi = id_width_spec(id);
    let n = payload.len();
    let ws = size_width(n);
    let e = element_bytes(id, payload);
    let total = element_len(id, n) as int;
    lemma_element_len(id, payload);
    lemma_size_width(n);
    bytes::lemma_fixed_len(id as nat, wi as nat);
    let sub = s.subrange(pos, pos + total);
    assert(s.subrange(pos, pos + wi) =~= sub.subrange(0, wi));
    assert(e.subrange(0, wi) =~= id_bytes(id));
    assert(s.subrange(pos + wi, pos + wi + ws) =~= sub.subrange(wi, wi + ws));
    assert(e.subrange(wi, wi + ws) =~= size_bytes(n));
    assert(s.subrange(pos + wi + ws, pos + total) =~= sub.subrange(wi + ws, total));
    assert(e.subrange(wi + ws, total) =~= payload);
    lemma_id_reads_back(s, pos, id);
    lemma_size_reads_back(s, pos + wi, n);
}

/// The number of digits is that of the smallest power of 256 above `n`.
pub proof fn lemma_digits(n: nat)
    ensures
        digits(n) >= 1,
        n < bytes::pow256(digits(n)),
        n < 0x1_0000_0000_0000_0000 ==> digits(n) <= 8,
    decreases n,
{
    bytes::lemma_pow256();
    if n >= 256 {
        lemma_digits(n / 256);
        assert(bytes::pow256(digits(n)) == 256 * bytes::pow256(digits(n / 256)));
        if n < 0x1_0000_0000_0000_0000 {
            lemma_digits_bound(n / 256, 7);
        }
    }
}

proof fn lemma_digits_bound(n: nat, k: nat)
    requires
        k >= 1,
        n < bytes::pow256(k),
    ensures
        digits(n) <= k,
    decreases k,
{
    if n >= 256 {
        if k == 1 {
            bytes::lemma_pow256();
        }
        assert(bytes::pow256(k) == 256 * bytes::pow256((k - 1) as nat));
        lemma_digits_bound(n / 256, (k - 1) as nat);
    }
}

/// What [`write_uint`] writes, [`Reader::read_uint`](element::Reader::read_uint)
/// reads back.
pub proof fn law_uint_reads_back(n: u64)
    ensures
        1 <= uint_bytes(n).len() <= 8,
        bytes::uint(uint_bytes(n)) == n,
{
    lemma_digits(n as nat);
    bytes::lemma_uint_fixed(n as nat, digits(n as nat));
}

/// What [`write_int`] writes, [`Reader::read_int`](element::Reader::read_int)
/// reads back.
pub proof fn law_int_reads_back(v: i64)
    ensures
        1 <= int_bytes(v).len() <= 8,
        element::signed(int_bytes(v)) == v,
{
    let w = signed_width(v);
    bytes::lemma_pow256();
    let u = (if v < 0 {
        v + bytes::pow256(w)
    } else {
        v as int
    }) as nat;
    bytes::lemma_uint_fixed(u, w);
    element::lemma_sign(int_bytes(v));
}

/// A text up to its first NUL.
pub open spec fn before_nul(t: Seq<char>) -> Seq<char>
    decreases t.len(),
{
    if t.len() == 0 || t[0] == '\0' {
        Seq::empty()
    } else {
        seq![t[0]] + before_nul(t.drop_first())
    }
}

/// What [`write_utf8`] or [`write_ascii`] writes, the text readers read back up to its
/// first NUL.
pub proof fn law_text_reads_back(t: Seq<char>)
    ensures
        element::until_nul(encode_utf8(t)) == encode_utf8(before_nul(t)),
        valid_utf8(encode_utf8(before_nul(t))),
        decode_utf8(encode_utf8(before_nul(t))) == before_nul(t),
{
    lemma_nul_place(t);
    encode_utf8_valid_utf8(before_nul(t));
    encode_utf8_decode_utf8(before_nul(t));
}

/// A text without a NUL is read back whole.
pub proof fn law_plain_text(t: Seq<char>)
    requires
        !t.contains('\0'),
    ensures
        before_nul(t) == t,
    decreases t.len(),
{
    if t.len() > 0 {
        assert(t.contains(t[0]));
        let rest = t.drop_first();
        assert forall|i: int| 0 <= i < rest.len() implies rest[i] != '\0' by {
            assert(t.contains(t[i + 1]));
        }
        law_plain_text(rest);
        assert(seq![t[0]] + rest =~= t);
    } else {
        assert(t =~= Seq::empty());
    }
}

/// Behind bytes that are not zero, the search goes on.
proof fn lemma_nul_behind(a: Seq<u8>, b: Seq<u8>, i: int)
    requires
        0 <= i <= a.len() + b.len(),
        forall|k: int| 0 <= k < a.len() ==> #[trigger] a[k] != 0,
    ensures
        element::nul_from(a + b, i) == if i < a.len() {
            a.len() + element::nul_from(b, 0)
        } else {
            a.len() + element::nul_from(b, i - a.len())
        },
    decreases a.len() + b.len() - i,
{
    let s = a + b;
    if i < a.len() {
        assert(s[i] == a[i]);
        lemma_nul_behind(a, b, i + 1);
    } else if i < s.len() {
        assert(s[i] == b[i - a.len()]);
        if s[i] != 0 {
            lemma_nul_behind(a, b, i + 1);
        }
    }
}

/// Only NUL is encoded with a zero byte.
proof fn lemma_scalar_bytes(ch: char)
    requires
        ch != '\0',
    ensures
        forall|k: int|
            0 <= k < encode_scalar(ch as u32).len() ==> #[trigger] encode_scalar(ch as u32)[k]
                != 0,
{
    let c = ch as u32;
    assert(c != 0);
    assert(0 < c <= 0x7F ==> leading_byte_width_1(c) != 0) by (bit_vector);
    assert(leading_byte_width_2(c) != 0 && leading_byte_width_3(c) != 0 && leading_byte_width_4(c)
        != 0) by (bit_vector);
    assert(last_continuation_byte(c) != 0 && second_last_continuation_byte(c) != 0
        && third_last_continuation_byte(c) != 0) by (bit_vector);
}

/// Where the first zero byte of an encoded text is.
proof fn lemma_nul_place(t: Seq<char>)
    ensures
        element::nul_from(encode_utf8(t), 0) == encode_utf8(before_nul(t)).len(),
        element::until_nul(encode_utf8(t)) == encode_utf8(before_nul(t)),
    decreases t.len(),
{
    if t.len() == 0 {
        assert(element::until_nul(encode_utf8(t)) =~= encode_utf8(before_nul(t)));
    } else if t[0] == '\0' {
        assert(encode_scalar(t[0] as u32)[0] == 0) by {
            assert(leading_byte_width_1(0u32) == 0) by (bit_vector);
        }
        assert(encode_utf8(t)[0] == 0);
        assert(element::until_nul(encode_utf8(t)) =~= encode_utf8(before_nul(t)));
    } else {
        let rest = t.drop_first();
        let a = encode_scalar(t[0] as u32);
        let b = encode_utf8(rest);
        let kept = before_nul(t);
        lemma_nul_place(rest);
        lemma_scalar_bytes(t[0]);
        lemma_nul_behind(a, b, 0);
        assert(kept.drop_first() =~= before_nul(rest));
        assert(encode_utf8(kept) == a + encode_utf8(before_nul(rest)));
        assert(element::until_nul(a + b) =~= a + element::until_nul(b)) by {
            lemma_nul_within(b, 0);
        }
    }
}

proof fn lemma_nul_within(b: Seq<u8>, i: int)
    requires
        0 <= i <= b.len(),
    ensures
        i <= element::nul_from(b, i) <= b.len(),
    decreases b.len() - i,
{
    if i < b.len() {
        lemma_nul_within(b, i + 1);
    }
}

/// Elements one after the other, each an ID and a payload.
pub open spec fn items_bytes(items: Seq<(u64, Seq<u8>)>) -> Seq<u8>
    decreases items.len(),
{
    if items.len() == 0 {
        Seq::empty()
    } else {
        items_bytes(items.drop_last()) + element_bytes(items.last().0, items.last().1)
    }
}

/// What handing elements to `g`, each with its offset, makes of `st`.
pub open spec fn fold<S>(
    items: Seq<(u64, Seq<u8>)>,
    st: S,
    g: spec_fn(int, u64, Seq<u8>, S) -> Result<S, crate::mkv::Error>,
) -> Result<S, crate::mkv::Error>
    decreases items.len(),
{
    if items.len() == 0 {
        Ok(st)
    } else {
        match fold(items.drop_last(), st, g) {
            Err(e) => Err(e),
            Ok(t) => g(
                items_bytes(items.drop_last()).len() as int,
                items.last().0,
                items.last().1,
                t,
            ),
        }
    }
}

/// The element stands at `pos`.
#[verifier::opaque]
pub open spec fn stands(s: Seq<u8>, pos: int, id: u64, payload: Seq<u8>) -> bool {
    &&& is_id(id)
    &&& payload.len() < size_limit()
    &&& s.len() <= usize::MAX
    &&& 0 <= pos
    &&& pos + element_len(id, payload.len()) <= s.len()
    &&& s.subrange(pos, pos + element_len(id, payload.len())) == element_bytes(id, payload)
}

/// `f` on a header makes of an element what `g` makes of its payload.
pub open spec fn agree<S>(
    f: spec_fn(Seq<u8>, element::ElementHeader, S) -> Result<S, crate::mkv::Error>,
    g: spec_fn(int, u64, Seq<u8>, S) -> Result<S, crate::mkv::Error>,
) -> bool {
    forall|s: Seq<u8>, pos: int, id: u64, payload: Seq<u8>, st: S|
        #![trigger f(s, header_of(pos, id, payload.len()), st), stands(s, pos, id, payload)]
        stands(s, pos, id, payload) ==> f(s, header_of(pos, id, payload.len()), st) == g(
            pos,
            id,
            payload,
            st,
        )
}

/// Elements that can be written: proper IDs, sizes that a VINT can carry.
pub open spec fn writable(items: Seq<(u64, Seq<u8>)>) -> bool {
    forall|i: int|
        #![trigger items[i]]
        0 <= i < items.len() ==> is_id(items[i].0) && items[i].1.len() < size_limit()
}

/// Earlier elements are a prefix of later ones.
pub proof fn lemma_items_prefix(items: Seq<(u64, Seq<u8>)>, k: int)
    requires
        0 <= k <= items.len(),
    ensures
        items_bytes(items.take(k)).len() <= items_bytes(items).len(),
        items_bytes(items).subrange(0, items_bytes(items.take(k)).len() as int) == items_bytes(
            items.take(k),
        ),
    decreases items.len() - k,
{
    if k == items.len() {
        assert(items.take(k) =~= items);
        assert(items_bytes(items).subrange(0, items_bytes(items).len() as int) =~= items_bytes(
            items,
        ));
    } else {
        let n = items.take(k + 1);
        lemma_items_prefix(items, k + 1);
        assert(n.drop_last() =~= items.take(k));
        let a = items_bytes(items.take(k));
        let b = items_bytes(n);
        let c = items_bytes(items);
        assert(b.subrange(0, a.len() as int) =~= a);
        assert(c.subrange(0, a.len() as int) =~= c.subrange(0, b.len() as int).subrange(
            0,
            a.len() as int,
        ));
    }
}

/// Where the `k`th element stands among its siblings.
pub proof fn lemma_item_stands(items: Seq<(u64, Seq<u8>)>, k: int)
    requires
        0 <= k < items.len(),
        writable(items),
        items_bytes(items).len() <= usize::MAX,
    ensures
        stands(
            items_bytes(items),
            items_bytes(items.take(k)).len() as int,
            items[k].0,
            items[k].1,
        ),
        items_bytes(items.take(k + 1)).len() == items_bytes(items.take(k)).len() + element_len(
            items[k].0,
            items[k].1.len(),
        ),
{
    reveal(stands);
    let n = items.take(k + 1);
    let a = items_bytes(items.take(k));
    let b = items_bytes(n);
    let c = items_bytes(items);
    let (id, payload) = items[k];
    assert(n.drop_last() =~= items.take(k));
    assert(n.last() == items[k]);
    lemma_items_prefix(items, k + 1);
    lemma_element_len(id, payload);
    let e = element_bytes(id, payload);
    assert(b =~= a + e);
    assert(b.subrange(a.len() as int, (a.len() + e.len()) as int) =~= e);
    assert(c.subrange(a.len() as int, (a.len() + e.len()) as int) =~= c.subrange(
        0,
        b.len() as int,
    ).subrange(a.len() as int, (a.len() + e.len()) as int));
}

/// A walk over written elements sees those elements, in order.
pub proof fn law_walk_reads_items<S>(
    items: Seq<(u64, Seq<u8>)>,
    st: S,
    f: spec_fn(Seq<u8>, element::ElementHeader, S) -> Result<S, crate::mkv::Error>,
    g: spec_fn(int, u64, Seq<u8>, S) -> Result<S, crate::mkv::Error>,
)
    requires
        writable(items),
        items_bytes(items).len() <= usize::MAX,
        agree(f, g),
    ensures
        element::walk(items_bytes(items), 0, st, f) == fold(items, st, g),
{
    lemma_walk_prefix(items, items.len() as int, st, f, g);
    assert(items.take(items.len() as int) =~= items);
}

proof fn lemma_walk_prefix<S>(
    items: Seq<(u64, Seq<u8>)>,
    k: int,
    st: S,
    f: spec_fn(Seq<u8>, element::ElementHeader, S) -> Result<S, crate::mkv::Error>,
    g: spec_fn(int, u64, Seq<u8>, S) -> Result<S, crate::mkv::Error>,
)
    requires
        0 <= k <= items.len(),
        writable(items),
        items_bytes(items).len() <= usize::MAX,
        agree(f, g),
    ensures
        element::walk(items_bytes(items), 0, st, f) == (match fold(items.take(k), st, g) {
            Err(e) => Err(e),
            Ok(t) => element::walk(
                items_bytes(items),
                items_bytes(items.take(k)).len() as int,
                t,
                f,
            ),
        }),
    decreases k,
{
    reveal(stands);
    if k == 0 {
        assert(items.take(0) =~= Seq::<(u64, Seq<u8>)>::empty());
    } else {
        lemma_walk_prefix(items, k - 1, st, f, g);
        lemma_item_stands(items, k - 1);
        let n = items.take(k);
        assert(n.drop_last() =~= items.take(k - 1));
        assert(n.last() == items[k - 1]);
        let s = items_bytes(items);
        let pos = items_bytes(items.take(k - 1)).len() as int;
        let (id, payload) = items[k - 1];
        law_element_reads_back(s, pos, id, payload);
        lemma_element_len(id, payload);
        match fold(items.take(k - 1), st, g) {
            Err(_) => {},
            Ok(t) => {
                let h = header_of(pos, id, payload.len());
                assert(f(s, h, t) == g(pos, id, payload, t));
            },
        }
    }
}

/// One more element at the end.
pub proof fn lemma_items_push(items: Seq<(u64, Seq<u8>)>, id: u64, payload: Seq<u8>)
    ensures
        items_bytes(items.push((id, payload))) == items_bytes(items) + element_bytes(id, payload),
{
    assert(items.push((id, payload)).drop_last() =~= items);
}

/// Two runs of elements one after the other.
pub proof fn lemma_items_concat(a: Seq<(u64, Seq<u8>)>, b: Seq<(u64, Seq<u8>)>)
    ensures
        items_bytes(a + b) == items_bytes(a) + items_bytes(b),
    decreases b.len(),
{
    if b.len() == 0 {
        assert(a + b =~= a);
        assert(items_bytes(a) + items_bytes(b) =~= items_bytes(a));
    } else {
        assert((a + b).drop_last() =~= a + b.drop_last());
        assert((a + b).last() == b.last());
        lemma_items_concat(a, b.drop_last());
        assert(items_bytes(a + b) =~= items_bytes(a) + items_bytes(b));
    }
}

/// An element is longer than its payload.
pub proof fn lemma_element_longer(id: u64, payload: Seq<u8>)
    ensures
        element_bytes(id, payload).len() >= payload.len() + 2,
        element_bytes(id, payload).len() <= payload.len() + 12,
{
    let w = size_width(payload.len());
    reveal(size_width);
    reveal_with_fuel(size_width_from, 9);
    bytes::lemma_fixed_len(payload.len() + varint::marker(w), w as nat);
    bytes::lemma_fixed_len(id as nat, id_width_spec(id) as nat);
}

/// No element is longer than all of them together.
pub proof fn lemma_item_fits(items: Seq<(u64, Seq<u8>)>, i: int)
    requires
        0 <= i < items.len(),
    ensures
        items[i].1.len() + 2 <= items_bytes(items).len(),
        element_bytes(items[i].0, items[i].1).len() <= items_bytes(items).len(),
    decreases items.len(),
{
    lemma_element_longer(items.last().0, items.last().1);
    if i < items.len() - 1 {
        lemma_item_fits(items.drop_last(), i);
    }
}

/// Elements that together are short enough can be written.
pub proof fn lemma_writable(items: Seq<(u64, Seq<u8>)>)
    requires
        items_bytes(items).len() < size_limit(),
        forall|i: int| 0 <= i < items.len() ==> is_id((#[trigger] items[i]).0),
    ensures
        writable(items),
{
    assert forall|i: int| 0 <= i < items.len() implies is_id((#[trigger] items[i]).0)
        && items[i].1.len() < size_limit() by {
        lemma_item_fits(items, i);
    }
}

/// Folding over one more element.
pub proof fn lemma_fold_push<S>(
    items: Seq<(u64, Seq<u8>)>,
    id: u64,
    payload: Seq<u8>,
    st: S,
    g: spec_fn(int, u64, Seq<u8>, S) -> Result<S, crate::mkv::Error>,
)
    ensures
        fold(items.push((id, payload)), st, g) == (match fold(items, st, g) {
            Err(e) => Err(e),
            Ok(t) => g(items_bytes(items).len() as int, id, payload, t),
        }),
{
    assert(items.push((id, payload)).drop_last() =~= items);
}

/// Appends the size VINT of `n`, one to eight bytes long. The payload of all
/// ones is left to "unknown size".
pub fn write_size_vint(n: u64, out: &mut Vec<u8>)
    requires
        n < size_limit(),
    ensures
        final(out)@ == old(out)@ + size_bytes(n as nat),
{
    let w: usize = size_vint_width(n);
    proof {
        lemma_size_width(n as nat);
    }
    bytes::put_fixed(out, n + varint::marker_weight(w), w);
}

/// How many bytes [`write_size_vint`] appends for `n`.
pub fn size_vint_width(n: u64) -> (w: usize)
    requires
        n < size_limit(),
    ensures
        w == size_width(n as nat),
        1 <= w <= 8,
{
    reveal(size_width);
    let mut w: usize = 1;
    while w < 8 && n + 1 >= varint::marker_weight(w)
        invariant
            1 <= w <= 8,
            n < size_limit(),
            size_width(n as nat) == size_width_from(n as nat, w as int),
        decreases 8 - w,
    {
        w = w + 1;
    }
    w
}

/// Appends the one-byte "unknown size" VINT.
pub fn write_unknown_size_vint(out: &mut Vec<u8>)
    ensures
        final(out)@ == old(out)@.push(0xFF),
{
    out.push(0xFF);
}

/// Appends an ID, whose marker is part of its value.
fn write_id(id: u64, out: &mut Vec<u8>)
    requires
        id < id_limit(),
    ensures
        final(out)@ == old(out)@ + id_bytes(id),
{
    bytes::put_fixed(out, id, id_width(id));
}

fn id_width(id: u64) -> (w: usize)
    requires
        id < id_limit(),
    ensures
        w == id_width_spec(id),
        1 <= w <= 4,
{
    if id <= 0xFF {
        1
    } else if id <= 0xFFFF {
        2
    } else if id <= 0xFF_FFFF {
        3
    } else {
        4
    }
}

/// Appends ID, size and payload.
pub fn write_element(id: u64, payload: &[u8], out: &mut Vec<u8>)
    requires
        id < id_limit(),
        payload@.len() < size_limit(),
    ensures
        final(out)@ == old(out)@ + element_bytes(id, payload@),
{
    write_id(id, out);
    write_size_vint(payload.len() as u64, out);
    bytes::put_slice(out, payload);
    assert(out@ =~= old(out)@ + element_bytes(id, payload@));
}

/// How many base-256 digits `n` has, at least one.
fn digit_count(n: u64) -> (d: usize)
    ensures
        d == digits(n as nat),
        1 <= d <= 8,
{
    proof {
        lemma_digits(n as nat);
    }
    let mut d: usize = 1;
    let mut rest: u64 = n;
    while rest >= 256
        invariant
            1 <= d,
            d + digits(rest as nat) == digits(n as nat) + 1,
            digits(n as nat) <= 8,
        decreases rest,
    {
        proof {
            lemma_digits(rest as nat / 256);
        }
        rest = rest / 256;
        d = d + 1;
    }
    d
}

/// The shortest big-endian form of `n`, one to eight bytes long.
pub fn uint_be(n: u64) -> (v: Vec<u8>)
    ensures
        v@ == uint_bytes(n),
        1 <= v@.len() <= 8,
{
    let mut v: Vec<u8> = Vec::new();
    let d: usize = digit_count(n);
    proof {
        bytes::lemma_fixed_len(n as nat, d as nat);
    }
    bytes::put_fixed(&mut v, n, d);
    assert(v@ =~= uint_bytes(n));
    v
}

/// Appends an unsigned integer element of the smallest width.
pub fn write_uint(id: u64, value: u64, out: &mut Vec<u8>)
    requires
        id < id_limit(),
    ensures
        final(out)@ == old(out)@ + element_bytes(id, uint_bytes(value)),
{
    let v = uint_be(value);
    write_element(id, v.as_slice(), out);
}

/// Appends an unsigned integer element of exactly `width` bytes.
pub fn write_uint_fixed_width(id: u64, value: u64, width: usize, out: &mut Vec<u8>)
    requires
        id < id_limit(),
        1 <= width <= 8,
    ensures
        final(out)@ == old(out)@ + element_bytes(id, bytes::fixed(value as nat, width as nat)),
{
    let mut v: Vec<u8> = Vec::new();
    bytes::put_fixed(&mut v, value, width);
    assert(v@ =~= bytes::fixed(value as nat, width as nat));
    proof {
        bytes::lemma_fixed_len(value as nat, width as nat);
    }
    write_element(id, v.as_slice(), out);
}

/// How many bytes an ID takes.
pub fn id_width_of(id: u64) -> (w: usize)
    requires
        id < id_limit(),
    ensures
        w == id_width_spec(id),
        1 <= w <= 4,
{
    id_width(id)
}

/// How many bytes [`write_element`] appends for a payload of `payload_len`.
pub fn element_size(id: u64, payload_len: usize) -> (n: usize)
    requires
        id < id_limit(),
        payload_len < size_limit(),
        element_len(id, payload_len as nat) <= usize::MAX,
    ensures
        n == element_len(id, payload_len as nat),
        forall|p: Seq<u8>|
            p.len() == payload_len ==> #[trigger] element_bytes(id, p).len() == n,
{
    proof {
        lemma_size_width(payload_len as nat);
        assert forall|p: Seq<u8>| p.len() == payload_len implies #[trigger] element_bytes(
            id,
            p,
        ).len() == element_len(id, payload_len as nat) by {
            lemma_element_len(id, p);
        }
    }
    id_width(id) + size_vint_width(payload_len as u64) + payload_len
}

/// How many bytes the two's complement of `v` needs.
fn int_width(v: i64) -> (w: usize)
    ensures
        w == signed_width(v),
        1 <= w <= 8,
{
    if -0x80 <= v && v < 0x80 {
        1
    } else if -0x8000 <= v && v < 0x8000 {
        2
    } else if -0x80_0000 <= v && v < 0x80_0000 {
        3
    } else if -0x8000_0000 <= v && v < 0x8000_0000 {
        4
    } else if -0x80_0000_0000 <= v && v < 0x80_0000_0000 {
        5
    } else if -0x8000_0000_0000 <= v && v < 0x8000_0000_0000 {
        6
    } else if -0x80_0000_0000_0000 <= v && v < 0x80_0000_0000_0000 {
        7
    } else {
        8
    }
}

/// Appends a signed integer element without redundant sign bytes.
pub fn write_int(id: u64, value: i64, out: &mut Vec<u8>)
    requires
        id < id_limit(),
    ensures
        final(out)@ == old(out)@ + element_bytes(id, int_bytes(value)),
{
    let w: usize = int_width(value);
    proof {
        bytes::lemma_pow256();
    }
    let u: u64 = if value >= 0 {
        value as u64
    } else {
        // `-1 - value` is the distance from the top of the width's range.
        let back: u64 = (-1 - value) as u64;
        element::max_of_width(w) - back
    };
    let mut v: Vec<u8> = Vec::new();
    bytes::put_fixed(&mut v, u, w);
    assert(v@ =~= int_bytes(value));
    proof {
        law_int_reads_back(value);
    }
    write_element(id, v.as_slice(), out);
}

/// Appends a double-precision float element, given by its bits.
pub fn write_float64(id: u64, bits: u64, out: &mut Vec<u8>)
    requires
        id < id_limit(),
    ensures
        final(out)@ == old(out)@ + element_bytes(id, bytes::be64(bits)),
{
    let mut v: Vec<u8> = Vec::new();
    bytes::put_u64(&mut v, bits);
    assert(v@ =~= bytes::be64(bits));
    write_element(id, v.as_slice(), out);
}

/// Appends a single-precision float element, given by its bits.
pub fn write_float32(id: u64, bits: u32, out: &mut Vec<u8>)
    requires
        id < id_limit(),
    ensures
        final(out)@ == old(out)@ + element_bytes(id, bytes::be32(bits)),
{
    let mut v: Vec<u8> = Vec::new();
    bytes::put_u32(&mut v, bits);
    assert(v@ =~= bytes::be32(bits));
    write_element(id, v.as_slice(), out);
}

/// Appends a text element.
pub fn write_ascii(id: u64, s: &str, out: &mut Vec<u8>)
    requires
        id < id_limit(),
        encode_utf8(s@).len() < size_limit(),
    ensures
        final(out)@ == old(out)@ + element_bytes(id, encode_utf8(s@)),
{
    write_element(id, s.as_bytes(), out);
}

/// Appends a UTF-8 text element.
pub fn write_utf8(id: u64, s: &str, out: &mut Vec<u8>)
    requires
        id < id_limit(),
        encode_utf8(s@).len() < size_limit(),
    ensures
        final(out)@ == old(out)@ + element_bytes(id, encode_utf8(s@)),
{
    write_element(id, s.as_bytes(), out);
}

/// Appends a binary element.
pub fn write_binary(id: u64, data: &[u8], out: &mut Vec<u8>)
    requires
        id < id_limit(),
        data@.len() < size_limit(),
    ensures
        final(out)@ == old(out)@ + element_bytes(id, data@),
{
    write_element(id, data, out);
}

/// Appends a master element around its finished body.
pub fn write_master(id: u64, body: &[u8], out: &mut Vec<u8>)
    requires
        id < id_limit(),
        body@.len() < size_limit(),
    ensures
        final(out)@ == old(out)@ + element_bytes(id, body@),
{
    write_element(id, body, out);
}

/// Appends an ID and the "unknown size" VINT. The children follow directly.
pub fn open_master_unknown_size(id: u64, out: &mut Vec<u8>)
    requires
        id < id_limit(),
    ensures
        final(out)@ == old(out)@ + id_bytes(id).push(0xFF),
{
    write_id(id, out);
    write_unknown_size_vint(out);
    assert(out@ =~= old(out)@ + id_bytes(id).push(0xFF));
}

} // verus!
