//! Big-endian and little-endian integers as byte sequences.

use vstd::prelude::*;

verus! {

/// The two bytes of `v`, most significant first.
pub open spec fn be16(v: u16) -> Seq<u8> {
    seq![(v / 256) as u8, (v % 256) as u8]
}

/// The four bytes of `v`, most significant first.
pub open spec fn be32(v: u32) -> Seq<u8> {
    be16((v / 65536) as u16) + be16((v % 65536) as u16)
}

/// The eight bytes of `v`, most significant first.
pub open spec fn be64(v: u64) -> Seq<u8> {
    be32((v / 0x1_0000_0000) as u32) + be32((v % 0x1_0000_0000) as u32)
}

/// The low three bytes of `v`, most significant first.
pub open spec fn be24(v: u32) -> Seq<u8> {
    seq![(v / 65536 % 256) as u8, (v / 256 % 256) as u8, (v % 256) as u8]
}

/// The two bytes of a signed value in two's complement.
pub open spec fn be16i(v: i16) -> Seq<u8> {
    be16(v as u16)
}

/// The four bytes of a signed value in two's complement.
pub open spec fn be32i(v: i32) -> Seq<u8> {
    be32(v as u32)
}

/// The four bytes of `v`, least significant first.
pub open spec fn le32(v: u32) -> Seq<u8> {
    seq![
        (v % 256) as u8,
        (v / 256 % 256) as u8,
        (v / 65536 % 256) as u8,
        (v / 0x100_0000) as u8,
    ]
}

/// The 16-bit integer stored at `i`.
pub open spec fn get16(s: Seq<u8>, i: int) -> u16 {
    (s[i] * 256 + s[i + 1]) as u16
}

/// The 24-bit integer stored at `i`.
pub open spec fn get24(s: Seq<u8>, i: int) -> u32 {
    (s[i] * 65536 + s[i + 1] * 256 + s[i + 2]) as u32
}

/// The 32-bit integer stored at `i`.
pub open spec fn get32(s: Seq<u8>, i: int) -> u32 {
    (get16(s, i) * 65536 + get16(s, i + 2)) as u32
}

/// The 64-bit integer stored at `i`.
pub open spec fn get64(s: Seq<u8>, i: int) -> u64 {
    (get32(s, i) * 0x1_0000_0000 + get32(s, i + 4)) as u64
}

/// `n` zero bytes.
pub open spec fn zeros(n: nat) -> Seq<u8> {
    Seq::new(n, |i: int| 0u8)
}

/// The bytes of an optional vector.
pub open spec fn opt_bytes(v: Option<Vec<u8>>) -> Option<Seq<u8>> {
    match v {
        None => None,
        Some(b) => Some(b@),
    }
}

/// The unsigned integer whose big-endian digits are `s`.
pub open spec fn uint(s: Seq<u8>) -> nat
    decreases s.len(),
{
    if s.len() == 0 {
        0
    } else {
        uint(s.drop_last()) * 256 + s.last() as nat
    }
}

/// The low `n` bytes of `v`, most significant first.
pub open spec fn fixed(v: nat, n: nat) -> Seq<u8>
    decreases n,
{
    if n == 0 {
        Seq::empty()
    } else {
        fixed(v / 256, (n - 1) as nat).push((v % 256) as u8)
    }
}

/// `256` to the power `n`.
pub open spec fn pow256(n: nat) -> nat
    decreases n,
{
    if n == 0 {
        1
    } else {
        256 * pow256((n - 1) as nat)
    }
}

/// A 16-bit integer reads back from where it was written.
pub proof fn lemma_be16(v: u16)
    ensures
        be16(v).len() == 2,
        get16(be16(v), 0) == v,
{
}

/// A 32-bit integer reads back from where it was written.
pub proof fn lemma_be32(v: u32)
    ensures
        be32(v).len() == 4,
        get32(be32(v), 0) == v,
{
    let hi = (v / 65536) as u16;
    let lo = (v % 65536) as u16;
    assert(be32(v)[0] == be16(hi)[0] && be32(v)[1] == be16(hi)[1]);
    assert(be32(v)[2] == be16(lo)[0] && be32(v)[3] == be16(lo)[1]);
}

/// A 64-bit integer reads back from where it was written.
pub proof fn lemma_be64(v: u64)
    ensures
        be64(v).len() == 8,
        get64(be64(v), 0) == v,
{
    let hi = (v / 0x1_0000_0000) as u32;
    let lo = (v % 0x1_0000_0000) as u32;
    lemma_be32(hi);
    lemma_be32(lo);
    lemma_get32_in(be64(v), 0, hi);
    assert(be64(v).subrange(4, 8) =~= be32(lo));
    lemma_get32_in(be64(v), 4, lo);
}

/// Reading where the four bytes of `v` stand gives `v`.
pub proof fn lemma_get32_in(s: Seq<u8>, i: int, v: u32)
    requires
        0 <= i,
        i + 4 <= s.len(),
        forall|k: int| 0 <= k < 4 ==> s[i + k] == #[trigger] be32(v)[k],
    ensures
        get32(s, i) == v,
{
    lemma_be32(v);
    assert(s[i + 0] == be32(v)[0]);
    assert(s[i + 1] == be32(v)[1]);
    assert(s[i + 2] == be32(v)[2]);
    assert(s[i + 3] == be32(v)[3]);
}

/// The digits of a number determine it.
pub proof fn lemma_uint_fixed(v: nat, n: nat)
    requires
        v < pow256(n),
    ensures
        fixed(v, n).len() == n,
        uint(fixed(v, n)) == v,
    decreases n,
{
    if n > 0 {
        lemma_uint_fixed(v / 256, (n - 1) as nat);
        assert(fixed(v, n).drop_last() =~= fixed(v / 256, (n - 1) as nat));
    }
}

/// A fixed-width rendering has that width.
pub proof fn lemma_fixed_len(v: nat, n: nat)
    ensures
        fixed(v, n).len() == n,
    decreases n,
{
    if n > 0 {
        lemma_fixed_len(v / 256, (n - 1) as nat);
    }
}

/// `n` digits hold a number below `256^n`.
pub proof fn lemma_uint_bound(s: Seq<u8>)
    ensures
        uint(s) < pow256(s.len()),
    decreases s.len(),
{
    if s.len() > 0 {
        lemma_uint_bound(s.drop_last());
    }
}

/// The powers of 256 that fit in 64 bits, and the next one.
pub proof fn lemma_pow256()
    ensures
        pow256(0) == 1,
        pow256(1) == 0x100,
        pow256(2) == 0x1_0000,
        pow256(3) == 0x100_0000,
        pow256(4) == 0x1_0000_0000,
        pow256(5) == 0x100_0000_0000,
        pow256(6) == 0x1_0000_0000_0000,
        pow256(7) == 0x100_0000_0000_0000,
        pow256(8) == 0x1_0000_0000_0000_0000,
{
    reveal_with_fuel(pow256, 9);
}

/// Leading digits weigh `256^len` of what follows.
pub proof fn lemma_uint_concat(a: Seq<u8>, b: Seq<u8>)
    ensures
        uint(a + b) == uint(a) * pow256(b.len()) + uint(b),
    decreases b.len(),
{
    if b.len() == 0 {
        assert(a + b =~= a);
        assert(uint(a) * 1 == uint(a));
        assert(pow256(b.len()) == 1);
    } else {
        let c = b.drop_last();
        assert((a + b).drop_last() =~= a + c);
        lemma_uint_concat(a, c);
        let p = pow256(c.len());
        let q = pow256(b.len());
        let u = uint(a);
        assert((a + b).last() == b.last());
        assert(u * q == (u * p) * 256) by (nonlinear_arith)
            requires
                q == 256 * p,
        ;
        assert(uint(a + b) == uint(a + c) * 256 + b.last());
        assert(uint(b) == uint(c) * 256 + b.last());
    }
}

/// The leading digit bounds a number.
pub proof fn lemma_first_digit(s: Seq<u8>)
    requires
        s.len() > 0,
    ensures
        s[0] * pow256((s.len() - 1) as nat) <= uint(s),
        uint(s) < (s[0] + 1) * pow256((s.len() - 1) as nat),
{
    let a = s.subrange(0, 1);
    let b = s.subrange(1, s.len() as int);
    let p = pow256(b.len());
    assert(s =~= a + b);
    lemma_uint_concat(a, b);
    lemma_uint_bound(b);
    assert(a.drop_last() =~= Seq::<u8>::empty());
    assert(uint(Seq::<u8>::empty()) == 0);
    assert(uint(a) == uint(a.drop_last()) * 256 + a.last());
    assert(uint(a) == s[0]);
    assert((s[0] + 1) * p == s[0] * p + p) by (nonlinear_arith);
}

/// Appends one byte.
pub fn put_u8(buf: &mut Vec<u8>, v: u8)
    ensures
        final(buf)@ == old(buf)@ + seq![v],
{
    buf.push(v);
    assert(buf@ =~= old(buf)@ + seq![v]);
}

/// Appends the two bytes of `v`.
pub fn put_u16(buf: &mut Vec<u8>, v: u16)
    ensures
        final(buf)@ == old(buf)@ + be16(v),
{
    buf.push((v / 256) as u8);
    buf.push((v % 256) as u8);
}

/// Appends the four bytes of `v`.
pub fn put_u32(buf: &mut Vec<u8>, v: u32)
    ensures
        final(buf)@ == old(buf)@ + be32(v),
{
    put_u16(buf, (v / 65536) as u16);
    put_u16(buf, (v % 65536) as u16);
}

/// Appends the eight bytes of `v`.
pub fn put_u64(buf: &mut Vec<u8>, v: u64)
    ensures
        final(buf)@ == old(buf)@ + be64(v),
{
    put_u32(buf, (v / 0x1_0000_0000) as u32);
    put_u32(buf, (v % 0x1_0000_0000) as u32);
}

/// Appends the low three bytes of `v`.
pub fn put_u24(buf: &mut Vec<u8>, v: u32)
    ensures
        final(buf)@ == old(buf)@ + be24(v),
{
    buf.push((v / 65536 % 256) as u8);
    buf.push((v / 256 % 256) as u8);
    buf.push((v % 256) as u8);
}

/// Appends the two bytes of a signed value.
pub fn put_i16(buf: &mut Vec<u8>, v: i16)
    ensures
        final(buf)@ == old(buf)@ + be16i(v),
{
    put_u16(buf, v as u16);
}

/// Appends the four bytes of a signed value.
pub fn put_i32(buf: &mut Vec<u8>, v: i32)
    ensures
        final(buf)@ == old(buf)@ + be32i(v),
{
    put_u32(buf, v as u32);
}

/// Appends the four bytes of `v`, least significant first.
pub fn put_u32_le(buf: &mut Vec<u8>, v: u32)
    ensures
        final(buf)@ == old(buf)@ + le32(v),
{
    buf.push((v % 256) as u8);
    buf.push((v / 256 % 256) as u8);
    buf.push((v / 65536 % 256) as u8);
    buf.push((v / 0x100_0000) as u8);
}

/// Appends `n` zero bytes.
pub fn put_zeros(buf: &mut Vec<u8>, n: usize)
    ensures
        final(buf)@ == old(buf)@ + zeros(n as nat),
{
    let mut i: usize = 0;
    while i < n
        invariant
            i <= n,
            buf@ == old(buf)@ + zeros(i as nat),
        decreases n - i,
    {
        buf.push(0);
        i = i + 1;
        assert(old(buf)@ + zeros(i as nat) =~= (old(buf)@ + zeros((i - 1) as nat)).push(0));
    }
}

/// Appends all of `s`.
pub fn put_slice(buf: &mut Vec<u8>, s: &[u8])
    ensures
        final(buf)@ == old(buf)@ + s@,
{
    buf.extend_from_slice(s);
    assert(buf@ =~= old(buf)@ + s@);
}

/// A vector that holds the bytes of `s`.
pub fn to_vec(s: &[u8]) -> (v: Vec<u8>)
    ensures
        v@ == s@,
{
    let mut v: Vec<u8> = Vec::new();
    put_slice(&mut v, s);
    assert(v@ =~= s@);
    v
}

/// The 16-bit integer at `i`.
pub fn read_u16(s: &[u8], i: usize) -> (v: u16)
    requires
        i + 2 <= s@.len(),
    ensures
        v == get16(s@, i as int),
{
    s[i] as u16 * 256 + s[i + 1] as u16
}

/// The 24-bit integer at `i`.
pub fn read_u24(s: &[u8], i: usize) -> (v: u32)
    requires
        i + 3 <= s@.len(),
    ensures
        v == get24(s@, i as int),
        v < 0x100_0000,
{
    s[i] as u32 * 65536 + s[i + 1] as u32 * 256 + s[i + 2] as u32
}

/// The 32-bit integer at `i`.
pub fn read_u32(s: &[u8], i: usize) -> (v: u32)
    requires
        i + 4 <= s@.len(),
    ensures
        v == get32(s@, i as int),
{
    assert(s@.len() == s.len());
    read_u16(s, i) as u32 * 65536 + read_u16(s, i + 2) as u32
}

/// The 64-bit integer at `i`.
pub fn read_u64(s: &[u8], i: usize) -> (v: u64)
    requires
        i + 8 <= s@.len(),
    ensures
        v == get64(s@, i as int),
{
    assert(s@.len() == s.len());
    read_u32(s, i) as u64 * 0x1_0000_0000 + read_u32(s, i + 4) as u64
}

/// The unsigned integer whose big-endian digits are all of `s`.
pub fn read_uint(s: &[u8]) -> (v: u64)
    requires
        s@.len() <= 8,
    ensures
        v == uint(s@),
{
    let mut v: u64 = 0;
    let mut i: usize = 0;
    while i < s.len()
        invariant
            i <= s@.len() <= 8,
            v == uint(s@.subrange(0, i as int)),
        decreases s@.len() - i,
    {
        proof {
            let p = s@.subrange(0, i as int);
            let q = s@.subrange(0, i + 1);
            assert(q.drop_last() =~= p);
            lemma_uint_bound(p);
            lemma_uint_bound(q);
            lemma_pow256();
            assert(p.len() <= 7);
        }
        v = v * 256 + s[i] as u64;
        i = i + 1;
    }
    assert(s@.subrange(0, i as int) =~= s@);
    v
}

/// Appends the low `n` bytes of `v`.
pub fn put_fixed(buf: &mut Vec<u8>, v: u64, n: usize)
    requires
        n <= 8,
    ensures
        final(buf)@ == old(buf)@ + fixed(v as nat, n as nat),
    decreases n,
{
    if n > 0 {
        put_fixed(buf, v / 256, n - 1);
        buf.push((v % 256) as u8);
        assert(buf@ =~= old(buf)@ + fixed(v as nat, n as nat));
    }
}

/// Whether two byte slices hold the same bytes.
pub fn slice_eq(a: &[u8], b: &[u8]) -> (r: bool)
    ensures
        r == (a@ == b@),
{
    if a.len() != b.len() {
        return false;
    }
    let mut i: usize = 0;
    while i < a.len()
        invariant
            i <= a@.len() == b@.len(),
            forall|k: int| 0 <= k < i ==> a@[k] == b@[k],
        decreases a@.len() - i,
    {
        if a[i] != b[i] {
            return false;
        }
        i = i + 1;
    }
    assert(a@ =~= b@);
    true
}

/// Whether two four-byte codes are the same.
pub fn same4(a: &[u8; 4], b: &[u8; 4]) -> (r: bool)
    ensures
        r == (a@ == b@),
        r == (*a == *b),
{
    let r = a[0] == b[0] && a[1] == b[1] && a[2] == b[2] && a[3] == b[3];
    if r {
        assert(a@ =~= b@);
        assert(*a =~= *b);
    }
    r
}

} // verus!
