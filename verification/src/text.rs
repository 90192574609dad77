//! Text held in byte strings.

use vstd::prelude::*;
use vstd::string::*;
use vstd::utf8::*;

verus! {

/// `std::str::from_utf8`: the text whose UTF-8 encoding is `bytes`, if `bytes`
/// is valid UTF-8, and an error otherwise.
#[verifier::external_body]
pub(crate) fn from_utf8(bytes: &[u8]) -> (r: Result<&str, ()>)
    ensures
        valid_utf8(bytes@) ==> r is Ok && r->Ok_0@ == decode_utf8(bytes@),
        !valid_utf8(bytes@) ==> r is Err,
{
    std::str::from_utf8(bytes).map_err(|_| ())
}

/// The characters of an optional text.
pub open spec fn opt_chars(t: Option<String>) -> Option<Seq<char>> {
    match t {
        None => None,
        Some(s) => Some(s@),
    }
}

/// Whether two pieces of text are the same.
pub fn same_text(a: &str, b: &str) -> (r: bool)
    ensures
        r == (a@ == b@),
{
    broadcast use encode_utf8_decode_utf8;

    let r = crate::bytes::slice_eq(a.as_bytes(), b.as_bytes());
    proof {
        assert(a.spec_bytes() == encode_utf8(a@));
        assert(b.spec_bytes() == encode_utf8(b@));
        assert(decode_utf8(encode_utf8(a@)) == a@);
        assert(decode_utf8(encode_utf8(b@)) == b@);
    }
    r
}

/// A decimal digit.
pub open spec fn digit(n: int) -> char {
    ((0x30 + n) as u8) as char
}

/// The decimal digits of `n`.
pub open spec fn decimal(n: nat) -> Seq<char>
    decreases n,
{
    if n < 10 {
        seq![digit(n as int)]
    } else {
        decimal(n / 10).push(digit((n % 10) as int))
    }
}

/// A hexadecimal digit, in upper case.
pub open spec fn hex_digit(n: int) -> char {
    if n < 10 {
        digit(n)
    } else {
        ((0x37 + n) as u8) as char
    }
}

/// The lowest `n` hexadecimal digits of `v`.
pub open spec fn hex(v: nat, n: nat) -> Seq<char>
    decreases n,
{
    if n == 0 {
        Seq::empty()
    } else {
        hex(v / 16, (n - 1) as nat).push(hex_digit((v % 16) as int))
    }
}

/// The hexadecimal digits of `v`, without leading zeros.
pub open spec fn short_hex(v: nat) -> Seq<char>
    decreases v,
{
    if v < 16 {
        seq![hex_digit(v as int)]
    } else {
        short_hex(v / 16).push(hex_digit((v % 16) as int))
    }
}

/// A hexadecimal digit.
fn digit_text(n: u8) -> (r: &'static str)
    requires
        n < 16,
    ensures
        r@ == seq![hex_digit(n as int)],
{
    let r: &'static str = if n == 0 {
        "0"
    } else if n == 1 {
        "1"
    } else if n == 2 {
        "2"
    } else if n == 3 {
        "3"
    } else if n == 4 {
        "4"
    } else if n == 5 {
        "5"
    } else if n == 6 {
        "6"
    } else if n == 7 {
        "7"
    } else if n == 8 {
        "8"
    } else if n == 9 {
        "9"
    } else if n == 10 {
        "A"
    } else if n == 11 {
        "B"
    } else if n == 12 {
        "C"
    } else if n == 13 {
        "D"
    } else if n == 14 {
        "E"
    } else {
        "F"
    };
    proof {
        reveal_strlit("0");
        reveal_strlit("1");
        reveal_strlit("2");
        reveal_strlit("3");
        reveal_strlit("4");
        reveal_strlit("5");
        reveal_strlit("6");
        reveal_strlit("7");
        reveal_strlit("8");
        reveal_strlit("9");
        reveal_strlit("A");
        reveal_strlit("B");
        reveal_strlit("C");
        reveal_strlit("D");
        reveal_strlit("E");
        reveal_strlit("F");
        assert(r@ =~= seq![hex_digit(n as int)]);
    }
    r
}

/// Appends the decimal digits of `n`.
pub fn put_decimal(s: &mut String, n: u64)
    ensures
        final(s)@ == old(s)@ + decimal(n as nat),
    decreases n,
{
    if n >= 10 {
        put_decimal(s, n / 10);
    }
    s.append(digit_text((n % 10) as u8));
    assert(s@ =~= old(s)@ + decimal(n as nat));
}

/// Appends the lowest `n` hexadecimal digits of `v`.
pub fn put_hex(s: &mut String, v: u64, n: u32)
    ensures
        final(s)@ == old(s)@ + hex(v as nat, n as nat),
    decreases n,
{
    if n > 0 {
        put_hex(s, v / 16, n - 1);
        s.append(digit_text((v % 16) as u8));
    }
    assert(s@ =~= old(s)@ + hex(v as nat, n as nat));
}

/// Appends the hexadecimal digits of `v`, without leading zeros.
pub fn put_short_hex(s: &mut String, v: u64)
    ensures
        final(s)@ == old(s)@ + short_hex(v as nat),
    decreases v,
{
    if v >= 16 {
        put_short_hex(s, v / 16);
    }
    s.append(digit_text((v % 16) as u8));
    assert(s@ =~= old(s)@ + short_hex(v as nat));
}

/// The characters with these codes.
pub open spec fn ascii_text(b: Seq<u8>) -> Seq<char> {
    Seq::new(b.len(), |i: int| b[i] as char)
}

/// The text of ASCII bytes.
pub fn ascii_string(b: &[u8]) -> (r: String)
    requires
        forall|i: int| 0 <= i < b@.len() ==> #[trigger] b@[i] < 0x80,
    ensures
        r@ == ascii_text(b@),
{
    broadcast use {is_ascii_chars_encode_utf8, encode_utf8_valid_utf8, encode_utf8_decode_utf8};

    let ghost c = ascii_text(b@);
    proof {
        assert forall|i: int| 0 <= i < c.len() implies '\0' <= #[trigger] c[i] <= '\u{7f}' by {
            assert(b@[i] < 0x80);
        }
        assert(is_ascii_chars(c));
        assert forall|i: int| 0 <= i < c.len() implies #[trigger] encode_utf8(c)[i] == b@[i] by {
            assert(c[i] as u8 == encode_utf8(c)[i]);
        }
        assert(encode_utf8(c) =~= b@);
    }
    match from_utf8(b) {
        Ok(s) => s.to_owned(),
        Err(_) => String::new(),
    }
}

/// What `format!("{:?}", s)` makes of a text: the text in quotes, with characters that
/// would not show escaped.
pub uninterp spec fn debug_text(s: Seq<char>) -> Seq<char>;

/// `format!` with a text's `Debug`: what comes out depends on the text alone.
#[verifier::external_body]
pub(crate) fn debug_string(s: &str) -> (r: String)
    ensures
        r@ == debug_text(s@),
{
    format!("{:?}", s)
}

/// The text of bytes that should be UTF-8, and a question mark if they are not.
pub open spec fn text_or_mark(b: Seq<u8>) -> Seq<char> {
    if valid_utf8(b) {
        decode_utf8(b)
    } else {
        "?"@
    }
}

/// [`text_or_mark`] as it is shown to a programmer.
pub fn debug_code(b: &[u8]) -> (r: String)
    ensures
        r@ == debug_text(text_or_mark(b@)),
{
    match from_utf8(b) {
        Ok(s) => debug_string(s),
        Err(_) => debug_string("?"),
    }
}

/// Four bytes as a programmer writes them.
pub open spec fn array_text(b: Seq<u8>) -> Seq<char> {
    "["@ + decimal(b[0] as nat) + ", "@ + decimal(b[1] as nat) + ", "@ + decimal(b[2] as nat)
        + ", "@ + decimal(b[3] as nat) + "]"@
}

/// Appends four bytes as a programmer writes them.
pub fn put_array(s: &mut String, b: &[u8; 4])
    ensures
        final(s)@ == old(s)@ + array_text(b@),
{
    s.append("[");
    put_decimal(s, b[0] as u64);
    s.append(", ");
    put_decimal(s, b[1] as u64);
    s.append(", ");
    put_decimal(s, b[2] as u64);
    s.append(", ");
    put_decimal(s, b[3] as u64);
    s.append("]");
    assert(s@ =~= old(s)@ + array_text(b@));
}

/// Appends the decimal digits of a number that may take more than 64 bits.
pub fn put_wide(s: &mut String, n: u128)
    ensures
        final(s)@ == old(s)@ + decimal(n as nat),
    decreases n,
{
    if n >= 10 {
        put_wide(s, n / 10);
    }
    s.append(digit_text((n % 10) as u8));
    assert(s@ =~= old(s)@ + decimal(n as nat));
}

/// What `String::from_utf8_lossy` makes of bytes: their text, with a replacement
/// character for each part that is no UTF-8.
pub uninterp spec fn lossy_text(b: Seq<u8>) -> Seq<char>;

/// `String::from_utf8_lossy`: what comes out depends on the bytes alone, and is their
/// text if they are UTF-8.
#[verifier::external_body]
pub(crate) fn lossy_string(b: &[u8]) -> (r: String)
    ensures
        r@ == lossy_text(b@),
        valid_utf8(b@) ==> r@ == decode_utf8(b@),
{
    String::from_utf8_lossy(b).into_owned()
}

} // verus!
