//! Text renderings that feed the digest: decimal numbers and lowercase
//! hexadecimal strings.

use vstd::prelude::*;
use vstd::utf8::*;

verus! {

/// The ASCII code of the decimal digit `d`.
pub open spec fn digit_byte(d: nat) -> u8
    recommends
        d < 10,
{
    (48 + d) as u8
}

/// The decimal rendering of `n` in ASCII, most significant digit first,
/// without leading zeros (`0` is rendered as the single digit `"0"`).
pub open spec fn decimal_digits(n: nat) -> Seq<u8>
    decreases n,
{
    if n < 10 {
        seq![digit_byte(n)]
    } else {
        decimal_digits(n / 10).push(digit_byte(n % 10))
    }
}

/// The number that a sequence of ASCII decimal digits denotes.
pub open spec fn digits_value(digits: Seq<u8>) -> nat
    decreases digits.len(),
{
    if digits.len() == 0 {
        0
    } else {
        (digits_value(digits.drop_last()) * 10 + (digits.last() - 48)) as nat
    }
}

/// Reading a decimal rendering gives the number back.
pub proof fn lemma_decimal_value(n: nat)
    ensures
        digits_value(decimal_digits(n)) == n,
        decimal_digits(n).len() >= 1,
    decreases n,
{
    if n < 10 {
        let s = seq![digit_byte(n)];
        assert(s.drop_last() =~= Seq::<u8>::empty());
        assert(digits_value(s.drop_last()) == 0);
        assert(s.last() == digit_byte(n));
    } else {
        lemma_decimal_value(n / 10);
        let s = decimal_digits(n / 10).push(digit_byte(n % 10));
        assert(s.drop_last() =~= decimal_digits(n / 10));
        assert(s.last() == digit_byte(n % 10));
    }
}

/// Two numbers with the same decimal rendering are the same number.
pub proof fn lemma_decimal_injective(a: nat, b: nat)
    requires
        decimal_digits(a) == decimal_digits(b),
    ensures
        a == b,
{
    lemma_decimal_value(a);
    lemma_decimal_value(b);
}

/// Appends the decimal rendering of `n` to `out`.
pub fn push_decimal(out: &mut Vec<u8>, n: u128)
    ensures
        final(out)@ == old(out)@ + decimal_digits(n as nat),
    decreases n,
{
    if n >= 10 {
        push_decimal(out, n / 10);
    }
    let d: u8 = (n % 10) as u8;
    out.push(48 + d);
    assert(out@ =~= old(out)@ + decimal_digits(n as nat));
}

/// The decimal rendering of `n`.
pub fn decimal(n: u128) -> (out: Vec<u8>)
    ensures
        out@ == decimal_digits(n as nat),
{
    let mut out: Vec<u8> = Vec::new();
    push_decimal(&mut out, n);
    assert(out@ =~= decimal_digits(n as nat));
    out
}

/// Appends the bytes of `src` to `out`.
pub fn push_bytes(out: &mut Vec<u8>, src: &[u8])
    ensures
        final(out)@ == old(out)@ + src@,
{
    let mut i: usize = 0;
    while i < src.len()
        invariant
            i <= src@.len(),
            out@ == old(out)@ + src@.subrange(0, i as int),
        decreases src@.len() - i,
    {
        out.push(src[i]);
        i = i + 1;
        assert(out@ =~= old(out)@ + src@.subrange(0, i as int));
    }
    assert(src@.subrange(0, i as int) =~= src@);
}

/// The lowercase hexadecimal digit for a value below 16.
pub open spec fn hex_digit(v: nat) -> char
    recommends
        v < 16,
{
    if v < 10 {
        ((48 + v) as u8) as char
    } else {
        ((87 + v) as u8) as char
    }
}

/// The lowercase hexadecimal rendering of `bytes`: two digits for each byte,
/// the high half first.
pub open spec fn hex_string(bytes: Seq<u8>) -> Seq<char> {
    Seq::new(
        2 * bytes.len(),
        |i: int|
            hex_digit(
                if i % 2 == 0 {
                    bytes[i / 2] as nat / 16
                } else {
                    bytes[i / 2] as nat % 16
                },
            ),
    )
}

/// True when every character of `text` is a decimal digit or a letter from
/// `a` to `f`.
pub open spec fn is_lower_hex(text: Seq<char>) -> bool {
    forall|i: int|
        0 <= i < text.len() ==> ('0' <= #[trigger] text[i] <= '9' || 'a' <= text[i] <= 'f')
}

/// A hexadecimal rendering has two characters for each byte, all of them
/// lowercase hexadecimal digits, and so it is ASCII.
pub proof fn lemma_hex_string_shape(bytes: Seq<u8>)
    ensures
        hex_string(bytes).len() == 2 * bytes.len(),
        is_lower_hex(hex_string(bytes)),
        is_ascii_chars(hex_string(bytes)),
{
    let text = hex_string(bytes);
    assert forall|i: int| 0 <= i < text.len() implies ('0' <= #[trigger] text[i] <= '9' || 'a'
        <= text[i] <= 'f') && '\0' <= text[i] <= '\u{7f}' by {
        let b = bytes[i / 2] as nat;
        assert(b / 16 < 16 && b % 16 < 16);
    }
}

/// Two byte sequences with the same hexadecimal rendering are the same.
pub proof fn lemma_hex_string_injective(a: Seq<u8>, b: Seq<u8>)
    requires
        hex_string(a) == hex_string(b),
    ensures
        a == b,
{
    assert(hex_string(a).len() == 2 * a.len());
    assert(hex_string(b).len() == 2 * b.len());
    assert(a.len() == b.len());
    assert forall|k: int| 0 <= k < a.len() implies a[k] == b[k] by {
        let x = a[k] as nat;
        let y = b[k] as nat;
        assert(hex_string(a)[2 * k] == hex_digit(x / 16));
        assert(hex_string(b)[2 * k] == hex_digit(y / 16));
        assert(hex_string(a)[2 * k + 1] == hex_digit(x % 16));
        assert(hex_string(b)[2 * k + 1] == hex_digit(y % 16));
        assert(x / 16 < 16 && y / 16 < 16 && x % 16 < 16 && y % 16 < 16);
        assert(hex_digit(x / 16) == hex_digit(y / 16) ==> x / 16 == y / 16);
        assert(hex_digit(x % 16) == hex_digit(y % 16) ==> x % 16 == y % 16);
    }
    assert(a =~= b);
}

/// Two texts with the same UTF-8 encoding are the same text.
pub proof fn lemma_utf8_injective(a: Seq<char>, b: Seq<char>)
    requires
        encode_utf8(a) == encode_utf8(b),
    ensures
        a == b,
{
    encode_utf8_decode_utf8(a);
    encode_utf8_decode_utf8(b);
}

/// `String::from_utf8` of the standard library: the text that `bytes` encode
/// in UTF-8, or `None` when they are not a UTF-8 encoding of any text.
#[verifier::external_body]
pub(crate) fn string_from_utf8(bytes: Vec<u8>) -> (text: Option<String>)
    ensures
        text is Some <==> valid_utf8(bytes@),
        text is Some ==> text->0@ == decode_utf8(bytes@),
{
    match String::from_utf8(bytes) {
        Ok(text) => Some(text),
        Err(_) => None,
    }
}

/// The ASCII code of the hexadecimal digit for `v`.
fn hex_digit_byte(v: u8) -> (b: u8)
    requires
        v < 16,
    ensures
        b < 128,
        b as char == hex_digit(v as nat),
{
    if v < 10 {
        48 + v
    } else {
        87 + v
    }
}

/// The lowercase hexadecimal rendering of `bytes`.
pub fn to_hex(bytes: &[u8]) -> (text: String)
    ensures
        text@ == hex_string(bytes@),
{
    let mut ascii: Vec<u8> = Vec::new();
    let mut i: usize = 0;
    while i < bytes.len()
        invariant
            i <= bytes@.len(),
            ascii@.len() == 2 * i,
            forall|k: int| 0 <= k < ascii@.len() ==> #[trigger] ascii@[k] < 128,
            forall|k: int|
                0 <= k < ascii@.len() ==> #[trigger] ascii@[k] as char == hex_string(bytes@)[k],
        decreases bytes@.len() - i,
    {
        let b: u8 = bytes[i];
        ascii.push(hex_digit_byte(b / 16));
        ascii.push(hex_digit_byte(b % 16));
        i = i + 1;
    }
    proof {
        let chars = hex_string(bytes@);
        lemma_hex_string_shape(bytes@);
        is_ascii_chars_encode_utf8(chars);
        assert(ascii@ =~= encode_utf8(chars)) by {
            assert forall|k: int| 0 <= k < ascii@.len() implies ascii@[k] == encode_utf8(
                chars,
            )[k] by {
                assert(ascii@[k] as char == chars[k]);
                assert(chars[k] as u8 == encode_utf8(chars)[k]);
            }
        }
        encode_utf8_valid_utf8(chars);
        encode_utf8_decode_utf8(chars);
    }
    match string_from_utf8(ascii) {
        Some(text) => text,
        None => {
            // Hexadecimal digits are ASCII, and ASCII is UTF-8.
            assert(false);
            String::new()
        },
    }
}

} // verus!
