//! Hexadecimal text, as the `hex` crate reads and writes it.
use vstd::prelude::*;
use vstd::utf8::{encode_utf8, is_ascii_chars, is_ascii_chars_encode_utf8};

verus! {

/// The lower-case digit for a value in `0..16`.
pub open spec fn hex_digit(n: int) -> char {
    if n < 10 {
        (n + 48) as char
    } else {
        (n + 87) as char
    }
}

/// Lower-case hexadecimal text of `data`: two digits per byte, high nibble first.
pub open spec fn hex_chars(data: Seq<u8>) -> Seq<char> {
    Seq::new(
        (2 * data.len()) as nat,
        |i: int|
            if i % 2 == 0 {
                hex_digit(data[i / 2] as int / 16)
            } else {
                hex_digit(data[i / 2] as int % 16)
            },
    )
}

/// `0-9`, `a-f` or `A-F` as an ASCII byte.
pub open spec fn is_hex_byte(b: u8) -> bool {
    (48 <= b <= 57) || (65 <= b <= 70) || (97 <= b <= 102)
}

/// The value of a hexadecimal digit byte.
pub open spec fn hex_value(b: u8) -> int {
    if b <= 57 {
        b - 48
    } else if b <= 70 {
        b - 55
    } else {
        b - 87
    }
}

/// Text (as bytes) that decodes: an even number of hexadecimal digits, of either case.
pub open spec fn is_hex(s: Seq<u8>) -> bool {
    &&& s.len() % 2 == 0
    &&& forall|i: int| 0 <= i < s.len() ==> #[trigger] is_hex_byte(s[i])
}

/// The bytes that the digit pairs of `s` stand for.
pub open spec fn hex_bytes(s: Seq<u8>) -> Seq<u8> {
    Seq::new(
        s.len() / 2,
        |i: int| (hex_value(s[2 * i]) * 16 + hex_value(s[2 * i + 1])) as u8,
    )
}

/// Lower-case hexadecimal text with an even number of digits, as characters.
pub open spec fn is_lower_hex(s: Seq<char>) -> bool {
    &&& s.len() % 2 == 0
    &&& forall|i: int|
        0 <= i < s.len() ==> ('0' <= #[trigger] s[i] <= '9' || 'a' <= s[i] <= 'f')
}

/// Hexadecimal text of either case with an even number of digits, as characters.
pub open spec fn is_hex_digits(s: Seq<char>) -> bool {
    &&& s.len() % 2 == 0
    &&& forall|i: int|
        0 <= i < s.len() ==> ('0' <= #[trigger] s[i] <= '9' || 'a' <= s[i] <= 'f' || 'A' <= s[i]
            <= 'F')
}

/// `s` with its ASCII upper-case letters made lower-case.
pub open spec fn ascii_lower(s: Seq<char>) -> Seq<char> {
    Seq::new(
        s.len(),
        |i: int|
            if 'A' <= s[i] <= 'Z' {
                ((s[i] as u32) + 32) as char
            } else {
                s[i]
            },
    )
}

/// Text, as characters, that decodes as hexadecimal.
pub open spec fn is_hex_text(s: Seq<char>) -> bool {
    is_hex(encode_utf8(s))
}

/// The bytes that the hexadecimal text `s` stands for.
pub open spec fn hex_text_bytes(s: Seq<char>) -> Seq<u8> {
    hex_bytes(encode_utf8(s))
}

/// Why hexadecimal text does not decode.
#[derive(Debug, Clone, Copy, PartialEq, Eq, Structural)]
pub enum HexError {
    /// A byte that is no hexadecimal digit, and where it stands.
    InvalidHexCharacter { c: char, index: usize },
    /// The text has an odd number of bytes.
    OddLength,
    /// A decoded length does not fit its destination.
    InvalidStringLength,
}

/// `e` is the error that decoding `s` meets first: an odd length, or else the first byte
/// that is no hexadecimal digit.
pub open spec fn is_hex_error(s: Seq<u8>, e: HexError) -> bool {
    match e {
        HexError::OddLength => s.len() % 2 == 1,
        HexError::InvalidHexCharacter { c, index } => {
            &&& s.len() % 2 == 0
            &&& index < s.len()
            &&& !is_hex_byte(s[index as int])
            &&& c == s[index as int] as char
            &&& forall|j: int| 0 <= j < index ==> is_hex_byte(#[trigger] s[j])
        },
        HexError::InvalidStringLength => false,
    }
}

/// `hex::encode`: the lower-case hexadecimal text of `data`, two digits per byte, high
/// nibble first.
#[verifier::external_body]
pub(crate) fn encode_hex(data: &[u8]) -> (res: String)
    ensures
        res@ == hex_chars(data@),
{
    hex::encode(data)
}

/// `hex::decode`: an odd number of bytes is `OddLength`; otherwise the first byte, in
/// order, that is no digit of either case gives `InvalidHexCharacter` with that byte as a
/// character and its index; otherwise the bytes that the digit pairs stand for.
#[verifier::external_body]
pub(crate) fn decode_hex(data: &[u8]) -> (res: Result<Vec<u8>, HexError>)
    ensures
        match res {
            Ok(v) => is_hex(data@) && v@ == hex_bytes(data@),
            Err(e) => is_hex_error(data@, e),
        },
{
    match hex::decode(data) {
        Ok(v) => Ok(v),
        Err(hex::FromHexError::InvalidHexCharacter { c, index }) => Err(
            HexError::InvalidHexCharacter { c, index },
        ),
        Err(hex::FromHexError::OddLength) => Err(HexError::OddLength),
        Err(hex::FromHexError::InvalidStringLength) => Err(HexError::InvalidStringLength),
    }
}

/// Lower-case hexadecimal text is ASCII, so its UTF-8 bytes are its characters.
pub proof fn lemma_lower_hex_bytes(s: Seq<char>)
    requires
        is_lower_hex(s),
    ensures
        encode_utf8(s).len() == s.len(),
        forall|i: int| 0 <= i < s.len() ==> #[trigger] encode_utf8(s)[i] == s[i] as u8,
        is_hex(encode_utf8(s)),
{
    assert(is_ascii_chars(s));
    is_ascii_chars_encode_utf8(s);
    let b = encode_utf8(s);
    assert forall|i: int| 0 <= i < b.len() implies #[trigger] is_hex_byte(b[i]) by {
        assert(s[i] as u8 == b[i]);
    }
}

/// The text that `hex::encode` writes is lower-case hexadecimal.
pub proof fn lemma_hex_chars_lower(data: Seq<u8>)
    ensures
        is_lower_hex(hex_chars(data)),
        hex_chars(data).len() == 2 * data.len(),
{
    let s = hex_chars(data);
    assert forall|i: int| 0 <= i < s.len() implies ('0' <= #[trigger] s[i] <= '9' || 'a' <= s[i]
        <= 'f') by {
        let b = data[i / 2];
        assert(0 <= b / 16 < 16);
        assert(0 <= b % 16 < 16);
    }
}

/// Decoding the text that `hex::encode` writes gives the bytes back.
pub proof fn lemma_hex_decode_encode(data: Seq<u8>)
    ensures
        is_hex_text(hex_chars(data)),
        hex_text_bytes(hex_chars(data)) == data,
{
    let s = hex_chars(data);
    lemma_hex_chars_lower(data);
    lemma_lower_hex_bytes(s);
    let b = encode_utf8(s);
    let d = hex_bytes(b);
    assert forall|i: int| 0 <= i < data.len() implies #[trigger] d[i] == data[i] by {
        let x = data[i];
        assert(b[2 * i] == s[2 * i] as u8);
        assert(b[2 * i + 1] == s[2 * i + 1] as u8);
        assert((2 * i) % 2 == 0 && (2 * i) / 2 == i);
        assert((2 * i + 1) % 2 == 1 && (2 * i + 1) / 2 == i);
        assert(hex_value(b[2 * i]) == x / 16);
        assert(hex_value(b[2 * i + 1]) == x % 16);
        assert(x == (x / 16) * 16 + x % 16);
    }
    assert(d =~= data);
}

/// Encoding the bytes of lower-case hexadecimal text gives the text back.
pub proof fn lemma_hex_encode_decode(s: Seq<char>)
    requires
        is_lower_hex(s),
    ensures
        is_hex_text(s),
        hex_text_bytes(s).len() * 2 == s.len(),
        hex_chars(hex_text_bytes(s)) == s,
{
    lemma_lower_hex_bytes(s);
    let b = encode_utf8(s);
    let d = hex_bytes(b);
    let t = hex_chars(d);
    assert forall|i: int| 0 <= i < s.len() implies #[trigger] t[i] == s[i] by {
        let k = i / 2;
        assert(0 <= k < d.len());
        let hi = hex_value(b[2 * k]);
        let lo = hex_value(b[2 * k + 1]);
        assert(b[2 * k] == s[2 * k] as u8);
        assert(b[2 * k + 1] == s[2 * k + 1] as u8);
        assert(0 <= hi < 16 && 0 <= lo < 16);
        assert(d[k] == hi * 16 + lo);
        assert((hi * 16 + lo) / 16 == hi && (hi * 16 + lo) % 16 == lo);
        if i % 2 == 0 {
            assert(i == 2 * k);
        } else {
            assert(i == 2 * k + 1);
        }
    }
    assert(t =~= s);
}


/// Hexadecimal text of either case decodes, and encoding its bytes gives the text back in
/// lower case.
pub proof fn lemma_hex_text_lowered(s: Seq<char>)
    requires
        is_hex_digits(s),
    ensures
        is_hex_text(s),
        hex_text_bytes(s).len() * 2 == s.len(),
        hex_chars(hex_text_bytes(s)) == ascii_lower(s),
{
    assert(is_ascii_chars(s));
    is_ascii_chars_encode_utf8(s);
    let b = encode_utf8(s);
    assert forall|i: int| 0 <= i < b.len() implies #[trigger] is_hex_byte(b[i]) by {
        assert(s[i] as u8 == b[i]);
    }
    let d = hex_bytes(b);
    let t = hex_chars(d);
    let l = ascii_lower(s);
    assert forall|i: int| 0 <= i < s.len() implies #[trigger] t[i] == l[i] by {
        let k = i / 2;
        assert(0 <= k < d.len());
        let hi = hex_value(b[2 * k]);
        let lo = hex_value(b[2 * k + 1]);
        assert(b[2 * k] == s[2 * k] as u8);
        assert(b[2 * k + 1] == s[2 * k + 1] as u8);
        assert(0 <= hi < 16 && 0 <= lo < 16);
        assert(d[k] == hi * 16 + lo);
        assert((hi * 16 + lo) / 16 == hi && (hi * 16 + lo) % 16 == lo);
        if i % 2 == 0 {
            assert(i == 2 * k);
        } else {
            assert(i == 2 * k + 1);
        }
    }
    assert(t =~= l);
}

} // verus!
