//! Bytes in hexadecimal notation.

use vstd::prelude::*;

verus! {

/// The character of the hexadecimal digit `n`, a lowercase letter from ten on.
pub open spec fn hex_digit(n: int) -> char {
    if n < 10 {
        (n + 48) as char
    } else {
        (n + 87) as char
    }
}

/// The bytes `bytes` in hexadecimal notation: two lowercase digits for each
/// byte, the higher one first, and nothing before or between them.
pub open spec fn hex_text(bytes: Seq<u8>) -> Seq<char> {
    Seq::new(
        2 * bytes.len(),
        |i: int|
            hex_digit(
                if i % 2 == 0 {
                    bytes[i / 2] as int / 16
                } else {
                    bytes[i / 2] as int % 16
                },
            ),
    )
}

/// Whether `c` is a hexadecimal digit, in either case.
pub open spec fn is_hex_digit(c: char) -> bool {
    ('0' <= c && c <= '9') || ('a' <= c && c <= 'f') || ('A' <= c && c <= 'F')
}

/// The number that the hexadecimal digit `c` stands for.
pub open spec fn hex_value(c: char) -> int {
    if '0' <= c && c <= '9' {
        c as int - 48
    } else if 'a' <= c && c <= 'f' {
        c as int - 87
    } else {
        c as int - 55
    }
}

/// Whether every character of `s` is a hexadecimal digit.
pub open spec fn all_hex(s: Seq<char>) -> bool {
    forall|i: int| 0 <= i < s.len() ==> is_hex_digit(#[trigger] s[i])
}

/// The bytes that the hexadecimal digits `s` denote, two digits for each
/// byte, the higher one first.
pub open spec fn bytes_of_hex(s: Seq<char>) -> Seq<u8> {
    Seq::new(
        (s.len() / 2) as nat,
        |i: int| (hex_value(s[2 * i]) * 16 + hex_value(s[2 * i + 1])) as u8,
    )
}

/// The bytes that `text` denotes where it is an even number of hexadecimal
/// digits and nothing else.
pub open spec fn plain_hex(text: Seq<char>) -> Option<Seq<u8>> {
    if text.len() % 2 == 0 && all_hex(text) {
        Some(bytes_of_hex(text))
    } else {
        None
    }
}

/// `text` without the `0x` or `0X` that it may begin with.
pub open spec fn without_prefix(text: Seq<char>) -> Seq<char> {
    if text.len() >= 2 && text[0] == '0' && (text[1] == 'x' || text[1] == 'X') {
        text.skip(2)
    } else {
        text
    }
}

/// The bytes that `text` denotes where it is an even number of characters:
/// hexadecimal digits, after `0x` or `0X` or without such a prefix, and
/// nothing else.
pub open spec fn prefixed_hex(text: Seq<char>) -> Option<Seq<u8>> {
    if text.len() % 2 == 0 && all_hex(without_prefix(text)) {
        Some(bytes_of_hex(without_prefix(text)))
    } else {
        None
    }
}

/// `ethers_core::utils::hex::ToHex::encode_hex` writes every byte as two
/// characters of the table `0123456789abcdef`, first the one for the upper
/// four bits and then the one for the lower four, and collects them in the
/// order of the bytes.
#[verifier::external_body]
#[allow(deprecated)]
pub(crate) fn encode_hex(bytes: &Vec<u8>) -> (text: String)
    ensures
        text@ == hex_text(bytes@),
{
    ethers_core::utils::hex::ToHex::encode_hex(bytes)
}

/// `ethers_core::utils::hex::decode` refuses an input with an odd number of
/// bytes, then drops a leading `0x` or `0X`, refuses what is left unless
/// every byte of it is a hexadecimal digit, and decodes it two digits to the
/// byte. A text of hexadecimal digits and that prefix has as many bytes as
/// characters; any other text holds a byte that is no hexadecimal digit.
#[verifier::external_body]
pub(crate) fn decode_prefixed_hex(text: &str) -> (bytes: Option<Vec<u8>>)
    ensures
        bytes is Some <==> prefixed_hex(text@) is Some,
        bytes matches Some(decoded) ==> decoded@ == prefixed_hex(text@)->0,
{
    ethers_core::utils::hex::decode(text).ok()
}

/// `hex::decode` refuses an input with an odd number of bytes, refuses it
/// unless every byte is a hexadecimal digit, and decodes it two digits to
/// the byte. A text of hexadecimal digits has as many bytes as characters;
/// any other text holds a byte that is no hexadecimal digit.
#[verifier::external_body]
pub(crate) fn decode_plain_hex(text: &str) -> (bytes: Option<Vec<u8>>)
    ensures
        bytes is Some <==> plain_hex(text@) is Some,
        bytes matches Some(decoded) ==> decoded@ == plain_hex(text@)->0,
{
    ::hex::decode(text).ok()
}

/// What was written in hexadecimal notation is read back as it was, with a
/// prefix allowed or not.
pub proof fn lemma_hex_round_trip(bytes: Seq<u8>)
    ensures
        plain_hex(hex_text(bytes)) == Some(bytes),
        prefixed_hex(hex_text(bytes)) == Some(bytes),
{
    let text = hex_text(bytes);
    assert(all_hex(text));
    assert(without_prefix(text) == text) by {
        if text.len() >= 2 {
            assert(text[1] == hex_digit(bytes[0] as int % 16));
        }
    }
    assert(bytes_of_hex(text) =~= bytes) by {
        assert forall|i: int| 0 <= i < bytes.len() implies bytes_of_hex(text)[i] == bytes[i] by {
            let hi = bytes[i] as int / 16;
            let lo = bytes[i] as int % 16;
            assert(text[2 * i] == hex_digit(hi));
            assert(text[2 * i + 1] == hex_digit(lo));
            assert(hex_value(hex_digit(hi)) == hi);
            assert(hex_value(hex_digit(lo)) == lo);
        }
    }
}

} // verus!
