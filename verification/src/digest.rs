//! SHA-256 digests and their hexadecimal spelling.
use sha2::{Digest, Sha256};
use vstd::prelude::*;
use vstd::utf8::{encode_utf8, is_ascii_chars, is_ascii_chars_encode_utf8};

verus! {

/// The SHA-256 digest of a byte string.
pub uninterp spec fn sha256(data: Seq<u8>) -> Seq<u8>;

/// Calls `sha2::Sha256::digest`: the SHA-256 digest of `data`, 32 bytes.
#[verifier::external_body]
pub(crate) fn sha256_digest(data: &[u8]) -> (r: Vec<u8>)
    ensures
        r@ == sha256(data@),
        r@.len() == 32,
{
    Sha256::digest(data).to_vec()
}

/// The lowercase hexadecimal digit of a value below 16.
pub open spec fn hex_digit(v: u8) -> char {
    if v < 10 {
        (('0' as u8) + v) as char
    } else {
        (('a' as u8) + v - 10) as char
    }
}

/// Two lowercase hexadecimal digits per byte, high nibble first.
pub open spec fn hex_lower(data: Seq<u8>) -> Seq<char>
    decreases data.len(),
{
    if data.len() == 0 {
        Seq::empty()
    } else {
        let b = data.last();
        hex_lower(data.drop_last()) + seq![hex_digit(b / 16), hex_digit(b % 16)]
    }
}

/// Calls `hex::encode`, which spells each byte as two lowercase
/// hexadecimal digits.
#[verifier::external_body]
pub(crate) fn hex_encode(data: &[u8]) -> (r: String)
    ensures
        r@ == hex_lower(data@),
{
    hex::encode(data)
}

/// Value of one hexadecimal digit byte, in either case.
pub open spec fn hex_digit_value(b: u8) -> Option<u8> {
    if 48 <= b <= 57 {
        Some((b - 48) as u8)
    } else if 65 <= b <= 70 {
        Some((b - 55) as u8)
    } else if 97 <= b <= 102 {
        Some((b - 87) as u8)
    } else {
        None
    }
}

/// The bytes that a hexadecimal text spells: an even number of digits,
/// each pair high nibble first.
pub open spec fn hex_decode_spec(text: Seq<u8>) -> Option<Seq<u8>>
    decreases text.len(),
{
    if text.len() % 2 != 0 {
        None
    } else if text.len() == 0 {
        Some(Seq::empty())
    } else {
        let n = text.len() as int;
        match (hex_decode_spec(text.take(n - 2)), hex_digit_value(text[n - 2]), hex_digit_value(
            text[n - 1],
        )) {
            (Some(p), Some(h), Some(l)) => Some(p.push((h * 16 + l) as u8)),
            _ => None,
        }
    }
}

#[verifier::external_type_specification]
#[verifier::external_body]
pub struct ExFromHexError(hex::FromHexError);

/// Calls `hex::decode`: the bytes that the text spells, or an error for an
/// odd length or a byte that is not a hexadecimal digit.
#[verifier::external_body]
pub(crate) fn hex_decode(text: &str) -> (r: Result<Vec<u8>, hex::FromHexError>)
    ensures
        match r {
            Ok(v) => hex_decode_spec(encode_utf8(text@)) == Some(v@),
            Err(_) => hex_decode_spec(encode_utf8(text@)) is None,
        },
{
    hex::decode(text)
}

/// A hexadecimal spelling has two digits per byte.
pub proof fn lemma_hex_lower_len(data: Seq<u8>)
    ensures
        hex_lower(data).len() == 2 * data.len(),
    decreases data.len(),
{
    if data.len() > 0 {
        lemma_hex_lower_len(data.drop_last());
    }
}

/// The ASCII byte of a lowercase hexadecimal digit.
pub open spec fn hex_byte(v: u8) -> u8 {
    if v < 10 {
        (48 + v) as u8
    } else {
        (87 + v) as u8
    }
}

/// The bytes of the lowercase hexadecimal spelling of `data`.
pub open spec fn hex_ascii(data: Seq<u8>) -> Seq<u8>
    decreases data.len(),
{
    if data.len() == 0 {
        Seq::empty()
    } else {
        let b = data.last();
        hex_ascii(data.drop_last()) + seq![hex_byte(b / 16), hex_byte(b % 16)]
    }
}

proof fn lemma_hex_spelling_is_ascii(data: Seq<u8>)
    ensures
        hex_lower(data).len() == hex_ascii(data).len(),
        forall|i: int|
            0 <= i < hex_lower(data).len() ==> '\0' <= #[trigger] hex_lower(data)[i] <= '\u{7f}' && hex_lower(
                data,
            )[i] as u8 == hex_ascii(data)[i],
    decreases data.len(),
{
    if data.len() > 0 {
        lemma_hex_spelling_is_ascii(data.drop_last());
        let b = data.last();
        let hi = b / 16;
        let lo = b % 16;
        assert(hex_digit(hi) as u8 == hex_byte(hi));
        assert(hex_digit(lo) as u8 == hex_byte(lo));
        let prev = hex_lower(data.drop_last());
        let prev_bytes = hex_ascii(data.drop_last());
        assert forall|i: int| 0 <= i < hex_lower(data).len() implies '\0' <= #[trigger] hex_lower(data)[i] <= '\u{7f}'
            && hex_lower(data)[i] as u8 == hex_ascii(data)[i] by {
            if i < prev.len() {
                assert(hex_lower(data)[i] == prev[i]);
                assert(hex_ascii(data)[i] == prev_bytes[i]);
            }
        }
    }
}

/// The UTF-8 bytes of a hexadecimal spelling are its ASCII digits.
pub proof fn lemma_hex_lower_bytes(data: Seq<u8>)
    ensures
        encode_utf8(hex_lower(data)) == hex_ascii(data),
{
    lemma_hex_spelling_is_ascii(data);
    let chars = hex_lower(data);
    assert(is_ascii_chars(chars));
    is_ascii_chars_encode_utf8(chars);
    assert(encode_utf8(chars) =~= hex_ascii(data));
}

/// Decoding the ASCII hexadecimal spelling of `data` gives `data` back.
pub proof fn lemma_hex_ascii_decodes(data: Seq<u8>)
    ensures
        hex_ascii(data).len() == 2 * data.len(),
        hex_decode_spec(hex_ascii(data)) == Some(data),
    decreases data.len(),
{
    if data.len() > 0 {
        let d = data.drop_last();
        lemma_hex_ascii_decodes(d);
        let t = hex_ascii(data);
        let n = t.len() as int;
        assert(t.take(n - 2) =~= hex_ascii(d));
        let b = data.last();
        assert(hex_digit_value(t[n - 2]) == Some(b / 16));
        assert(hex_digit_value(t[n - 1]) == Some(b % 16));
        assert(((b / 16) * 16 + b % 16) as u8 == b);
        assert(d.push(b) =~= data);
    }
}

} // verus!
