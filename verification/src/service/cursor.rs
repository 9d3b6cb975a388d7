//! Opaque page cursors and the request scopes they are bound to.
use vstd::prelude::*;
use vstd::utf8::encode_utf8;

use crate::digest::{hex_decode, hex_encode, hex_decode_spec, hex_lower, sha256, sha256_digest};
use crate::error::{error_view, CodeFactsError, ErrorView};
use crate::json::{json_string, json_string_spec};
use crate::text::{append_chars, chars_of, decimal, decimal_chars, string_from_chars};

verus! {

/// The bytes that identify a request: each part's UTF-8 bytes followed by a
/// NUL byte.
pub open spec fn scope_bytes(parts: Seq<Seq<char>>) -> Seq<u8>
    decreases parts.len(),
{
    if parts.len() == 0 {
        Seq::empty()
    } else {
        scope_bytes(parts.drop_last()) + encode_utf8(parts.last()) + seq![0u8]
    }
}

pub open spec fn strs_view(parts: Seq<&str>) -> Seq<Seq<char>> {
    parts.map_values(|p: &str| p@)
}

/// The scope of a paged request: the SHA-256 of its identifying parts, in
/// lowercase hexadecimal.
pub fn page_scope(parts: &[&str]) -> (r: String)
    ensures
        r@ == hex_lower(sha256(scope_bytes(strs_view(parts@)))),
{
    let mut bytes: Vec<u8> = Vec::new();
    let mut i: usize = 0;
    while i < parts.len()
        invariant
            i <= parts@.len(),
            bytes@ == scope_bytes(strs_view(parts@).take(i as int)),
        decreases parts@.len() - i,
    {
        let part = parts[i].as_bytes();
        let mut j: usize = 0;
        let ghost start = bytes@;
        while j < part.len()
            invariant
                j <= part@.len(),
                bytes@ == start + part@.take(j as int),
            decreases part@.len() - j,
        {
            bytes.push(part[j]);
            j = j + 1;
            assert(bytes@ =~= start + part@.take(j as int));
        }
        bytes.push(0u8);
        proof {
            let t = strs_view(parts@).take(i + 1);
            assert(t.drop_last() =~= strs_view(parts@).take(i as int));
            assert(t.last() == parts@[i as int]@);
            assert(part@.take(part@.len() as int) =~= part@);
            assert(bytes@ =~= scope_bytes(t.drop_last()) + encode_utf8(t.last()) + seq![0u8]);
        }
        i = i + 1;
    }
    assert(strs_view(parts@).take(parts@.len() as int) =~= strs_view(parts@));
    let digest = sha256_digest(bytes.as_slice());
    hex_encode(digest.as_slice())
}

/// Decimal text of a signed integer.
pub open spec fn signed_decimal(n: int) -> Seq<char> {
    if n < 0 {
        seq!['-'] + decimal((-n) as nat)
    } else {
        decimal(n as nat)
    }
}

/// The JSON text of a page cursor, fields in declaration order.
pub open spec fn cursor_json(version: u8, generation: i64, offset: usize, scope: Seq<char>) -> Seq<char> {
    "{\"version\":"@ + decimal(version as nat) + ",\"generation\":"@ + signed_decimal(generation as int)
        + ",\"offset\":"@ + decimal(offset as nat) + ",\"scope\":"@ + json_string_spec(scope) + "}"@
}

/// The opaque cursor of the page that starts at `offset`: the hexadecimal
/// spelling of the cursor's JSON text.
pub fn encode_page_cursor(generation: i64, offset: usize, scope: &str) -> (r: String)
    ensures
        r@ == hex_lower(
            encode_utf8(cursor_json(crate::service::PAGE_CURSOR_VERSION, generation, offset, scope@)),
        ),
{
    let mut text = chars_of("{\"version\":");
    append_chars(&mut text, decimal_chars(crate::service::PAGE_CURSOR_VERSION as u64).as_slice());
    append_chars(&mut text, chars_of(",\"generation\":").as_slice());
    if generation < 0 {
        let magnitude: u64 = (-(generation as i128)) as u64;
        append_chars(&mut text, chars_of("-").as_slice());
        append_chars(&mut text, decimal_chars(magnitude).as_slice());
        proof {
            reveal_strlit("-");
        }
    } else {
        append_chars(&mut text, decimal_chars(generation as u64).as_slice());
    }
    append_chars(&mut text, chars_of(",\"offset\":").as_slice());
    append_chars(&mut text, decimal_chars(offset as u64).as_slice());
    append_chars(&mut text, chars_of(",\"scope\":").as_slice());
    append_chars(&mut text, chars_of(json_string(scope).as_str()).as_slice());
    append_chars(&mut text, chars_of("}").as_slice());
    let json = string_from_chars(text.as_slice());
    assert(json@ =~= cursor_json(crate::service::PAGE_CURSOR_VERSION, generation, offset, scope@));
    hex_encode(json.as_str().as_bytes())
}

/// The JSON text of a cursor of an `expand` section page: a page cursor that
/// also names the semantic snapshot it belongs to (`null` for sections other
/// than the semantic references).
pub open spec fn section_cursor_json(
    version: u8,
    generation: i64,
    offset: usize,
    scope: Seq<char>,
    snapshot: Option<Seq<char>>,
) -> Seq<char> {
    "{\"version\":"@ + decimal(version as nat) + ",\"generation\":"@ + signed_decimal(generation as int)
        + ",\"offset\":"@ + decimal(offset as nat) + ",\"scope\":"@ + json_string_spec(scope)
        + ",\"semantic_snapshot\":"@ + match snapshot {
        Some(h) => json_string_spec(h),
        None => "null"@,
    } + "}"@
}

/// The opaque cursor of an `expand` section page that starts at `offset`.
pub fn encode_section_cursor(generation: i64, offset: usize, scope: &str, snapshot: Option<&str>) -> (r: String)
    ensures
        r@ == hex_lower(
            encode_utf8(
                section_cursor_json(
                    crate::service::PAGE_CURSOR_VERSION,
                    generation,
                    offset,
                    scope@,
                    match snapshot {
                        Some(h) => Some(h@),
                        None => None,
                    },
                ),
            ),
        ),
{
    let mut text = chars_of("{\"version\":");
    append_chars(&mut text, decimal_chars(crate::service::PAGE_CURSOR_VERSION as u64).as_slice());
    append_chars(&mut text, chars_of(",\"generation\":").as_slice());
    if generation < 0 {
        let magnitude: u64 = (-(generation as i128)) as u64;
        append_chars(&mut text, chars_of("-").as_slice());
        append_chars(&mut text, decimal_chars(magnitude).as_slice());
        proof {
            reveal_strlit("-");
        }
    } else {
        append_chars(&mut text, decimal_chars(generation as u64).as_slice());
    }
    append_chars(&mut text, chars_of(",\"offset\":").as_slice());
    append_chars(&mut text, decimal_chars(offset as u64).as_slice());
    append_chars(&mut text, chars_of(",\"scope\":").as_slice());
    append_chars(&mut text, chars_of(json_string(scope).as_str()).as_slice());
    append_chars(&mut text, chars_of(",\"semantic_snapshot\":").as_slice());
    match snapshot {
        Some(h) => append_chars(&mut text, chars_of(json_string(h).as_str()).as_slice()),
        None => append_chars(&mut text, chars_of("null").as_slice()),
    }
    append_chars(&mut text, chars_of("}").as_slice());
    let json = string_from_chars(text.as_slice());
    assert(json@ =~= section_cursor_json(
        crate::service::PAGE_CURSOR_VERSION,
        generation,
        offset,
        scope@,
        match snapshot {
            Some(h) => Some(h@),
            None => None,
        },
    ));
    hex_encode(json.as_str().as_bytes())
}

/// The bytes that an opaque cursor spells; an error when it is not
/// hexadecimal.
pub fn cursor_bytes(cursor: &str) -> (r: Result<Vec<u8>, CodeFactsError>)
    ensures
        match r {
            Ok(v) => hex_decode_spec(encode_utf8(cursor@)) == Some(v@),
            Err(e) => hex_decode_spec(encode_utf8(cursor@)) is None && error_view(e) == ErrorView::Other(
                "cursor is not valid CodeFacts page data"@,
            ),
        },
{
    match hex_decode(cursor) {
        Ok(v) => Ok(v),
        Err(_) => Err(CodeFactsError::Other("cursor is not valid CodeFacts page data".to_owned())),
    }
}

/// The external state file name of a repository: the first 12 bytes of the
/// SHA-256 of its root path, in hexadecimal, with a `.sqlite` extension.
pub fn state_file_name(root: &str) -> (r: String)
    ensures
        r@ == hex_lower(sha256(encode_utf8(root@)).take(12)) + ".sqlite"@,
{
    let digest = sha256_digest(root.as_bytes());
    let mut head: Vec<u8> = Vec::new();
    let mut i: usize = 0;
    while i < 12
        invariant
            i <= 12,
            digest@.len() == 32,
            head@ == digest@.take(i as int),
        decreases 12 - i,
    {
        head.push(digest[i]);
        i = i + 1;
        assert(head@ =~= digest@.take(i as int));
    }
    let mut name = chars_of(hex_encode(head.as_slice()).as_str());
    append_chars(&mut name, chars_of(".sqlite").as_slice());
    string_from_chars(name.as_slice())
}

} // verus!
