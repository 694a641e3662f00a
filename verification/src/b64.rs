//! Base64 text, as the patch file format and the signature report use it.
//! The encoding itself is done by the base64 crate's standard engine; its
//! result is named `base64_of`, and the decode direction is trusted to
//! invert it.

use vstd::prelude::*;

verus! {

/// The standard base64 rendering (with padding) of a byte string.
pub uninterp spec fn base64_of(data: Seq<u8>) -> Seq<char>;

/// The characters base64 text is made of.
pub open spec fn is_base64_char(c: char) -> bool {
    ('A' <= c && c <= 'Z') || ('a' <= c && c <= 'z') || ('0' <= c && c <= '9') || c == '+' || c
        == '/' || c == '='
}

/// Base64 text, read as bytes.
pub open spec fn base64_bytes_of(data: Seq<u8>) -> Seq<u8> {
    base64_of(data).map_values(|c: char| c as u8)
}

/// Relies on base64's STANDARD engine: `encode` renders any byte string
/// as base64 text over A-Z, a-z, 0-9, '+', '/' with '=' padding to a
/// multiple of four characters.
#[verifier::external_body]
pub(crate) fn b64_encode(data: &[u8]) -> (r: String)
    ensures
        r@ == base64_of(data@),
        r@.len() % 4 == 0,
        forall|i: int| 0 <= i < r@.len() ==> is_base64_char(#[trigger] r@[i]),
{
    base64::Engine::encode(&base64::engine::general_purpose::STANDARD, data)
}

/// Relies on base64's STANDARD engine: `decode` inverts `encode`, so on
/// the rendering of `d` it returns exactly `d`.
#[verifier::external_body]
pub(crate) fn b64_decode(s: &[u8]) -> (r: Option<Vec<u8>>)
    ensures
        forall|d: Seq<u8>| s@ == base64_bytes_of(d) ==> r is Some && r->0@ == d,
{
    base64::Engine::decode(&base64::engine::general_purpose::STANDARD, s).ok()
}

/// Base64 characters are ASCII, so base64 text read as bytes is below 128
/// and its UTF-8 encoding is itself.
pub proof fn lemma_base64_ascii(data: Seq<u8>)
    requires
        forall|i: int| 0 <= i < base64_of(data).len() ==> is_base64_char(#[trigger] base64_of(data)[i]),
    ensures
        forall|i: int| 0 <= i < base64_bytes_of(data).len() ==> #[trigger] base64_bytes_of(
            data,
        )[i] < 128,
        vstd::utf8::encode_utf8(base64_of(data)) == base64_bytes_of(data),
{
    let cs = base64_of(data);
    let bs = base64_bytes_of(data);
    assert forall|i: int| 0 <= i < bs.len() implies #[trigger] bs[i] < 128 by {
        assert(is_base64_char(cs[i]));
        assert(cs[i] <= '\u{7f}');
    }
    assert forall|i: int| 0 <= i < cs.len() implies '\0' <= #[trigger] cs[i] <= '\u{7f}' by {
        assert(is_base64_char(cs[i]));
    }
    vstd::utf8::is_ascii_chars_encode_utf8(cs);
    assert(vstd::utf8::encode_utf8(cs) =~= bs) by {
        assert(forall|i: int| 0 <= i < cs.len() ==> bs[i] == (#[trigger] cs[i]) as u8);
    }
}

} // verus!
