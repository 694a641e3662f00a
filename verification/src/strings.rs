//! The bridge between byte sequences and `String` values: UTF-8 facts,
//! an ASCII view of byte sequences, and the one trusted conversion from
//! bytes back to a `String`.

use vstd::prelude::*;
use vstd::utf8::{decode_utf8, encode_utf8, is_ascii_chars};

verus! {

/// Relies on String::from_utf8: it accepts exactly the valid UTF-8 byte
/// vectors and wraps the given bytes unchanged.
#[verifier::external_body]
pub(crate) fn string_from_utf8(v: Vec<u8>) -> (r: Option<String>)
    ensures
        r is Some ==> encode_utf8(r->0@) == v@,
        vstd::utf8::valid_utf8(v@) ==> r is Some,
{
    String::from_utf8(v).ok()
}

/// Two character sequences with the same UTF-8 encoding are the same.
pub proof fn lemma_encode_utf8_injective(a: Seq<char>, b: Seq<char>)
    requires
        encode_utf8(a) == encode_utf8(b),
    ensures
        a == b,
{
    broadcast use vstd::utf8::encode_utf8_decode_utf8;

    assert(a == decode_utf8(encode_utf8(a)));
    assert(b == decode_utf8(encode_utf8(b)));
}

/// UTF-8 encoding distributes over concatenation.
pub proof fn lemma_encode_utf8_concat(a: Seq<char>, b: Seq<char>)
    ensures
        encode_utf8(a + b) == encode_utf8(a) + encode_utf8(b),
    decreases a.len(),
{
    if a.len() == 0 {
        assert(a + b =~= b);
        assert(encode_utf8(a) + encode_utf8(b) =~= encode_utf8(b));
    } else {
        assert((a + b)[0] == a[0]);
        assert((a + b).drop_first() =~= a.drop_first() + b);
        lemma_encode_utf8_concat(a.drop_first(), b);
        assert(encode_utf8(a + b) =~= encode_utf8(a) + encode_utf8(b));
    }
}

/// Each byte read as one character; meaningful for ASCII bytes.
pub open spec fn ascii_chars_of(b: Seq<u8>) -> Seq<char> {
    b.map_values(|x: u8| x as char)
}

/// A sequence of bytes below 128, read as characters, is ASCII text whose
/// UTF-8 encoding is the byte sequence itself.
pub proof fn lemma_ascii_bytes(b: Seq<u8>)
    requires
        forall|i: int| 0 <= i < b.len() ==> b[i] < 128,
    ensures
        is_ascii_chars(ascii_chars_of(b)),
        encode_utf8(ascii_chars_of(b)) == b,
        vstd::utf8::valid_utf8(b),
{
    let cs = ascii_chars_of(b);
    assert forall|i: int| 0 <= i < cs.len() implies '\0' <= #[trigger] cs[i] <= '\u{7f}' by {
        assert(b[i] < 128);
        assert(cs[i] == b[i] as char);
    }
    vstd::utf8::is_ascii_chars_encode_utf8(cs);
    assert(encode_utf8(cs) =~= b) by {
        assert(forall|i: int| 0 <= i < b.len() ==> cs[i] == b[i] as char);
    }
    broadcast use vstd::utf8::encode_utf8_valid_utf8;

    assert(vstd::utf8::valid_utf8(encode_utf8(cs)));
}

/// Build a `String` from ASCII bytes; the string's characters are the
/// bytes, read one for one.
pub fn string_from_ascii(v: Vec<u8>) -> (r: String)
    requires
        forall|i: int| 0 <= i < v@.len() ==> v@[i] < 128,
    ensures
        r@ == ascii_chars_of(v@),
        encode_utf8(r@) == v@,
{
    let ghost bytes = v@;
    proof {
        lemma_ascii_bytes(bytes);
    }
    let s = string_from_utf8(v);
    match s {
        Option::Some(r) => {
            proof {
                lemma_encode_utf8_injective(r@, ascii_chars_of(bytes));
            }
            r
        },
        Option::None => {
            proof {
                assert(false);
            }
            vstd::pervasive::unreached()
        },
    }
}

} // verus!
