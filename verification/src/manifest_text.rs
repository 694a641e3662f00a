//! The manifest's serialized form: compact JSON with a fixed key order.
//! Writing is specified byte for byte; reading is verified to invert
//! writing, so a manifest read back from an extracted payload equals the
//! manifest that was assembled.

use vstd::prelude::*;
use vstd::utf8::encode_utf8;
use crate::numtext::hex_digit;
use crate::manifest::{Manifest, ManifestV, TargetEntry, TargetEntryV, targets_view};
use crate::platform::{arch_name_spec, platform_name_spec};
use crate::strings::{lemma_ascii_bytes, lemma_encode_utf8_injective, string_from_utf8};
use vstd::string::StrSliceExecFns;
use vstd::string::StringSliceAdditionalSpecFns;

verus! {

/// One content byte of a JSON string: quote and backslash are escaped,
/// control bytes take the four-digit escape, all else stands verbatim.
pub open spec fn esc_byte(b: u8) -> Seq<u8> {
    if b == 34 {
        seq![92u8, 34u8]
    } else if b == 92 {
        seq![92u8, 92u8]
    } else if b < 32 {
        seq![92u8, 117u8, 48u8, 48u8, hex_digit(b / 16), hex_digit(b % 16)]
    } else {
        seq![b]
    }
}

/// A byte string escaped for a JSON string body.
pub open spec fn esc_bytes(s: Seq<u8>) -> Seq<u8>
    decreases s.len(),
{
    if s.len() == 0 {
        Seq::empty()
    } else {
        esc_byte(s[0]) + esc_bytes(s.drop_first())
    }
}

pub proof fn lemma_esc_bytes_snoc(s: Seq<u8>, b: u8)
    ensures
        esc_bytes(s.push(b)) == esc_bytes(s) + esc_byte(b),
    decreases s.len(),
{
    if s.len() == 0 {
        assert(s.push(b)[0] == b);
        assert(s.push(b).drop_first() =~= Seq::<u8>::empty());
        assert(esc_bytes(Seq::<u8>::empty()) =~= Seq::<u8>::empty());
        assert(esc_bytes(s.push(b)) =~= esc_byte(b));
        assert(esc_bytes(s) + esc_byte(b) =~= esc_byte(b));
    } else {
        assert(s.push(b)[0] == s[0]);
        assert(s.push(b).drop_first() =~= s.drop_first().push(b));
        lemma_esc_bytes_snoc(s.drop_first(), b);
        assert(esc_bytes(s.push(b)) =~= esc_bytes(s) + esc_byte(b));
    }
}

/// The serialized form of a text value.
pub open spec fn jstr(s: Seq<char>) -> Seq<u8> {
    seq![34u8] + esc_bytes(encode_utf8(s)) + seq![34u8]
}

/// Append one escaped content byte.
fn push_esc_byte(out: &mut Vec<u8>, b: u8)
    ensures
        final(out)@ == old(out)@ + esc_byte(b),
{
    if b == 34 {
        out.push(92);
        out.push(34);
    } else if b == 92 {
        out.push(92);
        out.push(92);
    } else if b < 32 {
        out.push(92);
        out.push(117);
        out.push(48);
        out.push(48);
        let hi = b / 16;
        let lo = b % 16;
        out.push(if hi < 10 { 48 + hi } else { 87 + hi });
        out.push(if lo < 10 { 48 + lo } else { 87 + lo });
    } else {
        out.push(b);
    }
    assert(final(out)@ =~= old(out)@ + esc_byte(b));
}

/// Append the serialized form of a text value.
pub fn emit_jstr(out: &mut Vec<u8>, s: &str)
    ensures
        final(out)@ == old(out)@ + jstr(s@),
{
    let bs = s.as_bytes_vec();
    out.push(34);
    let n = bs.len();
    let mut i: usize = 0;
    while i < n
        invariant
            n == bs@.len(),
            bs@ == encode_utf8(s@),
            0 <= i <= n,
            out@ == old(out)@ + seq![34u8] + esc_bytes(bs@.take(i as int)),
        decreases n - i,
    {
        proof {
            assert(bs@.take(i + 1).drop_last() =~= bs@.take(i as int));
            assert(bs@.take(i + 1) =~= bs@.take(i as int).push(bs@[i as int]));
            lemma_esc_bytes_snoc(bs@.take(i as int), bs@[i as int]);
        }
        push_esc_byte(out, bs[i]);
        assert(out@ =~= old(out)@ + seq![34u8] + esc_bytes(bs@.take(i + 1)));
        i = i + 1;
    }
    out.push(34);
    proof {
        assert(bs@.take(n as int) =~= bs@);
        assert(out@ =~= old(out)@ + jstr(s@));
    }
}

/// The value of a lowercase hex digit, or 255 for any other byte.
fn unhex(b: u8) -> (r: u8)
    ensures
        forall|v: u8| v < 16 && b == hex_digit(v) ==> r == v,
{
    if 48 <= b && b <= 57 {
        b - 48
    } else if 97 <= b && b <= 102 {
        b - 87
    } else {
        255
    }
}

/// How the escaped stream decomposes at its head.
proof fn lemma_esc_shape(bytes: Seq<u8>, pos: int, u: Seq<u8>, rest: Seq<u8>)
    requires
        0 <= pos <= bytes.len(),
        bytes.skip(pos) == esc_bytes(u) + seq![34u8] + rest,
    ensures
        pos < bytes.len(),
        u.len() == 0 ==> bytes[pos] == 34,
        u.len() > 0 ==> bytes[pos] != 34,
        u.len() > 0 ==> pos + esc_byte(u[0]).len() <= bytes.len() && (forall|k: int|
            0 <= k < esc_byte(u[0]).len() ==> bytes[pos + k] == esc_byte(u[0])[k]) && bytes.skip(
            pos + esc_byte(u[0]).len(),
        ) == esc_bytes(u.drop_first()) + seq![34u8] + rest,
{
    assert(bytes.skip(pos).len() == bytes.len() - pos);
    if u.len() == 0 {
        assert(esc_bytes(u) =~= Seq::<u8>::empty());
        assert(bytes.skip(pos)[0] == (esc_bytes(u) + seq![34u8] + rest)[0]);
        assert((esc_bytes(u) + seq![34u8] + rest)[0] == (esc_bytes(u) + seq![34u8])[0]);
        assert((esc_bytes(u) + seq![34u8])[0] == seq![34u8][0]);
        assert(bytes[pos] == 34);
    } else {
        assert(esc_bytes(u) == esc_byte(u[0]) + esc_bytes(u.drop_first()));
        let eb = esc_byte(u[0]);
        assert(eb.len() >= 1);
        assert forall|k: int| 0 <= k < eb.len() implies bytes[pos + k] == eb[k] by {
            assert(bytes.skip(pos)[k] == bytes[pos + k]);
            assert((esc_bytes(u) + seq![34u8] + rest)[k] == esc_bytes(u)[k]);
            assert(esc_bytes(u)[k] == eb[k]);
        }
        crate::chartext::lemma_skip_skip(bytes, pos, eb.len() as int);
        assert((esc_bytes(u) + seq![34u8] + rest).skip(eb.len() as int) =~= esc_bytes(
            u.drop_first(),
        ) + seq![34u8] + rest);
        assert(bytes[pos] == eb[0]);
        if u[0] == 34 || u[0] == 92 || u[0] < 32 {
            assert(eb[0] == 92);
        } else {
            assert(eb[0] == u[0]);
        }
    }
}

/// Read the body of a serialized text value up to and including its
/// closing quote, appending the unescaped bytes to `out`.  Returns the
/// position just past the closing quote.  On the output of the writer it
/// reads back exactly what was written.
fn parse_str_tail(bytes: &[u8], pos: usize, out: &mut Vec<u8>) -> (r: Option<usize>)
    requires
        pos <= bytes@.len(),
    ensures
        r matches Option::Some(p) ==> pos < p <= bytes@.len(),
        forall|u: Seq<u8>, rest: Seq<u8>|
            bytes@.skip(pos as int) == esc_bytes(u) + seq![34u8] + rest ==> (r matches Option::Some(
                p,
            ) && final(out)@ == old(out)@ + u && p == pos + esc_bytes(u).len() + 1),
    decreases bytes@.len() - pos,
{
    let n = bytes.len();
    if pos >= n {
        proof {
            assert forall|u: Seq<u8>, rest: Seq<u8>|
                bytes@.skip(pos as int) == esc_bytes(u) + seq![34u8] + rest implies false by {
                lemma_esc_shape(bytes@, pos as int, u, rest);
            }
        }
        return Option::None;
    }
    let b = bytes[pos];
    if b == 34 {
        proof {
            assert forall|u: Seq<u8>, rest: Seq<u8>|
                bytes@.skip(pos as int) == esc_bytes(u) + seq![34u8] + rest implies (u
                =~= Seq::<u8>::empty() && final(out)@ == old(out)@ + u) by {
                lemma_esc_shape(bytes@, pos as int, u, rest);
                assert(u.len() == 0);
                assert(old(out)@ + u =~= old(out)@);
            }
        }
        return Option::Some(pos + 1);
    }
    if b == 92 {
        let e = if pos + 1 < n {
            bytes[pos + 1]
        } else {
            0
        };
        if pos + 1 < n && (e == 34 || e == 92) {
            let ghost pre = out@;
            out.push(e);
            let r = parse_str_tail(bytes, pos + 2, out);
            proof {
                assert forall|u: Seq<u8>, rest: Seq<u8>|
                    bytes@.skip(pos as int) == esc_bytes(u) + seq![34u8] + rest implies (r
                    matches Option::Some(p) && final(out)@ == pre + u && p == pos + esc_bytes(
                    u,
                ).len() + 1) by {
                    lemma_esc_shape(bytes@, pos as int, u, rest);
                    assert(u.len() > 0);
                    let eb = esc_byte(u[0]);
                    assert(u[0] == e && eb.len() == 2) by {
                        if u[0] != 34 && u[0] != 92 {
                            if u[0] < 32 {
                                assert(bytes@[pos + 1] == eb[1]);
                            } else {
                                assert(bytes@[pos as int] == eb[0]);
                            }
                        } else {
                            assert(bytes@[pos + 1] == eb[1]);
                        }
                    }
                    assert(bytes@.skip(pos + 2) == esc_bytes(u.drop_first()) + seq![34u8] + rest);
                    assert(esc_bytes(u) == eb + esc_bytes(u.drop_first()));
                    assert(final(out)@ == pre.push(e) + u.drop_first());
                    assert(pre.push(e) + u.drop_first() =~= pre + u);
                }
            }
            return r;
        }
        if pos + 1 < n && e == 117 && n - pos >= 6 {
            let h1 = unhex(bytes[pos + 4]);
            let h2 = unhex(bytes[pos + 5]);
            if h1 < 16 && h2 < 16 && bytes[pos + 2] == 48 && bytes[pos + 3] == 48 {
                let v = h1 * 16 + h2;
                let ghost pre = out@;
                out.push(v);
                let r = parse_str_tail(bytes, pos + 6, out);
                proof {
                    assert forall|u: Seq<u8>, rest: Seq<u8>|
                        bytes@.skip(pos as int) == esc_bytes(u) + seq![34u8] + rest implies (r
                        matches Option::Some(p) && final(out)@ == pre + u && p == pos + esc_bytes(
                        u,
                    ).len() + 1) by {
                        lemma_esc_shape(bytes@, pos as int, u, rest);
                        assert(u.len() > 0);
                        let eb = esc_byte(u[0]);
                        assert(u[0] != 34 && u[0] != 92 && u[0] < 32) by {
                            if u[0] == 34 || u[0] == 92 {
                                assert(bytes@[pos + 1] == eb[1]);
                            } else if u[0] >= 32 {
                                assert(bytes@[pos as int] == eb[0]);
                            }
                        }
                        assert(eb.len() == 6);
                        assert(bytes@[pos + 4] == eb[4] && bytes@[pos + 5] == eb[5]);
                        assert(u[0] / 16 < 16 && u[0] % 16 < 16);
                        assert(h1 == u[0] / 16 && h2 == u[0] % 16);
                        assert(v == u[0]) by {
                            assert(u[0] == (u[0] / 16) * 16 + u[0] % 16);
                        }
                        assert(bytes@.skip(pos + 6) == esc_bytes(u.drop_first()) + seq![34u8]
                            + rest);
                        assert(esc_bytes(u) == eb + esc_bytes(u.drop_first()));
                        assert(final(out)@ == pre.push(v) + u.drop_first());
                        assert(pre.push(v) + u.drop_first() =~= pre + u);
                    }
                }
                return r;
            }
        }
        proof {
            assert forall|u: Seq<u8>, rest: Seq<u8>|
                bytes@.skip(pos as int) == esc_bytes(u) + seq![34u8] + rest implies false by {
                lemma_esc_shape(bytes@, pos as int, u, rest);
                assert(u.len() > 0);
                let eb = esc_byte(u[0]);
                if u[0] == 34 || u[0] == 92 {
                    assert(bytes@[pos + 1] == eb[1]);
                } else if u[0] < 32 {
                    assert(bytes@[pos + 1] == eb[1]);
                    assert(bytes@[pos + 2] == eb[2]);
                    assert(bytes@[pos + 3] == eb[3]);
                    assert(bytes@[pos + 4] == eb[4]);
                    assert(bytes@[pos + 5] == eb[5]);
                    assert(u[0] / 16 < 16 && u[0] % 16 < 16);
                } else {
                    assert(bytes@[pos as int] == eb[0]);
                }
            }
        }
        return Option::None;
    }
    let ghost pre = out@;
    out.push(b);
    let r = parse_str_tail(bytes, pos + 1, out);
    proof {
        assert forall|u: Seq<u8>, rest: Seq<u8>|
            bytes@.skip(pos as int) == esc_bytes(u) + seq![34u8] + rest implies (r
            matches Option::Some(p) && final(out)@ == pre + u && p == pos + esc_bytes(u).len()
            + 1) by {
            lemma_esc_shape(bytes@, pos as int, u, rest);
            assert(u.len() > 0);
            let eb = esc_byte(u[0]);
            assert(u[0] == b && eb.len() == 1) by {
                assert(bytes@[pos as int] == eb[0]);
            }
            assert(bytes@.skip(pos + 1) == esc_bytes(u.drop_first()) + seq![34u8] + rest);
            assert(esc_bytes(u) == eb + esc_bytes(u.drop_first()));
            assert(final(out)@ == pre.push(b) + u.drop_first());
            assert(pre.push(b) + u.drop_first() =~= pre + u);
        }
    }
    r
}

/// Read a serialized text value starting at `pos`; on writer output this
/// returns the written text and the position just past it.
pub fn parse_jstring(bytes: &[u8], pos: usize) -> (r: Option<(String, usize)>)
    requires
        pos <= bytes@.len(),
    ensures
        r matches Option::Some(p) ==> pos < p.1 <= bytes@.len(),
        forall|sc: Seq<char>, rest: Seq<u8>|
            bytes@.skip(pos as int) == jstr(sc) + rest ==> (r matches Option::Some(p) && p.0@ == sc
                && p.1 == pos + jstr(sc).len() && pos + jstr(sc).len() <= bytes@.len()),
{
    let n = bytes.len();
    if pos >= n || bytes[pos] != 34 {
        proof {
            assert forall|sc: Seq<char>, rest: Seq<u8>|
                bytes@.skip(pos as int) == jstr(sc) + rest implies false by {
                assert(bytes@.skip(pos as int).len() == bytes@.len() - pos);
                assert(jstr(sc).len() >= 2) by {
                    assert(jstr(sc).len() == 1 + esc_bytes(encode_utf8(sc)).len() + 1);
                }
                assert(pos < n);
                assert(bytes@.skip(pos as int)[0] == (jstr(sc) + rest)[0]);
                assert((jstr(sc) + rest)[0] == jstr(sc)[0]);
                assert(jstr(sc)[0] == (seq![34u8] + esc_bytes(encode_utf8(sc)))[0]);
                assert(bytes@[pos as int] == 34);
            }
        }
        return Option::None;
    }
    let mut buf: Vec<u8> = Vec::new();
    let tail = parse_str_tail(bytes, pos + 1, &mut buf);
    match tail {
        Option::Some(p) => {
            let ghost bufv = buf@;
            match string_from_utf8(buf) {
                Option::Some(s) => {
                    proof {
                        assert forall|sc: Seq<char>, rest: Seq<u8>|
                            bytes@.skip(pos as int) == jstr(sc) + rest implies (s@ == sc && p == pos
                            + jstr(sc).len() && pos + jstr(sc).len() <= bytes@.len()) by {
                            assert(bytes@.skip(pos + 1) =~= esc_bytes(encode_utf8(sc)) + seq![34u8]
                                + rest) by {
                                crate::chartext::lemma_skip_skip(bytes@, pos as int, 1);
                                assert((jstr(sc) + rest).skip(1) =~= esc_bytes(encode_utf8(sc))
                                    + seq![34u8] + rest);
                            }
                            assert(bufv == encode_utf8(sc));
                            lemma_encode_utf8_injective(s@, sc);
                        }
                    }
                    Option::Some((s, p))
                },
                Option::None => {
                    proof {
                        assert forall|sc: Seq<char>, rest: Seq<u8>|
                            bytes@.skip(pos as int) == jstr(sc) + rest implies false by {
                            assert(bytes@.skip(pos + 1) =~= esc_bytes(encode_utf8(sc)) + seq![34u8]
                                + rest) by {
                                crate::chartext::lemma_skip_skip(bytes@, pos as int, 1);
                                assert((jstr(sc) + rest).skip(1) =~= esc_bytes(encode_utf8(sc))
                                    + seq![34u8] + rest);
                            }
                            assert(bufv == encode_utf8(sc));
                            broadcast use vstd::utf8::encode_utf8_valid_utf8;

                        }
                    }
                    Option::None
                },
            }
        },
        Option::None => {
            proof {
                assert forall|sc: Seq<char>, rest: Seq<u8>|
                    bytes@.skip(pos as int) == jstr(sc) + rest implies false by {
                    assert(bytes@.skip(pos + 1) =~= esc_bytes(encode_utf8(sc)) + seq![34u8]
                        + rest) by {
                        crate::chartext::lemma_skip_skip(bytes@, pos as int, 1);
                        assert((jstr(sc) + rest).skip(1) =~= esc_bytes(encode_utf8(sc)) + seq![34u8]
                            + rest);
                    }
                }
            }
            Option::None
        },
    }
}

/// Match an expected literal at `pos`, exactly.
pub fn parse_lit(bytes: &[u8], pos: usize, lit: &Vec<u8>) -> (r: Option<usize>)
    ensures
        r is Some <==> (pos + lit@.len() <= bytes@.len() && bytes@.subrange(
            pos as int,
            pos + lit@.len() as int,
        ) == lit@),
        r matches Option::Some(p) ==> p == pos + lit@.len(),
{
    let n = bytes.len();
    let m = lit.len();
    if pos > n || m > n - pos {
        return Option::None;
    }
    let head = vstd::slice::slice_subrange(bytes, pos, pos + m);
    if crate::chartext::bytes_eq(head, lit.as_slice()) {
        Option::Some(pos + m)
    } else {
        Option::None
    }
}

} // verus!

verus! {

/// The serialized form of an absent value.
pub open spec fn null_bytes() -> Seq<u8> {
    seq![110u8, 117u8, 108u8, 108u8]
}

pub open spec fn opt_chars(o: Option<String>) -> Option<Seq<char>> {
    match o {
        Option::Some(s) => Option::Some(s@),
        Option::None => Option::None,
    }
}

/// The serialized form of an optional text value.
pub open spec fn jopt(o: Option<Seq<char>>) -> Seq<u8> {
    match o {
        Option::None => null_bytes(),
        Option::Some(s) => jstr(s),
    }
}

/// The comma-prefixed items of an array slice `[from, to)`.
pub open spec fn jarr_mid(v: Seq<Seq<char>>, from: int, to: int) -> Seq<u8>
    decreases to - from,
{
    if from >= to || from < 0 {
        Seq::empty()
    } else {
        seq![44u8] + jstr(v[from]) + jarr_mid(v, from + 1, to)
    }
}

/// The serialized form of an array of text values.
pub open spec fn jarr(v: Seq<Seq<char>>) -> Seq<u8> {
    if v.len() == 0 {
        seq![91u8, 93u8]
    } else {
        seq![91u8] + jstr(v[0]) + jarr_mid(v, 1, v.len() as int) + seq![93u8]
    }
}

pub proof fn lemma_jarr_mid_snoc(v: Seq<Seq<char>>, from: int, to: int)
    requires
        0 <= from <= to < v.len(),
    ensures
        jarr_mid(v, from, to + 1) == jarr_mid(v, from, to) + (seq![44u8] + jstr(v[to])),
    decreases to - from,
{
    if from == to {
        assert(jarr_mid(v, to + 1, to + 1) =~= Seq::<u8>::empty());
        assert(jarr_mid(v, from, to) =~= Seq::<u8>::empty());
        assert(jarr_mid(v, from, to + 1) =~= jarr_mid(v, from, to) + (seq![44u8] + jstr(v[to])));
    } else {
        lemma_jarr_mid_snoc(v, from + 1, to);
        assert(jarr_mid(v, from, to + 1) =~= jarr_mid(v, from, to) + (seq![44u8] + jstr(v[to])));
    }
}

/// One metadata pair.
pub open spec fn jpair(kv: (Seq<char>, Seq<char>)) -> Seq<u8> {
    jstr(kv.0) + seq![58u8] + jstr(kv.1)
}

/// The comma-prefixed pairs of an object slice `[from, to)`.
pub open spec fn jobj_mid(m: Seq<(Seq<char>, Seq<char>)>, from: int, to: int) -> Seq<u8>
    decreases to - from,
{
    if from >= to || from < 0 {
        Seq::empty()
    } else {
        seq![44u8] + jpair(m[from]) + jobj_mid(m, from + 1, to)
    }
}

/// The serialized form of a string-to-string object.
pub open spec fn jobj(m: Seq<(Seq<char>, Seq<char>)>) -> Seq<u8> {
    if m.len() == 0 {
        seq![123u8, 125u8]
    } else {
        seq![123u8] + jpair(m[0]) + jobj_mid(m, 1, m.len() as int) + seq![125u8]
    }
}

pub proof fn lemma_jobj_mid_snoc(m: Seq<(Seq<char>, Seq<char>)>, from: int, to: int)
    requires
        0 <= from <= to < m.len(),
    ensures
        jobj_mid(m, from, to + 1) == jobj_mid(m, from, to) + (seq![44u8] + jpair(m[to])),
    decreases to - from,
{
    if from == to {
        assert(jobj_mid(m, to + 1, to + 1) =~= Seq::<u8>::empty());
        assert(jobj_mid(m, from, to) =~= Seq::<u8>::empty());
        assert(jobj_mid(m, from, to + 1) =~= jobj_mid(m, from, to) + (seq![44u8] + jpair(m[to])));
    } else {
        lemma_jobj_mid_snoc(m, from + 1, to);
        assert(jobj_mid(m, from, to + 1) =~= jobj_mid(m, from, to) + (seq![44u8] + jpair(m[to])));
    }
}

/// Append the serialized form of an optional text value.
pub fn emit_jopt(out: &mut Vec<u8>, o: &Option<String>)
    ensures
        final(out)@ == old(out)@ + jopt(opt_chars(*o)),
{
    match o {
        Option::Some(s) => {
            emit_jstr(out, s.as_str());
        },
        Option::None => {
            out.push(110);
            out.push(117);
            out.push(108);
            out.push(108);
            assert(final(out)@ =~= old(out)@ + null_bytes());
        },
    }
}

/// Append the serialized form of an array of text values.
pub fn emit_jarr(out: &mut Vec<u8>, v: &Vec<String>)
    ensures
        final(out)@ == old(out)@ + jarr(v.deep_view()),
{
    let ghost dv = v.deep_view();
    let n = v.len();
    out.push(91);
    if n == 0 {
        out.push(93);
        assert(final(out)@ =~= old(out)@ + jarr(dv));
        return ;
    }
    assert(dv[0] == v@[0]@);
    emit_jstr(out, v[0].as_str());
    let mut k: usize = 1;
    while k < n
        invariant
            n == v@.len(),
            dv == v.deep_view(),
            dv.len() == n,
            1 <= k <= n,
            out@ == old(out)@ + seq![91u8] + jstr(dv[0]) + jarr_mid(dv, 1, k as int),
        decreases n - k,
    {
        out.push(44);
        assert(dv[k as int] == v@[k as int]@);
        emit_jstr(out, v[k].as_str());
        proof {
            lemma_jarr_mid_snoc(dv, 1, k as int);
            assert(out@ =~= old(out)@ + seq![91u8] + jstr(dv[0]) + jarr_mid(dv, 1, k + 1));
        }
        k = k + 1;
    }
    out.push(93);
    assert(final(out)@ =~= old(out)@ + jarr(dv));
}

/// Append the serialized form of a string-to-string object.
pub fn emit_jobj(out: &mut Vec<u8>, m: &Vec<(String, String)>)
    ensures
        final(out)@ == old(out)@ + jobj(m.deep_view()),
{
    let ghost dv = m.deep_view();
    let n = m.len();
    out.push(123);
    if n == 0 {
        out.push(125);
        assert(final(out)@ =~= old(out)@ + jobj(dv));
        return ;
    }
    assert(dv[0] == (m@[0].0@, m@[0].1@));
    emit_jstr(out, m[0].0.as_str());
    out.push(58);
    emit_jstr(out, m[0].1.as_str());
    assert(out@ =~= old(out)@ + seq![123u8] + jpair(dv[0]) + jobj_mid(dv, 1, 1));
    let mut k: usize = 1;
    while k < n
        invariant
            n == m@.len(),
            dv == m.deep_view(),
            dv.len() == n,
            1 <= k <= n,
            out@ == old(out)@ + seq![123u8] + jpair(dv[0]) + jobj_mid(dv, 1, k as int),
        decreases n - k,
    {
        out.push(44);
        assert(dv[k as int] == (m@[k as int].0@, m@[k as int].1@));
        emit_jstr(out, m[k].0.as_str());
        out.push(58);
        emit_jstr(out, m[k].1.as_str());
        proof {
            lemma_jobj_mid_snoc(dv, 1, k as int);
            assert(out@ =~= old(out)@ + seq![123u8] + jpair(dv[0]) + jobj_mid(dv, 1, k + 1));
        }
        k = k + 1;
    }
    out.push(125);
    assert(final(out)@ =~= old(out)@ + jobj(dv));
}

fn null_lit() -> (r: Vec<u8>)
    ensures
        r@ == null_bytes(),
{
    let mut v: Vec<u8> = Vec::new();
    v.push(110);
    v.push(117);
    v.push(108);
    v.push(108);
    assert(v@ =~= null_bytes());
    v
}

/// Read an optional text value.
pub fn parse_jopt(bytes: &[u8], pos: usize) -> (r: Option<(Option<String>, usize)>)
    requires
        pos <= bytes@.len(),
    ensures
        r matches Option::Some(p) ==> pos < p.1 <= bytes@.len(),
        forall|o: Option<Seq<char>>, rest: Seq<u8>|
            bytes@.skip(pos as int) == jopt(o) + rest ==> (r matches Option::Some(p) && opt_chars(
                p.0,
            ) == o && p.1 == pos + jopt(o).len()),
{
    let nl = null_lit();
    match parse_lit(bytes, pos, &nl) {
        Option::Some(p) => {
            proof {
                assert forall|o: Option<Seq<char>>, rest: Seq<u8>|
                    bytes@.skip(pos as int) == jopt(o) + rest implies (o is None && p == pos + jopt(
                    o,
                ).len()) by {
                    match o {
                        Option::Some(sc) => {
                            assert(bytes@.subrange(pos as int, pos + 4) == null_bytes());
                            assert(bytes@[pos as int] == 110);
                            assert(bytes@.skip(pos as int)[0] == (jstr(sc) + rest)[0]);
                            assert(jstr(sc).len() >= 2) by {
                                assert(jstr(sc).len() == 1 + esc_bytes(encode_utf8(sc)).len() + 1);
                            }
                            assert((jstr(sc) + rest)[0] == jstr(sc)[0]);
                            assert(jstr(sc)[0] == (seq![34u8] + esc_bytes(encode_utf8(sc)))[0]);
                            assert(bytes@[pos as int] == 34);
                        },
                        Option::None => {},
                    }
                }
            }
            Option::Some((Option::None, p))
        },
        Option::None => {
            match parse_jstring(bytes, pos) {
                Option::Some((s, p)) => {
                    proof {
                        assert forall|o: Option<Seq<char>>, rest: Seq<u8>|
                            bytes@.skip(pos as int) == jopt(o) + rest implies (o matches
                            Option::Some(sc) && s@ == sc && p == pos + jopt(o).len()) by {
                            if o is None {
                                assert(bytes@.skip(pos as int).len() == bytes@.len() - pos);
                                assert(pos + 4 <= bytes@.len());
                                assert(bytes@.subrange(pos as int, pos + 4) =~= null_bytes());
                            }
                        }
                    }
                    Option::Some((Option::Some(s), p))
                },
                Option::None => {
                    proof {
                        assert forall|o: Option<Seq<char>>, rest: Seq<u8>|
                            bytes@.skip(pos as int) == jopt(o) + rest implies false by {
                            if o is None {
                                assert(bytes@.skip(pos as int).len() == bytes@.len() - pos);
                                assert(pos + 4 <= bytes@.len());
                                assert(bytes@.subrange(pos as int, pos + 4) =~= null_bytes());
                            }
                        }
                    }
                    Option::None
                },
            }
        },
    }
}

/// Read the remaining comma-prefixed items of an array, up to and
/// including the closing bracket.
fn parse_jarr_more(bytes: &[u8], pos: usize, out: &mut Vec<String>) -> (r: Option<usize>)
    requires
        pos <= bytes@.len(),
    ensures
        r matches Option::Some(p) ==> pos < p <= bytes@.len(),
        forall|v: Seq<Seq<char>>, from: int, rest: Seq<u8>|
            0 <= from <= v.len() && bytes@.skip(pos as int) == jarr_mid(v, from, v.len() as int)
                + seq![93u8] + rest ==> (r matches Option::Some(p) && final(out).deep_view() == old(
                out,
            ).deep_view() + v.skip(from) && p == pos + jarr_mid(v, from, v.len() as int).len()
                + 1),
    decreases bytes@.len() - pos,
{
    let n = bytes.len();
    if pos >= n {
        proof {
            assert forall|v: Seq<Seq<char>>, from: int, rest: Seq<u8>|
                0 <= from <= v.len() && bytes@.skip(pos as int) == jarr_mid(v, from, v.len() as int)
                    + seq![93u8] + rest implies false by {
                assert(bytes@.skip(pos as int).len() == bytes@.len() - pos);
            }
        }
        return Option::None;
    }
    let b = bytes[pos];
    if b == 93 {
        proof {
            assert forall|v: Seq<Seq<char>>, from: int, rest: Seq<u8>|
                0 <= from <= v.len() && bytes@.skip(pos as int) == jarr_mid(v, from, v.len() as int)
                    + seq![93u8] + rest implies (from == v.len() && out.deep_view() == old(
                out,
            ).deep_view() + v.skip(from) && pos + 1 == pos + jarr_mid(
                v,
                from,
                v.len() as int,
            ).len() + 1) by {
                if from < v.len() {
                    assert(bytes@.skip(pos as int)[0] == (jarr_mid(v, from, v.len() as int)
                        + seq![93u8] + rest)[0]);
                    assert(jarr_mid(v, from, v.len() as int)[0] == 44);
                }
                assert(jarr_mid(v, from, v.len() as int) =~= Seq::<u8>::empty());
                assert(v.skip(from) =~= Seq::<Seq<char>>::empty());
                assert(out.deep_view() =~= old(out).deep_view() + v.skip(from));
            }
        }
        return Option::Some(pos + 1);
    }
    if b != 44 {
        proof {
            assert forall|v: Seq<Seq<char>>, from: int, rest: Seq<u8>|
                0 <= from <= v.len() && bytes@.skip(pos as int) == jarr_mid(v, from, v.len() as int)
                    + seq![93u8] + rest implies false by {
                if from < v.len() {
                    assert(bytes@.skip(pos as int)[0] == (jarr_mid(v, from, v.len() as int)
                        + seq![93u8] + rest)[0]);
                    assert(jarr_mid(v, from, v.len() as int)[0] == 44);
                } else {
                    assert(jarr_mid(v, from, v.len() as int) =~= Seq::<u8>::empty());
                    assert(bytes@.skip(pos as int)[0] == (jarr_mid(v, from, v.len() as int)
                        + seq![93u8] + rest)[0]);
                }
            }
        }
        return Option::None;
    }
    match parse_jstring(bytes, pos + 1) {
        Option::Some((s, p2)) => {
            let ghost pre = out.deep_view();
            let ghost sv = s@;
            out.push(s);
            assert(out.deep_view() =~= pre.push(sv));
            let r2 = parse_jarr_more(bytes, p2, out);
            proof {
                assert forall|v: Seq<Seq<char>>, from: int, rest: Seq<u8>|
                    0 <= from <= v.len() && bytes@.skip(pos as int) == jarr_mid(
                        v,
                        from,
                        v.len() as int,
                    ) + seq![93u8] + rest implies (r2 matches Option::Some(p)
                    && out.deep_view() == pre + v.skip(from) && p == pos + jarr_mid(
                    v,
                    from,
                    v.len() as int,
                ).len() + 1) by {
                    let vl = v.len() as int;
                    assert(from < v.len()) by {
                        if from == v.len() {
                            assert(jarr_mid(v, from, vl) =~= Seq::<u8>::empty());
                            assert(bytes@.skip(pos as int)[0] == (jarr_mid(v, from, vl)
                                + seq![93u8] + rest)[0]);
                        }
                    }
                    assert(jarr_mid(v, from, vl) == seq![44u8] + jstr(v[from]) + jarr_mid(
                        v,
                        from + 1,
                        vl,
                    ));
                    assert(bytes@.skip(pos + 1) == jstr(v[from]) + (jarr_mid(v, from + 1, vl)
                        + seq![93u8] + rest)) by {
                        crate::chartext::lemma_skip_skip(bytes@, pos as int, 1);
                        assert((jarr_mid(v, from, vl) + seq![93u8] + rest).skip(1) =~= jstr(
                            v[from],
                        ) + (jarr_mid(v, from + 1, vl) + seq![93u8] + rest));
                    }
                    assert(sv == v[from] && p2 == pos + 1 + jstr(v[from]).len());
                    assert(bytes@.skip(p2 as int) == jarr_mid(v, from + 1, vl) + seq![93u8]
                        + rest) by {
                        crate::chartext::lemma_skip_skip(bytes@, pos + 1, jstr(v[from]).len() as int);
                        assert((jstr(v[from]) + (jarr_mid(v, from + 1, vl) + seq![93u8]
                            + rest)).skip(jstr(v[from]).len() as int) =~= jarr_mid(v, from + 1, vl)
                            + seq![93u8] + rest);
                    }
                    assert(out.deep_view() == pre.push(sv) + v.skip(from + 1));
                    assert(pre.push(sv) + v.skip(from + 1) =~= pre + v.skip(from));
                }
            }
            r2
        },
        Option::None => {
            proof {
                assert forall|v: Seq<Seq<char>>, from: int, rest: Seq<u8>|
                    0 <= from <= v.len() && bytes@.skip(pos as int) == jarr_mid(
                        v,
                        from,
                        v.len() as int,
                    ) + seq![93u8] + rest implies false by {
                    let vl = v.len() as int;
                    assert(from < v.len()) by {
                        if from == v.len() {
                            assert(jarr_mid(v, from, vl) =~= Seq::<u8>::empty());
                            assert(bytes@.skip(pos as int)[0] == (jarr_mid(v, from, vl)
                                + seq![93u8] + rest)[0]);
                        }
                    }
                    assert(jarr_mid(v, from, vl) == seq![44u8] + jstr(v[from]) + jarr_mid(
                        v,
                        from + 1,
                        vl,
                    ));
                    assert(bytes@.skip(pos + 1) == jstr(v[from]) + (jarr_mid(v, from + 1, vl)
                        + seq![93u8] + rest)) by {
                        crate::chartext::lemma_skip_skip(bytes@, pos as int, 1);
                        assert((jarr_mid(v, from, vl) + seq![93u8] + rest).skip(1) =~= jstr(
                            v[from],
                        ) + (jarr_mid(v, from + 1, vl) + seq![93u8] + rest));
                    }
                }
            }
            Option::None
        },
    }
}

/// Read an array of text values.
pub fn parse_jarr(bytes: &[u8], pos: usize) -> (r: Option<(Vec<String>, usize)>)
    requires
        pos <= bytes@.len(),
    ensures
        r matches Option::Some(p) ==> pos < p.1 <= bytes@.len(),
        forall|v: Seq<Seq<char>>, rest: Seq<u8>|
            bytes@.skip(pos as int) == jarr(v) + rest ==> (r matches Option::Some(p)
                && p.0.deep_view() == v && p.1 == pos + jarr(v).len()),
{
    let n = bytes.len();
    if pos >= n || bytes[pos] != 91 {
        proof {
            assert forall|v: Seq<Seq<char>>, rest: Seq<u8>|
                bytes@.skip(pos as int) == jarr(v) + rest implies false by {
                assert(bytes@.skip(pos as int).len() == bytes@.len() - pos);
                assert(jarr(v).len() >= 2);
                assert(bytes@.skip(pos as int)[0] == (jarr(v) + rest)[0]);
                assert(jarr(v)[0] == 91);
            }
        }
        return Option::None;
    }
    if pos + 1 < n && bytes[pos + 1] == 93 {
        let empty: Vec<String> = Vec::new();
        proof {
            assert forall|v: Seq<Seq<char>>, rest: Seq<u8>|
                bytes@.skip(pos as int) == jarr(v) + rest implies (v.len() == 0 && pos + 2 == pos
                + jarr(v).len()) by {
                if v.len() > 0 {
                    assert(bytes@.skip(pos as int)[1] == (jarr(v) + rest)[1]);
                    assert(jarr(v)[1] == jstr(v[0])[0]) by {
                        assert(jstr(v[0]).len() >= 2) by {
                            assert(jstr(v[0]).len() == 1 + esc_bytes(encode_utf8(v[0])).len() + 1);
                        }
                    }
                    assert(jstr(v[0])[0] == (seq![34u8] + esc_bytes(encode_utf8(v[0])))[0]);
                }
                assert(empty.deep_view() =~= v);
            }
        }
        return Option::Some((empty, pos + 2));
    }
    match parse_jstring(bytes, pos + 1) {
        Option::Some((s0, p0)) => {
            let mut items: Vec<String> = Vec::new();
            let ghost s0v = s0@;
            items.push(s0);
            assert(items.deep_view() =~= Seq::<Seq<char>>::empty().push(s0v));
            let r2 = parse_jarr_more(bytes, p0, &mut items);
            match r2 {
                Option::Some(p) => {
                    proof {
                        assert forall|v: Seq<Seq<char>>, rest: Seq<u8>|
                            bytes@.skip(pos as int) == jarr(v) + rest implies (items.deep_view()
                            == v && p == pos + jarr(v).len()) by {
                            lemma_jarr_parse_steps(bytes@, pos as int, v, rest);
                            let vl = v.len() as int;
                            assert(v.len() > 0);
                            assert(s0v == v[0] && p0 == pos + 1 + jstr(v[0]).len());
                            assert(items.deep_view() == Seq::<Seq<char>>::empty().push(s0v)
                                + v.skip(1));
                            assert(Seq::<Seq<char>>::empty().push(v[0]) + v.skip(1) =~= v);
                        }
                    }
                    Option::Some((items, p))
                },
                Option::None => {
                    proof {
                        assert forall|v: Seq<Seq<char>>, rest: Seq<u8>|
                            bytes@.skip(pos as int) == jarr(v) + rest implies false by {
                            lemma_jarr_parse_steps(bytes@, pos as int, v, rest);
                        }
                    }
                    Option::None
                },
            }
        },
        Option::None => {
            proof {
                assert forall|v: Seq<Seq<char>>, rest: Seq<u8>|
                    bytes@.skip(pos as int) == jarr(v) + rest implies false by {
                    lemma_jarr_parse_steps_head(bytes@, pos as int, v, rest);
                }
            }
            Option::None
        },
    }
}

/// In a nonempty serialized array, the first item follows the bracket.
proof fn lemma_jarr_parse_steps_head(bytes: Seq<u8>, pos: int, v: Seq<Seq<char>>, rest: Seq<u8>)
    requires
        0 <= pos <= bytes.len(),
        bytes.skip(pos) == jarr(v) + rest,
        pos + 1 < bytes.len() ==> !(bytes[pos + 1] == 93),
    ensures
        v.len() > 0,
        bytes.skip(pos + 1) == jstr(v[0]) + (jarr_mid(v, 1, v.len() as int) + seq![93u8] + rest),
{
    assert(bytes.skip(pos).len() == bytes.len() - pos);
    assert(jarr(v).len() >= 2);
    assert(bytes.len() - pos >= 2);
    if v.len() == 0 {
        assert(bytes.skip(pos)[1] == (jarr(v) + rest)[1]);
        assert((jarr(v) + rest)[1] == jarr(v)[1]);
        assert(jarr(v)[1] == 93);
        assert(bytes[pos + 1] == 93);
    }
    let vl = v.len() as int;
    crate::chartext::lemma_skip_skip(bytes, pos, 1);
    assert((jarr(v) + rest).skip(1) =~= jstr(v[0]) + (jarr_mid(v, 1, vl) + seq![93u8] + rest));
}

/// In a nonempty serialized array, where the first item ends.
proof fn lemma_jarr_parse_steps(bytes: Seq<u8>, pos: int, v: Seq<Seq<char>>, rest: Seq<u8>)
    requires
        0 <= pos <= bytes.len(),
        bytes.skip(pos) == jarr(v) + rest,
        pos + 1 < bytes.len() ==> !(bytes[pos + 1] == 93),
    ensures
        v.len() > 0,
        bytes.skip(pos + 1) == jstr(v[0]) + (jarr_mid(v, 1, v.len() as int) + seq![93u8] + rest),
        bytes.skip(pos + 1 + jstr(v[0]).len()) == jarr_mid(v, 1, v.len() as int) + seq![93u8]
            + rest,
        pos + jarr(v).len() == pos + 1 + jstr(v[0]).len() + jarr_mid(v, 1, v.len() as int).len()
            + 1,
{
    lemma_jarr_parse_steps_head(bytes, pos, v, rest);
    let vl = v.len() as int;
    assert(pos + 1 + jstr(v[0]).len() <= bytes.len()) by {
        assert(bytes.skip(pos).len() == bytes.len() - pos);
        assert(pos + 1 <= bytes.len());
        assert(bytes.skip(pos + 1).len() == bytes.len() - pos - 1);
    }
    crate::chartext::lemma_skip_skip(bytes, pos + 1, jstr(v[0]).len() as int);
    assert((jstr(v[0]) + (jarr_mid(v, 1, vl) + seq![93u8] + rest)).skip(
        jstr(v[0]).len() as int,
    ) =~= jarr_mid(v, 1, vl) + seq![93u8] + rest);
}

} // verus!

verus! {

/// Read one `key:value` pair.
fn parse_jpair(bytes: &[u8], pos: usize) -> (r: Option<((String, String), usize)>)
    requires
        pos <= bytes@.len(),
    ensures
        r matches Option::Some(p) ==> pos < p.1 <= bytes@.len(),
        forall|kv: (Seq<char>, Seq<char>), rest: Seq<u8>|
            bytes@.skip(pos as int) == jpair(kv) + rest ==> (r matches Option::Some(p) && p.0.0@
                == kv.0 && p.0.1@ == kv.1 && p.1 == pos + jpair(kv).len()),
{
    match parse_jstring(bytes, pos) {
        Option::Some((k, p1)) => {
            if p1 < bytes.len() && bytes[p1] == 58 {
                match parse_jstring(bytes, p1 + 1) {
                    Option::Some((v, p2)) => {
                        proof {
                            assert forall|kv: (Seq<char>, Seq<char>), rest: Seq<u8>|
                                bytes@.skip(pos as int) == jpair(kv) + rest implies (k@ == kv.0
                                && v@ == kv.1 && p2 == pos + jpair(kv).len()) by {
                                lemma_jpair_steps(bytes@, pos as int, kv, rest);
                                assert(k@ == kv.0 && p1 == pos + jstr(kv.0).len());
                                assert(bytes@.skip(p1 + 1) == jstr(kv.1) + rest);
                            }
                        }
                        Option::Some(((k, v), p2))
                    },
                    Option::None => {
                        proof {
                            assert forall|kv: (Seq<char>, Seq<char>), rest: Seq<u8>|
                                bytes@.skip(pos as int) == jpair(kv) + rest implies false by {
                                lemma_jpair_steps(bytes@, pos as int, kv, rest);
                                assert(k@ == kv.0 && p1 == pos + jstr(kv.0).len());
                                assert(bytes@.skip(p1 + 1) == jstr(kv.1) + rest);
                            }
                        }
                        Option::None
                    },
                }
            } else {
                proof {
                    assert forall|kv: (Seq<char>, Seq<char>), rest: Seq<u8>|
                        bytes@.skip(pos as int) == jpair(kv) + rest implies false by {
                        lemma_jpair_steps(bytes@, pos as int, kv, rest);
                        assert(k@ == kv.0 && p1 == pos + jstr(kv.0).len());
                        assert(bytes@[p1 as int] == 58);
                    }
                }
                Option::None
            }
        },
        Option::None => {
            proof {
                assert forall|kv: (Seq<char>, Seq<char>), rest: Seq<u8>|
                    bytes@.skip(pos as int) == jpair(kv) + rest implies false by {
                    lemma_jpair_steps(bytes@, pos as int, kv, rest);
                }
            }
            Option::None
        },
    }
}

/// How a serialized pair decomposes.
proof fn lemma_jpair_steps(bytes: Seq<u8>, pos: int, kv: (Seq<char>, Seq<char>), rest: Seq<u8>)
    requires
        0 <= pos <= bytes.len(),
        bytes.skip(pos) == jpair(kv) + rest,
    ensures
        bytes.skip(pos) == jstr(kv.0) + (seq![58u8] + jstr(kv.1) + rest),
        pos + jstr(kv.0).len() < bytes.len(),
        bytes[pos + jstr(kv.0).len()] == 58,
        bytes.skip(pos + jstr(kv.0).len() + 1) == jstr(kv.1) + rest,
        pos + jpair(kv).len() == pos + jstr(kv.0).len() + 1 + jstr(kv.1).len(),
{
    let kl = jstr(kv.0).len() as int;
    assert(bytes.skip(pos) =~= jstr(kv.0) + (seq![58u8] + jstr(kv.1) + rest));
    assert(bytes.skip(pos).len() == bytes.len() - pos);
    assert(jstr(kv.1).len() >= 2) by {
        assert(jstr(kv.1).len() == 1 + esc_bytes(encode_utf8(kv.1)).len() + 1);
    }
    assert(bytes[pos + kl] == 58) by {
        assert(bytes.skip(pos)[kl] == (jstr(kv.0) + (seq![58u8] + jstr(kv.1) + rest))[kl]);
    }
    crate::chartext::lemma_skip_skip(bytes, pos, kl + 1);
    assert((jstr(kv.0) + (seq![58u8] + jstr(kv.1) + rest)).skip(kl + 1) =~= jstr(kv.1) + rest);
}

/// Read the remaining comma-prefixed pairs of an object, up to and
/// including the closing brace.
fn parse_jobj_more(bytes: &[u8], pos: usize, out: &mut Vec<(String, String)>) -> (r: Option<usize>)
    requires
        pos <= bytes@.len(),
    ensures
        r matches Option::Some(p) ==> pos < p <= bytes@.len(),
        forall|m: Seq<(Seq<char>, Seq<char>)>, from: int, rest: Seq<u8>|
            0 <= from <= m.len() && bytes@.skip(pos as int) == jobj_mid(m, from, m.len() as int)
                + seq![125u8] + rest ==> (r matches Option::Some(p) && final(out).deep_view()
                == old(out).deep_view() + m.skip(from) && p == pos + jobj_mid(
                m,
                from,
                m.len() as int,
            ).len() + 1),
    decreases bytes@.len() - pos,
{
    let n = bytes.len();
    if pos >= n {
        proof {
            assert forall|m: Seq<(Seq<char>, Seq<char>)>, from: int, rest: Seq<u8>|
                0 <= from <= m.len() && bytes@.skip(pos as int) == jobj_mid(m, from, m.len() as int)
                    + seq![125u8] + rest implies false by {
                assert(bytes@.skip(pos as int).len() == bytes@.len() - pos);
            }
        }
        return Option::None;
    }
    let b = bytes[pos];
    if b == 125 {
        proof {
            assert forall|m: Seq<(Seq<char>, Seq<char>)>, from: int, rest: Seq<u8>|
                0 <= from <= m.len() && bytes@.skip(pos as int) == jobj_mid(m, from, m.len() as int)
                    + seq![125u8] + rest implies (from == m.len() && out.deep_view() == old(
                out,
            ).deep_view() + m.skip(from) && pos + 1 == pos + jobj_mid(
                m,
                from,
                m.len() as int,
            ).len() + 1) by {
                if from < m.len() {
                    assert(bytes@.skip(pos as int)[0] == (jobj_mid(m, from, m.len() as int)
                        + seq![125u8] + rest)[0]);
                    assert(jobj_mid(m, from, m.len() as int)[0] == 44);
                }
                assert(jobj_mid(m, from, m.len() as int) =~= Seq::<u8>::empty());
                assert(m.skip(from) =~= Seq::<(Seq<char>, Seq<char>)>::empty());
                assert(out.deep_view() =~= old(out).deep_view() + m.skip(from));
            }
        }
        return Option::Some(pos + 1);
    }
    if b != 44 {
        proof {
            assert forall|m: Seq<(Seq<char>, Seq<char>)>, from: int, rest: Seq<u8>|
                0 <= from <= m.len() && bytes@.skip(pos as int) == jobj_mid(m, from, m.len() as int)
                    + seq![125u8] + rest implies false by {
                if from < m.len() {
                    assert(bytes@.skip(pos as int)[0] == (jobj_mid(m, from, m.len() as int)
                        + seq![125u8] + rest)[0]);
                    assert(jobj_mid(m, from, m.len() as int)[0] == 44);
                } else {
                    assert(jobj_mid(m, from, m.len() as int) =~= Seq::<u8>::empty());
                    assert(bytes@.skip(pos as int)[0] == (jobj_mid(m, from, m.len() as int)
                        + seq![125u8] + rest)[0]);
                }
            }
        }
        return Option::None;
    }
    match parse_jpair(bytes, pos + 1) {
        Option::Some((kv, p2)) => {
            let ghost pre = out.deep_view();
            let ghost kvv = (kv.0@, kv.1@);
            out.push(kv);
            assert(out.deep_view() =~= pre.push(kvv));
            let r2 = parse_jobj_more(bytes, p2, out);
            proof {
                assert forall|m: Seq<(Seq<char>, Seq<char>)>, from: int, rest: Seq<u8>|
                    0 <= from <= m.len() && bytes@.skip(pos as int) == jobj_mid(
                        m,
                        from,
                        m.len() as int,
                    ) + seq![125u8] + rest implies (r2 matches Option::Some(p)
                    && out.deep_view() == pre + m.skip(from) && p == pos + jobj_mid(
                    m,
                    from,
                    m.len() as int,
                ).len() + 1) by {
                    let ml = m.len() as int;
                    assert(from < m.len()) by {
                        if from == m.len() {
                            assert(jobj_mid(m, from, ml) =~= Seq::<u8>::empty());
                            assert(bytes@.skip(pos as int)[0] == (jobj_mid(m, from, ml)
                                + seq![125u8] + rest)[0]);
                        }
                    }
                    assert(jobj_mid(m, from, ml) == seq![44u8] + jpair(m[from]) + jobj_mid(
                        m,
                        from + 1,
                        ml,
                    ));
                    assert(bytes@.skip(pos + 1) == jpair(m[from]) + (jobj_mid(m, from + 1, ml)
                        + seq![125u8] + rest)) by {
                        crate::chartext::lemma_skip_skip(bytes@, pos as int, 1);
                        assert((jobj_mid(m, from, ml) + seq![125u8] + rest).skip(1) =~= jpair(
                            m[from],
                        ) + (jobj_mid(m, from + 1, ml) + seq![125u8] + rest));
                    }
                    assert(kvv == m[from] && p2 == pos + 1 + jpair(m[from]).len());
                    assert(bytes@.skip(p2 as int) == jobj_mid(m, from + 1, ml) + seq![125u8]
                        + rest) by {
                        crate::chartext::lemma_skip_skip(
                            bytes@,
                            pos + 1,
                            jpair(m[from]).len() as int,
                        );
                        assert((jpair(m[from]) + (jobj_mid(m, from + 1, ml) + seq![125u8]
                            + rest)).skip(jpair(m[from]).len() as int) =~= jobj_mid(m, from + 1, ml)
                            + seq![125u8] + rest);
                    }
                    assert(out.deep_view() == pre.push(kvv) + m.skip(from + 1));
                    assert(pre.push(kvv) + m.skip(from + 1) =~= pre + m.skip(from));
                }
            }
            r2
        },
        Option::None => {
            proof {
                assert forall|m: Seq<(Seq<char>, Seq<char>)>, from: int, rest: Seq<u8>|
                    0 <= from <= m.len() && bytes@.skip(pos as int) == jobj_mid(
                        m,
                        from,
                        m.len() as int,
                    ) + seq![125u8] + rest implies false by {
                    let ml = m.len() as int;
                    assert(from < m.len()) by {
                        if from == m.len() {
                            assert(jobj_mid(m, from, ml) =~= Seq::<u8>::empty());
                            assert(bytes@.skip(pos as int)[0] == (jobj_mid(m, from, ml)
                                + seq![125u8] + rest)[0]);
                        }
                    }
                    assert(jobj_mid(m, from, ml) == seq![44u8] + jpair(m[from]) + jobj_mid(
                        m,
                        from + 1,
                        ml,
                    ));
                    assert(bytes@.skip(pos + 1) == jpair(m[from]) + (jobj_mid(m, from + 1, ml)
                        + seq![125u8] + rest)) by {
                        crate::chartext::lemma_skip_skip(bytes@, pos as int, 1);
                        assert((jobj_mid(m, from, ml) + seq![125u8] + rest).skip(1) =~= jpair(
                            m[from],
                        ) + (jobj_mid(m, from + 1, ml) + seq![125u8] + rest));
                    }
                }
            }
            Option::None
        },
    }
}

/// In a nonempty serialized object, the first pair follows the brace.
proof fn lemma_jobj_parse_steps_head(
    bytes: Seq<u8>,
    pos: int,
    m: Seq<(Seq<char>, Seq<char>)>,
    rest: Seq<u8>,
)
    requires
        0 <= pos <= bytes.len(),
        bytes.skip(pos) == jobj(m) + rest,
        pos + 1 < bytes.len() ==> !(bytes[pos + 1] == 125),
    ensures
        m.len() > 0,
        bytes.skip(pos + 1) == jpair(m[0]) + (jobj_mid(m, 1, m.len() as int) + seq![125u8] + rest),
{
    assert(bytes.skip(pos).len() == bytes.len() - pos);
    assert(jobj(m).len() >= 2);
    assert(bytes.len() - pos >= 2);
    if m.len() == 0 {
        assert(bytes.skip(pos)[1] == (jobj(m) + rest)[1]);
        assert((jobj(m) + rest)[1] == jobj(m)[1]);
        assert(jobj(m)[1] == 125);
        assert(bytes[pos + 1] == 125);
    }
    let ml = m.len() as int;
    crate::chartext::lemma_skip_skip(bytes, pos, 1);
    assert((jobj(m) + rest).skip(1) =~= jpair(m[0]) + (jobj_mid(m, 1, ml) + seq![125u8] + rest));
}

/// In a nonempty serialized object, where the first pair ends.
proof fn lemma_jobj_parse_steps(
    bytes: Seq<u8>,
    pos: int,
    m: Seq<(Seq<char>, Seq<char>)>,
    rest: Seq<u8>,
)
    requires
        0 <= pos <= bytes.len(),
        bytes.skip(pos) == jobj(m) + rest,
        pos + 1 < bytes.len() ==> !(bytes[pos + 1] == 125),
    ensures
        m.len() > 0,
        bytes.skip(pos + 1) == jpair(m[0]) + (jobj_mid(m, 1, m.len() as int) + seq![125u8] + rest),
        bytes.skip(pos + 1 + jpair(m[0]).len()) == jobj_mid(m, 1, m.len() as int) + seq![125u8]
            + rest,
        pos + jobj(m).len() == pos + 1 + jpair(m[0]).len() + jobj_mid(m, 1, m.len() as int).len()
            + 1,
{
    lemma_jobj_parse_steps_head(bytes, pos, m, rest);
    let ml = m.len() as int;
    assert(pos + 1 + jpair(m[0]).len() <= bytes.len()) by {
        assert(bytes.skip(pos).len() == bytes.len() - pos);
        assert(pos + 1 <= bytes.len());
        assert(bytes.skip(pos + 1).len() == bytes.len() - pos - 1);
    }
    crate::chartext::lemma_skip_skip(bytes, pos + 1, jpair(m[0]).len() as int);
    assert((jpair(m[0]) + (jobj_mid(m, 1, ml) + seq![125u8] + rest)).skip(
        jpair(m[0]).len() as int,
    ) =~= jobj_mid(m, 1, ml) + seq![125u8] + rest);
}

/// Read a string-to-string object.
pub fn parse_jobj(bytes: &[u8], pos: usize) -> (r: Option<(Vec<(String, String)>, usize)>)
    requires
        pos <= bytes@.len(),
    ensures
        r matches Option::Some(p) ==> pos < p.1 <= bytes@.len(),
        forall|m: Seq<(Seq<char>, Seq<char>)>, rest: Seq<u8>|
            bytes@.skip(pos as int) == jobj(m) + rest ==> (r matches Option::Some(p)
                && p.0.deep_view() == m && p.1 == pos + jobj(m).len()),
{
    let n = bytes.len();
    if pos >= n || bytes[pos] != 123 {
        proof {
            assert forall|m: Seq<(Seq<char>, Seq<char>)>, rest: Seq<u8>|
                bytes@.skip(pos as int) == jobj(m) + rest implies false by {
                assert(bytes@.skip(pos as int).len() == bytes@.len() - pos);
                assert(jobj(m).len() >= 2);
                assert(bytes@.skip(pos as int)[0] == (jobj(m) + rest)[0]);
                assert(jobj(m)[0] == 123);
            }
        }
        return Option::None;
    }
    if pos + 1 < n && bytes[pos + 1] == 125 {
        let empty: Vec<(String, String)> = Vec::new();
        proof {
            assert forall|m: Seq<(Seq<char>, Seq<char>)>, rest: Seq<u8>|
                bytes@.skip(pos as int) == jobj(m) + rest implies (m.len() == 0 && pos + 2 == pos
                + jobj(m).len()) by {
                if m.len() > 0 {
                    assert(bytes@.skip(pos as int)[1] == (jobj(m) + rest)[1]);
                    assert(jobj(m)[1] == jpair(m[0])[0]) by {
                        assert(jpair(m[0]).len() >= 5) by {
                            assert(jstr(m[0].0).len() == 1 + esc_bytes(encode_utf8(m[0].0)).len()
                                + 1);
                            assert(jstr(m[0].1).len() == 1 + esc_bytes(encode_utf8(m[0].1)).len()
                                + 1);
                        }
                    }
                    assert(jpair(m[0])[0] == jstr(m[0].0)[0]) by {
                        assert(jstr(m[0].0).len() >= 2) by {
                            assert(jstr(m[0].0).len() == 1 + esc_bytes(encode_utf8(m[0].0)).len()
                                + 1);
                        }
                    }
                    assert(jstr(m[0].0)[0] == (seq![34u8] + esc_bytes(encode_utf8(m[0].0)))[0]);
                }
                assert(empty.deep_view() =~= m);
            }
        }
        return Option::Some((empty, pos + 2));
    }
    match parse_jpair(bytes, pos + 1) {
        Option::Some((kv0, p0)) => {
            let mut items: Vec<(String, String)> = Vec::new();
            let ghost kv0v = (kv0.0@, kv0.1@);
            items.push(kv0);
            assert(items.deep_view() =~= Seq::<(Seq<char>, Seq<char>)>::empty().push(kv0v));
            let r2 = parse_jobj_more(bytes, p0, &mut items);
            match r2 {
                Option::Some(p) => {
                    proof {
                        assert forall|m: Seq<(Seq<char>, Seq<char>)>, rest: Seq<u8>|
                            bytes@.skip(pos as int) == jobj(m) + rest implies (items.deep_view()
                            == m && p == pos + jobj(m).len()) by {
                            lemma_jobj_parse_steps(bytes@, pos as int, m, rest);
                            assert(kv0v == m[0] && p0 == pos + 1 + jpair(m[0]).len());
                            assert(items.deep_view() == Seq::<(Seq<char>, Seq<char>)>::empty().push(
                                kv0v,
                            ) + m.skip(1));
                            assert(Seq::<(Seq<char>, Seq<char>)>::empty().push(m[0]) + m.skip(1)
                                =~= m);
                        }
                    }
                    Option::Some((items, p))
                },
                Option::None => {
                    proof {
                        assert forall|m: Seq<(Seq<char>, Seq<char>)>, rest: Seq<u8>|
                            bytes@.skip(pos as int) == jobj(m) + rest implies false by {
                            lemma_jobj_parse_steps(bytes@, pos as int, m, rest);
                        }
                    }
                    Option::None
                },
            }
        },
        Option::None => {
            proof {
                assert forall|m: Seq<(Seq<char>, Seq<char>)>, rest: Seq<u8>|
                    bytes@.skip(pos as int) == jobj(m) + rest implies false by {
                    lemma_jobj_parse_steps_head(bytes@, pos as int, m, rest);
                }
            }
            Option::None
        },
    }
}

} // verus!

verus! {

/// A serialized key with its separating colon.
pub open spec fn jkey(name: Seq<char>) -> Seq<u8> {
    jstr(name) + seq![58u8]
}

/// A first key, preceded by the opening brace.
pub open spec fn kf(name: Seq<char>) -> Seq<u8> {
    seq![123u8] + jkey(name)
}

/// A later key, preceded by a comma.
pub open spec fn kn(name: Seq<char>) -> Seq<u8> {
    seq![44u8] + jkey(name)
}

fn key_first(name: &str) -> (r: Vec<u8>)
    ensures
        r@ == kf(name@),
{
    let mut v: Vec<u8> = Vec::new();
    v.push(123);
    emit_jstr(&mut v, name);
    v.push(58);
    assert(v@ =~= kf(name@));
    v
}

fn key_next(name: &str) -> (r: Vec<u8>)
    ensures
        r@ == kn(name@),
{
    let mut v: Vec<u8> = Vec::new();
    v.push(44);
    emit_jstr(&mut v, name);
    v.push(58);
    assert(v@ =~= kn(name@));
    v
}

fn expect_byte(bytes: &[u8], pos: usize, b: u8) -> (r: Option<usize>)
    ensures
        r is Some <==> (pos < bytes@.len() && bytes@[pos as int] == b),
        r matches Option::Some(p) ==> p == pos + 1,
{
    if pos < bytes.len() && bytes[pos] == b {
        Option::Some(pos + 1)
    } else {
        Option::None
    }
}

/// Splitting a known prefix off a suffix of the stream.
pub proof fn lemma_chop(bytes: Seq<u8>, pos: int, a: Seq<u8>, q: Seq<u8>)
    requires
        0 <= pos <= bytes.len(),
        bytes.skip(pos) == a + q,
    ensures
        pos + a.len() <= bytes.len(),
        bytes.subrange(pos, pos + a.len() as int) == a,
        bytes.skip(pos + a.len()) == q,
{
    assert(bytes.skip(pos).len() == bytes.len() - pos);
    assert forall|i: int| 0 <= i < a.len() implies bytes[pos + i] == a[i] by {
        assert(bytes.skip(pos)[i] == bytes[pos + i]);
        assert((a + q)[i] == a[i]);
    }
    assert(bytes.subrange(pos, pos + a.len() as int) =~= a);
    crate::chartext::lemma_skip_skip(bytes, pos, a.len() as int);
    assert((a + q).skip(a.len() as int) =~= q);
}

/// The serialized form of a target entry, with its fixed key order.
pub open spec fn jtarget(t: TargetEntryV) -> Seq<u8> {
    kf("platform"@) + (jstr(platform_name_spec(t.platform)) + (kn("arch"@) + (jstr(
        arch_name_spec(t.arch),
    ) + (kn("binary_path"@) + (jstr(t.binary_path) + (kn("features"@) + (jarr(t.features) + (kn(
        "optimizations"@,
    ) + (jopt(t.optimizations) + (kn("compatibility"@) + (jarr(t.compatibility) + seq![
        125u8,
    ])))))))))))
}

/// Append the serialized form of a target entry.
#[verifier::rlimit(100)]
#[verifier::spinoff_prover]
pub fn emit_jtarget(out: &mut Vec<u8>, t: &TargetEntry)
    ensures
        final(out)@ == old(out)@ + jtarget(t@),
{
    let mut k0 = key_first("platform");
    out.append(&mut k0);
    emit_jstr(out, crate::platform::platform_name(t.platform));
    let mut k1 = key_next("arch");
    out.append(&mut k1);
    emit_jstr(out, crate::platform::arch_name(t.arch));
    let mut k2 = key_next("binary_path");
    out.append(&mut k2);
    emit_jstr(out, t.binary_path.as_str());
    let mut k3 = key_next("features");
    out.append(&mut k3);
    emit_jarr(out, &t.features);
    let mut k4 = key_next("optimizations");
    out.append(&mut k4);
    emit_jopt(out, &t.optimizations);
    let mut k5 = key_next("compatibility");
    out.append(&mut k5);
    emit_jarr(out, &t.compatibility);
    out.push(125);
    assert(final(out)@ =~= old(out)@ + jtarget(t@));
}

/// Where the keys and values of a serialized target entry lie.
#[verifier::rlimit(100)]
#[verifier::spinoff_prover]
proof fn lemma_jtarget_steps(bytes: Seq<u8>, pos: int, t: TargetEntryV, rest: Seq<u8>)
    requires
        0 <= pos <= bytes.len(),
        bytes.skip(pos) == jtarget(t) + rest,
    ensures
        ({
            let p1 = pos + kf("platform"@).len();
            let p2 = p1 + jstr(platform_name_spec(t.platform)).len();
            let p3 = p2 + kn("arch"@).len();
            let p4 = p3 + jstr(arch_name_spec(t.arch)).len();
            let p5 = p4 + kn("binary_path"@).len();
            let p6 = p5 + jstr(t.binary_path).len();
            let p7 = p6 + kn("features"@).len();
            let p8 = p7 + jarr(t.features).len();
            let p9 = p8 + kn("optimizations"@).len();
            let p10 = p9 + jopt(t.optimizations).len();
            let p11 = p10 + kn("compatibility"@).len();
            let p12 = p11 + jarr(t.compatibility).len();
            &&& p12 + 1 <= bytes.len()
            &&& bytes.subrange(pos, p1) == kf("platform"@)
            &&& bytes.skip(p1) == jstr(platform_name_spec(t.platform)) + bytes.skip(p2)
            &&& bytes.subrange(p2, p3) == kn("arch"@)
            &&& bytes.skip(p3) == jstr(arch_name_spec(t.arch)) + bytes.skip(p4)
            &&& bytes.subrange(p4, p5) == kn("binary_path"@)
            &&& bytes.skip(p5) == jstr(t.binary_path) + bytes.skip(p6)
            &&& bytes.subrange(p6, p7) == kn("features"@)
            &&& bytes.skip(p7) == jarr(t.features) + bytes.skip(p8)
            &&& bytes.subrange(p8, p9) == kn("optimizations"@)
            &&& bytes.skip(p9) == jopt(t.optimizations) + bytes.skip(p10)
            &&& bytes.subrange(p10, p11) == kn("compatibility"@)
            &&& bytes.skip(p11) == jarr(t.compatibility) + bytes.skip(p12)
            &&& bytes[p12] == 125
            &&& pos + jtarget(t).len() == p12 + 1
        }),
{
    let c1 = kf("platform"@);
    let v1 = jstr(platform_name_spec(t.platform));
    let c2 = kn("arch"@);
    let v2 = jstr(arch_name_spec(t.arch));
    let c3 = kn("binary_path"@);
    let v3 = jstr(t.binary_path);
    let c4 = kn("features"@);
    let v4 = jarr(t.features);
    let c5 = kn("optimizations"@);
    let v5 = jopt(t.optimizations);
    let c6 = kn("compatibility"@);
    let v6 = jarr(t.compatibility);
    let close = seq![125u8];
    let t1 = v1 + (c2 + (v2 + (c3 + (v3 + (c4 + (v4 + (c5 + (v5 + (c6 + (v6 + close))))))))));
    assert(bytes.skip(pos) == c1 + (t1 + rest)) by {
        assert((c1 + t1) + rest =~= c1 + (t1 + rest));
    }
    lemma_chop(bytes, pos, c1, t1 + rest);
    let p1 = pos + c1.len();
    let t2 = c2 + (v2 + (c3 + (v3 + (c4 + (v4 + (c5 + (v5 + (c6 + (v6 + close)))))))));
    assert(bytes.skip(p1) == v1 + (t2 + rest)) by {
        assert((v1 + t2) + rest =~= v1 + (t2 + rest));
    }
    lemma_chop(bytes, p1, v1, t2 + rest);
    let p2 = p1 + v1.len();
    let t3 = v2 + (c3 + (v3 + (c4 + (v4 + (c5 + (v5 + (c6 + (v6 + close))))))));
    assert(bytes.skip(p2) == c2 + (t3 + rest)) by {
        assert((c2 + t3) + rest =~= c2 + (t3 + rest));
    }
    lemma_chop(bytes, p2, c2, t3 + rest);
    let p3 = p2 + c2.len();
    let t4 = c3 + (v3 + (c4 + (v4 + (c5 + (v5 + (c6 + (v6 + close)))))));
    assert(bytes.skip(p3) == v2 + (t4 + rest)) by {
        assert((v2 + t4) + rest =~= v2 + (t4 + rest));
    }
    lemma_chop(bytes, p3, v2, t4 + rest);
    let p4 = p3 + v2.len();
    let t5 = v3 + (c4 + (v4 + (c5 + (v5 + (c6 + (v6 + close))))));
    assert(bytes.skip(p4) == c3 + (t5 + rest)) by {
        assert((c3 + t5) + rest =~= c3 + (t5 + rest));
    }
    lemma_chop(bytes, p4, c3, t5 + rest);
    let p5 = p4 + c3.len();
    let t6 = c4 + (v4 + (c5 + (v5 + (c6 + (v6 + close)))));
    assert(bytes.skip(p5) == v3 + (t6 + rest)) by {
        assert((v3 + t6) + rest =~= v3 + (t6 + rest));
    }
    lemma_chop(bytes, p5, v3, t6 + rest);
    let p6 = p5 + v3.len();
    let t7 = v4 + (c5 + (v5 + (c6 + (v6 + close))));
    assert(bytes.skip(p6) == c4 + (t7 + rest)) by {
        assert((c4 + t7) + rest =~= c4 + (t7 + rest));
    }
    lemma_chop(bytes, p6, c4, t7 + rest);
    let p7 = p6 + c4.len();
    let t8 = c5 + (v5 + (c6 + (v6 + close)));
    assert(bytes.skip(p7) == v4 + (t8 + rest)) by {
        assert((v4 + t8) + rest =~= v4 + (t8 + rest));
    }
    lemma_chop(bytes, p7, v4, t8 + rest);
    let p8 = p7 + v4.len();
    let t9 = v5 + (c6 + (v6 + close));
    assert(bytes.skip(p8) == c5 + (t9 + rest)) by {
        assert((c5 + t9) + rest =~= c5 + (t9 + rest));
    }
    lemma_chop(bytes, p8, c5, t9 + rest);
    let p9 = p8 + c5.len();
    let t10 = c6 + (v6 + close);
    assert(bytes.skip(p9) == v5 + (t10 + rest)) by {
        assert((v5 + t10) + rest =~= v5 + (t10 + rest));
    }
    lemma_chop(bytes, p9, v5, t10 + rest);
    let p10 = p9 + v5.len();
    let t11 = v6 + close;
    assert(bytes.skip(p10) == c6 + (t11 + rest)) by {
        assert((c6 + t11) + rest =~= c6 + (t11 + rest));
    }
    lemma_chop(bytes, p10, c6, t11 + rest);
    let p11 = p10 + c6.len();
    assert(bytes.skip(p11) == v6 + (close + rest)) by {
        assert((v6 + close) + rest =~= v6 + (close + rest));
    }
    lemma_chop(bytes, p11, v6, close + rest);
    let p12 = p11 + v6.len();
    lemma_chop(bytes, p12, close, rest);
    assert(bytes[p12] == 125) by {
        assert(bytes.subrange(p12, p12 + 1)[0] == 125);
    }
    assert(pos + jtarget(t).len() == p12 + 1);
}

/// Read a target entry.  On writer output this returns exactly the entry
/// written.
#[verifier::rlimit(100)]
#[verifier::spinoff_prover]
pub fn parse_jtarget(bytes: &[u8], pos: usize) -> (r: Option<(TargetEntry, usize)>)
    requires
        pos <= bytes@.len(),
    ensures
        r matches Option::Some(p) ==> pos < p.1 <= bytes@.len(),
        forall|t: TargetEntryV, rest: Seq<u8>|
            bytes@.skip(pos as int) == jtarget(t) + rest ==> (r matches Option::Some(p) && p.0@
                == t && p.1 == pos + jtarget(t).len()),
{
    let k0 = key_first("platform");
    let w1 = parse_lit(bytes, pos, &k0);
    let p1 = match w1 {
        Option::Some(p) => p,
        Option::None => {
            proof {
                assert forall|t: TargetEntryV, rest: Seq<u8>|
                    bytes@.skip(pos as int) == jtarget(t) + rest implies false by {
                    lemma_jtarget_steps(bytes@, pos as int, t, rest);
                }
            }
            return Option::None;
        },
    };
    let s1 = match parse_jstring(bytes, p1) {
        Option::Some(x) => x,
        Option::None => {
            proof {
                assert forall|t: TargetEntryV, rest: Seq<u8>|
                    bytes@.skip(pos as int) == jtarget(t) + rest implies false by {
                    lemma_jtarget_steps(bytes@, pos as int, t, rest);
                }
            }
            return Option::None;
        },
    };
    let platform = crate::platform::platform_of_name(s1.0.as_str());
    let k1 = key_next("arch");
    let p3 = match parse_lit(bytes, s1.1, &k1) {
        Option::Some(p) => p,
        Option::None => {
            proof {
                assert forall|t: TargetEntryV, rest: Seq<u8>|
                    bytes@.skip(pos as int) == jtarget(t) + rest implies false by {
                    lemma_jtarget_steps(bytes@, pos as int, t, rest);
                }
            }
            return Option::None;
        },
    };
    let s2 = match parse_jstring(bytes, p3) {
        Option::Some(x) => x,
        Option::None => {
            proof {
                assert forall|t: TargetEntryV, rest: Seq<u8>|
                    bytes@.skip(pos as int) == jtarget(t) + rest implies false by {
                    lemma_jtarget_steps(bytes@, pos as int, t, rest);
                }
            }
            return Option::None;
        },
    };
    let arch = crate::platform::arch_of_name(s2.0.as_str());
    let k2 = key_next("binary_path");
    let p5 = match parse_lit(bytes, s2.1, &k2) {
        Option::Some(p) => p,
        Option::None => {
            proof {
                assert forall|t: TargetEntryV, rest: Seq<u8>|
                    bytes@.skip(pos as int) == jtarget(t) + rest implies false by {
                    lemma_jtarget_steps(bytes@, pos as int, t, rest);
                }
            }
            return Option::None;
        },
    };
    let s3 = match parse_jstring(bytes, p5) {
        Option::Some(x) => x,
        Option::None => {
            proof {
                assert forall|t: TargetEntryV, rest: Seq<u8>|
                    bytes@.skip(pos as int) == jtarget(t) + rest implies false by {
                    lemma_jtarget_steps(bytes@, pos as int, t, rest);
                }
            }
            return Option::None;
        },
    };
    let k3 = key_next("features");
    let p7 = match parse_lit(bytes, s3.1, &k3) {
        Option::Some(p) => p,
        Option::None => {
            proof {
                assert forall|t: TargetEntryV, rest: Seq<u8>|
                    bytes@.skip(pos as int) == jtarget(t) + rest implies false by {
                    lemma_jtarget_steps(bytes@, pos as int, t, rest);
                }
            }
            return Option::None;
        },
    };
    let a1 = match parse_jarr(bytes, p7) {
        Option::Some(x) => x,
        Option::None => {
            proof {
                assert forall|t: TargetEntryV, rest: Seq<u8>|
                    bytes@.skip(pos as int) == jtarget(t) + rest implies false by {
                    lemma_jtarget_steps(bytes@, pos as int, t, rest);
                }
            }
            return Option::None;
        },
    };
    let k4 = key_next("optimizations");
    let p9 = match parse_lit(bytes, a1.1, &k4) {
        Option::Some(p) => p,
        Option::None => {
            proof {
                assert forall|t: TargetEntryV, rest: Seq<u8>|
                    bytes@.skip(pos as int) == jtarget(t) + rest implies false by {
                    lemma_jtarget_steps(bytes@, pos as int, t, rest);
                }
            }
            return Option::None;
        },
    };
    let o1 = match parse_jopt(bytes, p9) {
        Option::Some(x) => x,
        Option::None => {
            proof {
                assert forall|t: TargetEntryV, rest: Seq<u8>|
                    bytes@.skip(pos as int) == jtarget(t) + rest implies false by {
                    lemma_jtarget_steps(bytes@, pos as int, t, rest);
                }
            }
            return Option::None;
        },
    };
    let k5 = key_next("compatibility");
    let p11 = match parse_lit(bytes, o1.1, &k5) {
        Option::Some(p) => p,
        Option::None => {
            proof {
                assert forall|t: TargetEntryV, rest: Seq<u8>|
                    bytes@.skip(pos as int) == jtarget(t) + rest implies false by {
                    lemma_jtarget_steps(bytes@, pos as int, t, rest);
                }
            }
            return Option::None;
        },
    };
    let a2 = match parse_jarr(bytes, p11) {
        Option::Some(x) => x,
        Option::None => {
            proof {
                assert forall|t: TargetEntryV, rest: Seq<u8>|
                    bytes@.skip(pos as int) == jtarget(t) + rest implies false by {
                    lemma_jtarget_steps(bytes@, pos as int, t, rest);
                }
            }
            return Option::None;
        },
    };
    let pe = match expect_byte(bytes, a2.1, 125) {
        Option::Some(p) => p,
        Option::None => {
            proof {
                assert forall|t: TargetEntryV, rest: Seq<u8>|
                    bytes@.skip(pos as int) == jtarget(t) + rest implies false by {
                    lemma_jtarget_steps(bytes@, pos as int, t, rest);
                }
            }
            return Option::None;
        },
    };
    let entry = TargetEntry {
        platform,
        arch,
        binary_path: s3.0,
        features: a1.0,
        optimizations: o1.0,
        compatibility: a2.0,
    };
    proof {
        assert forall|t: TargetEntryV, rest: Seq<u8>|
            bytes@.skip(pos as int) == jtarget(t) + rest implies (entry@ == t && pe == pos
            + jtarget(t).len()) by {
            lemma_jtarget_steps(bytes@, pos as int, t, rest);
            crate::platform::lemma_platform_name_round_trip(t.platform);
            crate::platform::lemma_arch_name_round_trip(t.arch);
        }
    }
    Option::Some((entry, pe))
}

} // verus!

verus! {

/// The comma-prefixed target entries of an array slice `[from, to)`.
pub open spec fn jtargets_mid(ts: Seq<TargetEntryV>, from: int, to: int) -> Seq<u8>
    decreases to - from,
{
    if from >= to || from < 0 {
        Seq::empty()
    } else {
        seq![44u8] + jtarget(ts[from]) + jtargets_mid(ts, from + 1, to)
    }
}

/// The serialized form of the target list.
pub open spec fn jtargets(ts: Seq<TargetEntryV>) -> Seq<u8> {
    if ts.len() == 0 {
        seq![91u8, 93u8]
    } else {
        seq![91u8] + jtarget(ts[0]) + jtargets_mid(ts, 1, ts.len() as int) + seq![93u8]
    }
}

#[verifier::rlimit(80)]
pub proof fn lemma_jtargets_mid_snoc(ts: Seq<TargetEntryV>, from: int, to: int)
    requires
        0 <= from <= to < ts.len(),
    ensures
        jtargets_mid(ts, from, to + 1) == jtargets_mid(ts, from, to) + (seq![44u8] + jtarget(
            ts[to],
        )),
    decreases to - from,
{
    if from == to {
        assert(jtargets_mid(ts, to + 1, to + 1) =~= Seq::<u8>::empty());
        assert(jtargets_mid(ts, from, to) =~= Seq::<u8>::empty());
        assert(jtargets_mid(ts, from, to + 1) =~= jtargets_mid(ts, from, to) + (seq![44u8]
            + jtarget(ts[to])));
    } else {
        lemma_jtargets_mid_snoc(ts, from + 1, to);
        assert(jtargets_mid(ts, from, to + 1) =~= jtargets_mid(ts, from, to) + (seq![44u8]
            + jtarget(ts[to])));
    }
}

/// Append the serialized form of the target list.
#[verifier::rlimit(100)]
#[verifier::spinoff_prover]
pub fn emit_jtargets(out: &mut Vec<u8>, ts: &Vec<TargetEntry>)
    ensures
        final(out)@ == old(out)@ + jtargets(targets_view(ts@)),
{
    let ghost dv = targets_view(ts@);
    let n = ts.len();
    out.push(91);
    if n == 0 {
        out.push(93);
        assert(final(out)@ =~= old(out)@ + jtargets(dv));
        return ;
    }
    assert(dv[0] == ts@[0]@);
    emit_jtarget(out, &ts[0]);
    let mut k: usize = 1;
    while k < n
        invariant
            n == ts@.len(),
            dv == targets_view(ts@),
            dv.len() == n,
            1 <= k <= n,
            out@ == old(out)@ + seq![91u8] + jtarget(dv[0]) + jtargets_mid(dv, 1, k as int),
        decreases n - k,
    {
        out.push(44);
        assert(dv[k as int] == ts@[k as int]@);
        emit_jtarget(out, &ts[k]);
        proof {
            lemma_jtargets_mid_snoc(dv, 1, k as int);
            assert(out@ =~= old(out)@ + seq![91u8] + jtarget(dv[0]) + jtargets_mid(dv, 1, k + 1));
        }
        k = k + 1;
    }
    out.push(93);
    assert(final(out)@ =~= old(out)@ + jtargets(dv));
}

/// A serialized target entry is never empty and opens with a brace.
#[verifier::rlimit(80)]
proof fn lemma_jtarget_head(t: TargetEntryV)
    ensures
        jtarget(t).len() >= 2,
        jtarget(t)[0] == 123,
{
    assert(jtarget(t)[0] == kf("platform"@)[0]) by {
        assert(kf("platform"@).len() >= 1) by {
            assert(kf("platform"@).len() == 1 + jkey("platform"@).len());
        }
    }
    assert(kf("platform"@)[0] == (seq![123u8] + jkey("platform"@))[0]);
}

/// One comma-prefixed entry at the head of the remaining target list.
#[verifier::rlimit(100)]
proof fn lemma_jtargets_mid_step(
    bytes: Seq<u8>,
    pos: int,
    ts: Seq<TargetEntryV>,
    from: int,
    rest: Seq<u8>,
)
    requires
        0 <= pos < bytes.len(),
        0 <= from <= ts.len(),
        bytes.skip(pos) == jtargets_mid(ts, from, ts.len() as int) + seq![93u8] + rest,
        bytes[pos] != 93,
    ensures
        from < ts.len(),
        bytes.skip(pos + 1) == jtarget(ts[from]) + (jtargets_mid(ts, from + 1, ts.len() as int)
            + seq![93u8] + rest),
        pos + 1 + jtarget(ts[from]).len() <= bytes.len(),
        bytes.skip(pos + 1 + jtarget(ts[from]).len()) == jtargets_mid(ts, from + 1, ts.len() as int)
            + seq![93u8] + rest,
        jtargets_mid(ts, from, ts.len() as int).len() == 1 + jtarget(ts[from]).len()
            + jtargets_mid(ts, from + 1, ts.len() as int).len(),
{
    let tl = ts.len() as int;
    assert(from < ts.len()) by {
        if from == ts.len() {
            assert(jtargets_mid(ts, from, tl) =~= Seq::<u8>::empty());
            assert(bytes.skip(pos)[0] == (jtargets_mid(ts, from, tl) + seq![93u8] + rest)[0]);
        }
    }
    assert(jtargets_mid(ts, from, tl) == seq![44u8] + jtarget(ts[from]) + jtargets_mid(
        ts,
        from + 1,
        tl,
    ));
    crate::chartext::lemma_skip_skip(bytes, pos, 1);
    assert((jtargets_mid(ts, from, tl) + seq![93u8] + rest).skip(1) =~= jtarget(ts[from]) + (
    jtargets_mid(ts, from + 1, tl) + seq![93u8] + rest));
    assert(pos + 1 + jtarget(ts[from]).len() <= bytes.len()) by {
        assert(bytes.skip(pos + 1).len() == bytes.len() - pos - 1);
    }
    crate::chartext::lemma_skip_skip(bytes, pos + 1, jtarget(ts[from]).len() as int);
    assert((jtarget(ts[from]) + (jtargets_mid(ts, from + 1, tl) + seq![93u8] + rest)).skip(
        jtarget(ts[from]).len() as int,
    ) =~= jtargets_mid(ts, from + 1, tl) + seq![93u8] + rest);
}

/// Read the remaining comma-prefixed target entries, up to and including
/// the closing bracket.
#[verifier::rlimit(100)]
#[verifier::spinoff_prover]
fn parse_jtargets_more(bytes: &[u8], pos: usize, out: &mut Vec<TargetEntry>) -> (r: Option<usize>)
    requires
        pos <= bytes@.len(),
    ensures
        r matches Option::Some(p) ==> pos < p <= bytes@.len(),
        forall|ts: Seq<TargetEntryV>, from: int, rest: Seq<u8>|
            0 <= from <= ts.len() && bytes@.skip(pos as int) == jtargets_mid(
                ts,
                from,
                ts.len() as int,
            ) + seq![93u8] + rest ==> (r matches Option::Some(p) && targets_view(final(out)@)
                == targets_view(old(out)@) + ts.skip(from) && p == pos + jtargets_mid(
                ts,
                from,
                ts.len() as int,
            ).len() + 1),
    decreases bytes@.len() - pos,
{
    let n = bytes.len();
    if pos >= n {
        proof {
            assert forall|ts: Seq<TargetEntryV>, from: int, rest: Seq<u8>|
                0 <= from <= ts.len() && bytes@.skip(pos as int) == jtargets_mid(
                    ts,
                    from,
                    ts.len() as int,
                ) + seq![93u8] + rest implies false by {
                assert(bytes@.skip(pos as int).len() == bytes@.len() - pos);
            }
        }
        return Option::None;
    }
    let b = bytes[pos];
    if b == 93 {
        proof {
            assert forall|ts: Seq<TargetEntryV>, from: int, rest: Seq<u8>|
                0 <= from <= ts.len() && bytes@.skip(pos as int) == jtargets_mid(
                    ts,
                    from,
                    ts.len() as int,
                ) + seq![93u8] + rest implies (from == ts.len() && targets_view(out@)
                == targets_view(old(out)@) + ts.skip(from) && pos + 1 == pos + jtargets_mid(
                ts,
                from,
                ts.len() as int,
            ).len() + 1) by {
                if from < ts.len() {
                    assert(bytes@.skip(pos as int)[0] == (jtargets_mid(ts, from, ts.len() as int)
                        + seq![93u8] + rest)[0]);
                    assert(jtargets_mid(ts, from, ts.len() as int)[0] == 44);
                }
                assert(jtargets_mid(ts, from, ts.len() as int) =~= Seq::<u8>::empty());
                assert(ts.skip(from) =~= Seq::<TargetEntryV>::empty());
                assert(targets_view(out@) =~= targets_view(old(out)@) + ts.skip(from));
            }
        }
        return Option::Some(pos + 1);
    }
    if b != 44 {
        proof {
            assert forall|ts: Seq<TargetEntryV>, from: int, rest: Seq<u8>|
                0 <= from <= ts.len() && bytes@.skip(pos as int) == jtargets_mid(
                    ts,
                    from,
                    ts.len() as int,
                ) + seq![93u8] + rest implies false by {
                if from < ts.len() {
                    assert(bytes@.skip(pos as int)[0] == (jtargets_mid(ts, from, ts.len() as int)
                        + seq![93u8] + rest)[0]);
                    assert(jtargets_mid(ts, from, ts.len() as int)[0] == 44);
                } else {
                    assert(jtargets_mid(ts, from, ts.len() as int) =~= Seq::<u8>::empty());
                    assert(bytes@.skip(pos as int)[0] == (jtargets_mid(ts, from, ts.len() as int)
                        + seq![93u8] + rest)[0]);
                }
            }
        }
        return Option::None;
    }
    match parse_jtarget(bytes, pos + 1) {
        Option::Some((te, p2)) => {
            let ghost pre = targets_view(out@);
            let ghost tev = te@;
            out.push(te);
            assert(targets_view(out@) =~= pre.push(tev));
            let r2 = parse_jtargets_more(bytes, p2, out);
            proof {
                assert forall|ts: Seq<TargetEntryV>, from: int, rest: Seq<u8>|
                    0 <= from <= ts.len() && bytes@.skip(pos as int) == jtargets_mid(
                        ts,
                        from,
                        ts.len() as int,
                    ) + seq![93u8] + rest implies (r2 matches Option::Some(p) && targets_view(out@)
                    == pre + ts.skip(from) && p == pos + jtargets_mid(
                    ts,
                    from,
                    ts.len() as int,
                ).len() + 1) by {
                    lemma_jtargets_mid_step(bytes@, pos as int, ts, from, rest);
                    assert(tev == ts[from] && p2 == pos + 1 + jtarget(ts[from]).len());
                    assert(bytes@.skip(p2 as int) == jtargets_mid(ts, from + 1, ts.len() as int)
                        + seq![93u8] + rest);
                    assert(targets_view(out@) == pre.push(tev) + ts.skip(from + 1));
                    assert(pre.push(tev) + ts.skip(from + 1) =~= pre + ts.skip(from));
                }
            }
            r2
        },
        Option::None => {
            proof {
                assert forall|ts: Seq<TargetEntryV>, from: int, rest: Seq<u8>|
                    0 <= from <= ts.len() && bytes@.skip(pos as int) == jtargets_mid(
                        ts,
                        from,
                        ts.len() as int,
                    ) + seq![93u8] + rest implies false by {
                    lemma_jtargets_mid_step(bytes@, pos as int, ts, from, rest);
                }
            }
            Option::None
        },
    }
}

/// In a nonempty serialized target list, the first entry follows the
/// bracket.
#[verifier::rlimit(80)]
proof fn lemma_jtargets_steps_head(bytes: Seq<u8>, pos: int, ts: Seq<TargetEntryV>, rest: Seq<u8>)
    requires
        0 <= pos <= bytes.len(),
        bytes.skip(pos) == jtargets(ts) + rest,
        pos + 1 < bytes.len() ==> !(bytes[pos + 1] == 93),
    ensures
        ts.len() > 0,
        bytes.skip(pos + 1) == jtarget(ts[0]) + (jtargets_mid(ts, 1, ts.len() as int) + seq![93u8]
            + rest),
{
    assert(bytes.skip(pos).len() == bytes.len() - pos);
    assert(jtargets(ts).len() >= 2);
    assert(bytes.len() - pos >= 2);
    if ts.len() == 0 {
        assert(bytes.skip(pos)[1] == (jtargets(ts) + rest)[1]);
        assert((jtargets(ts) + rest)[1] == jtargets(ts)[1]);
        assert(jtargets(ts)[1] == 93);
        assert(bytes[pos + 1] == 93);
    }
    let tl = ts.len() as int;
    crate::chartext::lemma_skip_skip(bytes, pos, 1);
    assert((jtargets(ts) + rest).skip(1) =~= jtarget(ts[0]) + (jtargets_mid(ts, 1, tl)
        + seq![93u8] + rest));
}

/// In a nonempty serialized target list, where the first entry ends.
#[verifier::rlimit(80)]
proof fn lemma_jtargets_steps(bytes: Seq<u8>, pos: int, ts: Seq<TargetEntryV>, rest: Seq<u8>)
    requires
        0 <= pos <= bytes.len(),
        bytes.skip(pos) == jtargets(ts) + rest,
        pos + 1 < bytes.len() ==> !(bytes[pos + 1] == 93),
    ensures
        ts.len() > 0,
        bytes.skip(pos + 1) == jtarget(ts[0]) + (jtargets_mid(ts, 1, ts.len() as int) + seq![93u8]
            + rest),
        bytes.skip(pos + 1 + jtarget(ts[0]).len()) == jtargets_mid(ts, 1, ts.len() as int)
            + seq![93u8] + rest,
        pos + jtargets(ts).len() == pos + 1 + jtarget(ts[0]).len() + jtargets_mid(
            ts,
            1,
            ts.len() as int,
        ).len() + 1,
{
    lemma_jtargets_steps_head(bytes, pos, ts, rest);
    let tl = ts.len() as int;
    assert(pos + 1 + jtarget(ts[0]).len() <= bytes.len()) by {
        assert(bytes.skip(pos).len() == bytes.len() - pos);
        assert(pos + 1 <= bytes.len());
        assert(bytes.skip(pos + 1).len() == bytes.len() - pos - 1);
    }
    crate::chartext::lemma_skip_skip(bytes, pos + 1, jtarget(ts[0]).len() as int);
    assert((jtarget(ts[0]) + (jtargets_mid(ts, 1, tl) + seq![93u8] + rest)).skip(
        jtarget(ts[0]).len() as int,
    ) =~= jtargets_mid(ts, 1, tl) + seq![93u8] + rest);
}

/// Read the target list.
#[verifier::rlimit(100)]
#[verifier::spinoff_prover]
pub fn parse_jtargets(bytes: &[u8], pos: usize) -> (r: Option<(Vec<TargetEntry>, usize)>)
    requires
        pos <= bytes@.len(),
    ensures
        r matches Option::Some(p) ==> pos < p.1 <= bytes@.len(),
        forall|ts: Seq<TargetEntryV>, rest: Seq<u8>|
            bytes@.skip(pos as int) == jtargets(ts) + rest ==> (r matches Option::Some(p)
                && targets_view(p.0@) == ts && p.1 == pos + jtargets(ts).len()),
{
    let n = bytes.len();
    if pos >= n || bytes[pos] != 91 {
        proof {
            assert forall|ts: Seq<TargetEntryV>, rest: Seq<u8>|
                bytes@.skip(pos as int) == jtargets(ts) + rest implies false by {
                assert(bytes@.skip(pos as int).len() == bytes@.len() - pos);
                assert(jtargets(ts).len() >= 2);
                assert(bytes@.skip(pos as int)[0] == (jtargets(ts) + rest)[0]);
                assert(jtargets(ts)[0] == 91);
            }
        }
        return Option::None;
    }
    if pos + 1 < n && bytes[pos + 1] == 93 {
        let empty: Vec<TargetEntry> = Vec::new();
        proof {
            assert forall|ts: Seq<TargetEntryV>, rest: Seq<u8>|
                bytes@.skip(pos as int) == jtargets(ts) + rest implies (ts.len() == 0 && pos + 2
                == pos + jtargets(ts).len()) by {
                if ts.len() > 0 {
                    assert(bytes@.skip(pos as int)[1] == (jtargets(ts) + rest)[1]);
                    lemma_jtarget_head(ts[0]);
                    assert(jtargets(ts)[1] == jtarget(ts[0])[0]);
                }
                assert(targets_view(empty@) =~= ts);
            }
        }
        return Option::Some((empty, pos + 2));
    }
    match parse_jtarget(bytes, pos + 1) {
        Option::Some((t0, p0)) => {
            let mut items: Vec<TargetEntry> = Vec::new();
            let ghost t0v = t0@;
            items.push(t0);
            assert(targets_view(items@) =~= Seq::<TargetEntryV>::empty().push(t0v));
            let r2 = parse_jtargets_more(bytes, p0, &mut items);
            match r2 {
                Option::Some(p) => {
                    proof {
                        assert forall|ts: Seq<TargetEntryV>, rest: Seq<u8>|
                            bytes@.skip(pos as int) == jtargets(ts) + rest implies (targets_view(
                            items@,
                        ) == ts && p == pos + jtargets(ts).len()) by {
                            lemma_jtargets_steps(bytes@, pos as int, ts, rest);
                            assert(t0v == ts[0] && p0 == pos + 1 + jtarget(ts[0]).len());
                            assert(targets_view(items@) == Seq::<TargetEntryV>::empty().push(t0v)
                                + ts.skip(1));
                            assert(Seq::<TargetEntryV>::empty().push(ts[0]) + ts.skip(1) =~= ts);
                        }
                    }
                    Option::Some((items, p))
                },
                Option::None => {
                    proof {
                        assert forall|ts: Seq<TargetEntryV>, rest: Seq<u8>|
                            bytes@.skip(pos as int) == jtargets(ts) + rest implies false by {
                            lemma_jtargets_steps(bytes@, pos as int, ts, rest);
                        }
                    }
                    Option::None
                },
            }
        },
        Option::None => {
            proof {
                assert forall|ts: Seq<TargetEntryV>, rest: Seq<u8>|
                    bytes@.skip(pos as int) == jtargets(ts) + rest implies false by {
                    lemma_jtargets_steps_head(bytes@, pos as int, ts, rest);
                }
            }
            Option::None
        },
    }
}

} // verus!

verus! {

/// The first half of a serialized manifest: name, version, description
/// and the target list.
pub open spec fn jmanifest_head(m: ManifestV) -> Seq<u8> {
    kf("name"@) + (jstr(m.name) + (kn("version"@) + (jstr(m.version) + (kn("description"@) + (
    jopt(m.description) + (kn("targets"@) + jtargets(m.targets)))))))
}

/// The second half: timestamps, the install token, feature tags and
/// metadata, and the closing brace.
pub open spec fn jmanifest_tail(m: ManifestV) -> Seq<u8> {
    kn("created_at"@) + (jstr(m.created_at) + (kn("install_token"@) + (jstr(m.install_token) + (
    kn("features"@) + (jarr(m.features) + (kn("metadata"@) + (jobj(m.metadata) + seq![
        125u8,
    ])))))))
}

/// The serialized form of a whole manifest, with its fixed key order.
pub open spec fn jmanifest(m: ManifestV) -> Seq<u8> {
    jmanifest_head(m) + jmanifest_tail(m)
}

/// Append the first half of a serialized manifest.
#[verifier::rlimit(100)]
#[verifier::spinoff_prover]
fn emit_manifest_head(out: &mut Vec<u8>, m: &Manifest)
    ensures
        final(out)@ == old(out)@ + jmanifest_head(m@),
{
    let mut k0 = key_first("name");
    out.append(&mut k0);
    emit_jstr(out, m.name.as_str());
    let mut k1 = key_next("version");
    out.append(&mut k1);
    emit_jstr(out, m.version.as_str());
    let mut k2 = key_next("description");
    out.append(&mut k2);
    emit_jopt(out, &m.description);
    let mut k3 = key_next("targets");
    out.append(&mut k3);
    emit_jtargets(out, &m.targets);
    assert(final(out)@ =~= old(out)@ + jmanifest_head(m@));
}

/// Append the second half of a serialized manifest.
#[verifier::rlimit(100)]
#[verifier::spinoff_prover]
fn emit_manifest_tail(out: &mut Vec<u8>, m: &Manifest)
    ensures
        final(out)@ == old(out)@ + jmanifest_tail(m@),
{
    let mut k4 = key_next("created_at");
    out.append(&mut k4);
    emit_jstr(out, m.created_at.as_str());
    let mut k5 = key_next("install_token");
    out.append(&mut k5);
    emit_jstr(out, m.install_token.as_str());
    let mut k6 = key_next("features");
    out.append(&mut k6);
    emit_jarr(out, &m.features);
    let mut k7 = key_next("metadata");
    out.append(&mut k7);
    emit_jobj(out, &m.metadata);
    out.push(125);
    assert(final(out)@ =~= old(out)@ + jmanifest_tail(m@));
}

/// Serialize a manifest.
pub fn manifest_to_bytes(m: &Manifest) -> (r: Vec<u8>)
    ensures
        r@ == jmanifest(m@),
{
    let mut out: Vec<u8> = Vec::new();
    emit_manifest_head(&mut out, m);
    emit_manifest_tail(&mut out, m);
    assert(out@ =~= jmanifest(m@));
    out
}

/// Chopping four key/value pairs off the head of the stream, with the
/// components kept abstract.
proof fn lemma_chop8(
    bytes: Seq<u8>,
    pos: int,
    c1: Seq<u8>,
    v1: Seq<u8>,
    c2: Seq<u8>,
    v2: Seq<u8>,
    c3: Seq<u8>,
    v3: Seq<u8>,
    c4: Seq<u8>,
    v4: Seq<u8>,
    rest: Seq<u8>,
)
    requires
        0 <= pos <= bytes.len(),
        bytes.skip(pos) == (c1 + (v1 + (c2 + (v2 + (c3 + (v3 + (c4 + v4))))))) + rest,
    ensures
        ({
            let q1 = pos + c1.len();
            let q2 = q1 + v1.len();
            let q3 = q2 + c2.len();
            let q4 = q3 + v2.len();
            let q5 = q4 + c3.len();
            let q6 = q5 + v3.len();
            let q7 = q6 + c4.len();
            let q8 = q7 + v4.len();
            &&& q8 <= bytes.len()
            &&& bytes.subrange(pos, q1) == c1
            &&& bytes.skip(q1) == v1 + bytes.skip(q2)
            &&& bytes.subrange(q2, q3) == c2
            &&& bytes.skip(q3) == v2 + bytes.skip(q4)
            &&& bytes.subrange(q4, q5) == c3
            &&& bytes.skip(q5) == v3 + bytes.skip(q6)
            &&& bytes.subrange(q6, q7) == c4
            &&& bytes.skip(q7) == v4 + bytes.skip(q8)
            &&& bytes.skip(q8) == rest
        }),
{
    let h1 = v1 + (c2 + (v2 + (c3 + (v3 + (c4 + v4)))));
    assert(bytes.skip(pos) == c1 + (h1 + rest)) by {
        assert((c1 + h1) + rest =~= c1 + (h1 + rest));
    }
    lemma_chop(bytes, pos, c1, h1 + rest);
    let q1 = pos + c1.len();
    let h2 = c2 + (v2 + (c3 + (v3 + (c4 + v4))));
    assert(bytes.skip(q1) == v1 + (h2 + rest)) by {
        assert((v1 + h2) + rest =~= v1 + (h2 + rest));
    }
    lemma_chop(bytes, q1, v1, h2 + rest);
    let q2 = q1 + v1.len();
    let h3 = v2 + (c3 + (v3 + (c4 + v4)));
    assert(bytes.skip(q2) == c2 + (h3 + rest)) by {
        assert((c2 + h3) + rest =~= c2 + (h3 + rest));
    }
    lemma_chop(bytes, q2, c2, h3 + rest);
    let q3 = q2 + c2.len();
    let h4 = c3 + (v3 + (c4 + v4));
    assert(bytes.skip(q3) == v2 + (h4 + rest)) by {
        assert((v2 + h4) + rest =~= v2 + (h4 + rest));
    }
    lemma_chop(bytes, q3, v2, h4 + rest);
    let q4 = q3 + v2.len();
    let h5 = v3 + (c4 + v4);
    assert(bytes.skip(q4) == c3 + (h5 + rest)) by {
        assert((c3 + h5) + rest =~= c3 + (h5 + rest));
    }
    lemma_chop(bytes, q4, c3, h5 + rest);
    let q5 = q4 + c3.len();
    let h6 = c4 + v4;
    assert(bytes.skip(q5) == v3 + (h6 + rest)) by {
        assert((v3 + h6) + rest =~= v3 + (h6 + rest));
    }
    lemma_chop(bytes, q5, v3, h6 + rest);
    let q6 = q5 + v3.len();
    assert(bytes.skip(q6) == c4 + (v4 + rest)) by {
        assert((c4 + v4) + rest =~= c4 + (v4 + rest));
    }
    lemma_chop(bytes, q6, c4, v4 + rest);
    let q7 = q6 + c4.len();
    lemma_chop(bytes, q7, v4, rest);
}

/// Where the keys and values of the first manifest half lie.
#[verifier::rlimit(100)]
#[verifier::spinoff_prover]
proof fn lemma_jmanifest_steps_head(bytes: Seq<u8>, pos: int, m: ManifestV, rest: Seq<u8>)
    requires
        0 <= pos <= bytes.len(),
        bytes.skip(pos) == jmanifest(m) + rest,
    ensures
        ({
            let q1 = pos + kf("name"@).len();
            let q2 = q1 + jstr(m.name).len();
            let q3 = q2 + kn("version"@).len();
            let q4 = q3 + jstr(m.version).len();
            let q5 = q4 + kn("description"@).len();
            let q6 = q5 + jopt(m.description).len();
            let q7 = q6 + kn("targets"@).len();
            let q8 = q7 + jtargets(m.targets).len();
            &&& q8 <= bytes.len()
            &&& bytes.subrange(pos, q1) == kf("name"@)
            &&& bytes.skip(q1) == jstr(m.name) + bytes.skip(q2)
            &&& bytes.subrange(q2, q3) == kn("version"@)
            &&& bytes.skip(q3) == jstr(m.version) + bytes.skip(q4)
            &&& bytes.subrange(q4, q5) == kn("description"@)
            &&& bytes.skip(q5) == jopt(m.description) + bytes.skip(q6)
            &&& bytes.subrange(q6, q7) == kn("targets"@)
            &&& bytes.skip(q7) == jtargets(m.targets) + bytes.skip(q8)
            &&& bytes.skip(q8) == jmanifest_tail(m) + rest
        }),
{
    let tailrest = jmanifest_tail(m) + rest;
    assert(bytes.skip(pos) == jmanifest_head(m) + tailrest) by {
        assert((jmanifest_head(m) + jmanifest_tail(m)) + rest =~= jmanifest_head(m) + (
        jmanifest_tail(m) + rest));
    }
    lemma_chop8(
        bytes,
        pos,
        kf("name"@),
        jstr(m.name),
        kn("version"@),
        jstr(m.version),
        kn("description"@),
        jopt(m.description),
        kn("targets"@),
        jtargets(m.targets),
        tailrest,
    );
}

/// Where the keys and values of the second manifest half lie.
#[verifier::rlimit(100)]
#[verifier::spinoff_prover]
proof fn lemma_jmanifest_steps_tail(bytes: Seq<u8>, q8: int, m: ManifestV, rest: Seq<u8>)
    requires
        0 <= q8 <= bytes.len(),
        bytes.skip(q8) == jmanifest_tail(m) + rest,
    ensures
        ({
            let q9 = q8 + kn("created_at"@).len();
            let q10 = q9 + jstr(m.created_at).len();
            let q11 = q10 + kn("install_token"@).len();
            let q12 = q11 + jstr(m.install_token).len();
            let q13 = q12 + kn("features"@).len();
            let q14 = q13 + jarr(m.features).len();
            let q15 = q14 + kn("metadata"@).len();
            let q16 = q15 + jobj(m.metadata).len();
            &&& q16 + 1 <= bytes.len()
            &&& bytes.subrange(q8, q9) == kn("created_at"@)
            &&& bytes.skip(q9) == jstr(m.created_at) + bytes.skip(q10)
            &&& bytes.subrange(q10, q11) == kn("install_token"@)
            &&& bytes.skip(q11) == jstr(m.install_token) + bytes.skip(q12)
            &&& bytes.subrange(q12, q13) == kn("features"@)
            &&& bytes.skip(q13) == jarr(m.features) + bytes.skip(q14)
            &&& bytes.subrange(q14, q15) == kn("metadata"@)
            &&& bytes.skip(q15) == jobj(m.metadata) + bytes.skip(q16)
            &&& bytes[q16] == 125
            &&& q8 + jmanifest_tail(m).len() == q16 + 1
        }),
{
    let c5 = kn("created_at"@);
    let v5 = jstr(m.created_at);
    let c6 = kn("install_token"@);
    let v6 = jstr(m.install_token);
    let c7 = kn("features"@);
    let v7 = jarr(m.features);
    let c8 = kn("metadata"@);
    let v8 = jobj(m.metadata);
    let close = seq![125u8];
    let u1 = v5 + (c6 + (v6 + (c7 + (v7 + (c8 + (v8 + close))))));
    assert(bytes.skip(q8) == c5 + (u1 + rest)) by {
        assert((c5 + u1) + rest =~= c5 + (u1 + rest));
    }
    lemma_chop(bytes, q8, c5, u1 + rest);
    let q9 = q8 + c5.len();
    let u2 = c6 + (v6 + (c7 + (v7 + (c8 + (v8 + close)))));
    assert(bytes.skip(q9) == v5 + (u2 + rest)) by {
        assert((v5 + u2) + rest =~= v5 + (u2 + rest));
    }
    lemma_chop(bytes, q9, v5, u2 + rest);
    let q10 = q9 + v5.len();
    let u3 = v6 + (c7 + (v7 + (c8 + (v8 + close))));
    assert(bytes.skip(q10) == c6 + (u3 + rest)) by {
        assert((c6 + u3) + rest =~= c6 + (u3 + rest));
    }
    lemma_chop(bytes, q10, c6, u3 + rest);
    let q11 = q10 + c6.len();
    let u4 = c7 + (v7 + (c8 + (v8 + close)));
    assert(bytes.skip(q11) == v6 + (u4 + rest)) by {
        assert((v6 + u4) + rest =~= v6 + (u4 + rest));
    }
    lemma_chop(bytes, q11, v6, u4 + rest);
    let q12 = q11 + v6.len();
    let u5 = v7 + (c8 + (v8 + close));
    assert(bytes.skip(q12) == c7 + (u5 + rest)) by {
        assert((c7 + u5) + rest =~= c7 + (u5 + rest));
    }
    lemma_chop(bytes, q12, c7, u5 + rest);
    let q13 = q12 + c7.len();
    let u6 = c8 + (v8 + close);
    assert(bytes.skip(q13) == v7 + (u6 + rest)) by {
        assert((v7 + u6) + rest =~= v7 + (u6 + rest));
    }
    lemma_chop(bytes, q13, v7, u6 + rest);
    let q14 = q13 + v7.len();
    let u7 = v8 + close;
    assert(bytes.skip(q14) == c8 + (u7 + rest)) by {
        assert((c8 + u7) + rest =~= c8 + (u7 + rest));
    }
    lemma_chop(bytes, q14, c8, u7 + rest);
    let q15 = q14 + c8.len();
    assert(bytes.skip(q15) == v8 + (close + rest)) by {
        assert((v8 + close) + rest =~= v8 + (close + rest));
    }
    lemma_chop(bytes, q15, v8, close + rest);
    let q16 = q15 + v8.len();
    lemma_chop(bytes, q16, close, rest);
    assert(bytes[q16] == 125) by {
        assert(bytes.subrange(q16, q16 + 1)[0] == 125);
    }
}

/// Where the keys and values of a serialized manifest lie.
#[verifier::rlimit(100)]
#[verifier::spinoff_prover]
proof fn lemma_jmanifest_steps(bytes: Seq<u8>, pos: int, m: ManifestV, rest: Seq<u8>)
    requires
        0 <= pos <= bytes.len(),
        bytes.skip(pos) == jmanifest(m) + rest,
    ensures
        ({
            let q1 = pos + kf("name"@).len();
            let q2 = q1 + jstr(m.name).len();
            let q3 = q2 + kn("version"@).len();
            let q4 = q3 + jstr(m.version).len();
            let q5 = q4 + kn("description"@).len();
            let q6 = q5 + jopt(m.description).len();
            let q7 = q6 + kn("targets"@).len();
            let q8 = q7 + jtargets(m.targets).len();
            let q9 = q8 + kn("created_at"@).len();
            let q10 = q9 + jstr(m.created_at).len();
            let q11 = q10 + kn("install_token"@).len();
            let q12 = q11 + jstr(m.install_token).len();
            let q13 = q12 + kn("features"@).len();
            let q14 = q13 + jarr(m.features).len();
            let q15 = q14 + kn("metadata"@).len();
            let q16 = q15 + jobj(m.metadata).len();
            &&& q16 + 1 <= bytes.len()
            &&& bytes.subrange(pos, q1) == kf("name"@)
            &&& bytes.skip(q1) == jstr(m.name) + bytes.skip(q2)
            &&& bytes.subrange(q2, q3) == kn("version"@)
            &&& bytes.skip(q3) == jstr(m.version) + bytes.skip(q4)
            &&& bytes.subrange(q4, q5) == kn("description"@)
            &&& bytes.skip(q5) == jopt(m.description) + bytes.skip(q6)
            &&& bytes.subrange(q6, q7) == kn("targets"@)
            &&& bytes.skip(q7) == jtargets(m.targets) + bytes.skip(q8)
            &&& bytes.subrange(q8, q9) == kn("created_at"@)
            &&& bytes.skip(q9) == jstr(m.created_at) + bytes.skip(q10)
            &&& bytes.subrange(q10, q11) == kn("install_token"@)
            &&& bytes.skip(q11) == jstr(m.install_token) + bytes.skip(q12)
            &&& bytes.subrange(q12, q13) == kn("features"@)
            &&& bytes.skip(q13) == jarr(m.features) + bytes.skip(q14)
            &&& bytes.subrange(q14, q15) == kn("metadata"@)
            &&& bytes.skip(q15) == jobj(m.metadata) + bytes.skip(q16)
            &&& bytes[q16] == 125
            &&& pos + jmanifest(m).len() == q16 + 1
        }),
{
    lemma_jmanifest_steps_head(bytes, pos, m, rest);
    let q8 = pos + kf("name"@).len() + jstr(m.name).len() + kn("version"@).len() + jstr(
        m.version,
    ).len() + kn("description"@).len() + jopt(m.description).len() + kn("targets"@).len()
        + jtargets(m.targets).len();
    lemma_jmanifest_steps_tail(bytes, q8, m, rest);
}

/// Read a manifest from its serialized form.  On writer output this
/// returns exactly the manifest written: reading inverts writing.
#[verifier::rlimit(100)]
#[verifier::spinoff_prover]
pub fn parse_manifest_bytes(bytes: &[u8]) -> (r: Option<Manifest>)
    ensures
        forall|mv: ManifestV|
            bytes@ == jmanifest(mv) ==> (r matches Option::Some(m) && m@ == mv),
{
    proof {
        assert forall|mv: ManifestV| bytes@ == jmanifest(mv) implies bytes@.skip(0) == jmanifest(
            mv,
        ) + Seq::<u8>::empty() by {
            assert(bytes@.skip(0) =~= jmanifest(mv) + Seq::<u8>::empty());
        }
    }
    let k0 = key_first("name");
    let q1 = match parse_lit(bytes, 0, &k0) {
        Option::Some(p) => p,
        Option::None => {
            proof {
                assert forall|mv: ManifestV| bytes@ == jmanifest(mv) implies false by {
                    lemma_jmanifest_steps(bytes@, 0, mv, Seq::<u8>::empty());
                }
            }
            return Option::None;
        },
    };
    let s1 = match parse_jstring(bytes, q1) {
        Option::Some(x) => x,
        Option::None => {
            proof {
                assert forall|mv: ManifestV| bytes@ == jmanifest(mv) implies false by {
                    lemma_jmanifest_steps(bytes@, 0, mv, Seq::<u8>::empty());
                }
            }
            return Option::None;
        },
    };
    let k1 = key_next("version");
    let q3 = match parse_lit(bytes, s1.1, &k1) {
        Option::Some(p) => p,
        Option::None => {
            proof {
                assert forall|mv: ManifestV| bytes@ == jmanifest(mv) implies false by {
                    lemma_jmanifest_steps(bytes@, 0, mv, Seq::<u8>::empty());
                }
            }
            return Option::None;
        },
    };
    let s2 = match parse_jstring(bytes, q3) {
        Option::Some(x) => x,
        Option::None => {
            proof {
                assert forall|mv: ManifestV| bytes@ == jmanifest(mv) implies false by {
                    lemma_jmanifest_steps(bytes@, 0, mv, Seq::<u8>::empty());
                }
            }
            return Option::None;
        },
    };
    let k2 = key_next("description");
    let q5 = match parse_lit(bytes, s2.1, &k2) {
        Option::Some(p) => p,
        Option::None => {
            proof {
                assert forall|mv: ManifestV| bytes@ == jmanifest(mv) implies false by {
                    lemma_jmanifest_steps(bytes@, 0, mv, Seq::<u8>::empty());
                }
            }
            return Option::None;
        },
    };
    let o1 = match parse_jopt(bytes, q5) {
        Option::Some(x) => x,
        Option::None => {
            proof {
                assert forall|mv: ManifestV| bytes@ == jmanifest(mv) implies false by {
                    lemma_jmanifest_steps(bytes@, 0, mv, Seq::<u8>::empty());
                }
            }
            return Option::None;
        },
    };
    let k3 = key_next("targets");
    let q7 = match parse_lit(bytes, o1.1, &k3) {
        Option::Some(p) => p,
        Option::None => {
            proof {
                assert forall|mv: ManifestV| bytes@ == jmanifest(mv) implies false by {
                    lemma_jmanifest_steps(bytes@, 0, mv, Seq::<u8>::empty());
                }
            }
            return Option::None;
        },
    };
    let ts = match parse_jtargets(bytes, q7) {
        Option::Some(x) => x,
        Option::None => {
            proof {
                assert forall|mv: ManifestV| bytes@ == jmanifest(mv) implies false by {
                    lemma_jmanifest_steps(bytes@, 0, mv, Seq::<u8>::empty());
                }
            }
            return Option::None;
        },
    };
    let k4 = key_next("created_at");
    let q9 = match parse_lit(bytes, ts.1, &k4) {
        Option::Some(p) => p,
        Option::None => {
            proof {
                assert forall|mv: ManifestV| bytes@ == jmanifest(mv) implies false by {
                    lemma_jmanifest_steps(bytes@, 0, mv, Seq::<u8>::empty());
                }
            }
            return Option::None;
        },
    };
    let s3 = match parse_jstring(bytes, q9) {
        Option::Some(x) => x,
        Option::None => {
            proof {
                assert forall|mv: ManifestV| bytes@ == jmanifest(mv) implies false by {
                    lemma_jmanifest_steps(bytes@, 0, mv, Seq::<u8>::empty());
                }
            }
            return Option::None;
        },
    };
    let k5 = key_next("install_token");
    let q11 = match parse_lit(bytes, s3.1, &k5) {
        Option::Some(p) => p,
        Option::None => {
            proof {
                assert forall|mv: ManifestV| bytes@ == jmanifest(mv) implies false by {
                    lemma_jmanifest_steps(bytes@, 0, mv, Seq::<u8>::empty());
                }
            }
            return Option::None;
        },
    };
    let s4 = match parse_jstring(bytes, q11) {
        Option::Some(x) => x,
        Option::None => {
            proof {
                assert forall|mv: ManifestV| bytes@ == jmanifest(mv) implies false by {
                    lemma_jmanifest_steps(bytes@, 0, mv, Seq::<u8>::empty());
                }
            }
            return Option::None;
        },
    };
    let k6 = key_next("features");
    let q13 = match parse_lit(bytes, s4.1, &k6) {
        Option::Some(p) => p,
        Option::None => {
            proof {
                assert forall|mv: ManifestV| bytes@ == jmanifest(mv) implies false by {
                    lemma_jmanifest_steps(bytes@, 0, mv, Seq::<u8>::empty());
                }
            }
            return Option::None;
        },
    };
    let a1 = match parse_jarr(bytes, q13) {
        Option::Some(x) => x,
        Option::None => {
            proof {
                assert forall|mv: ManifestV| bytes@ == jmanifest(mv) implies false by {
                    lemma_jmanifest_steps(bytes@, 0, mv, Seq::<u8>::empty());
                }
            }
            return Option::None;
        },
    };
    let k7 = key_next("metadata");
    let q15 = match parse_lit(bytes, a1.1, &k7) {
        Option::Some(p) => p,
        Option::None => {
            proof {
                assert forall|mv: ManifestV| bytes@ == jmanifest(mv) implies false by {
                    lemma_jmanifest_steps(bytes@, 0, mv, Seq::<u8>::empty());
                }
            }
            return Option::None;
        },
    };
    let md = match parse_jobj(bytes, q15) {
        Option::Some(x) => x,
        Option::None => {
            proof {
                assert forall|mv: ManifestV| bytes@ == jmanifest(mv) implies false by {
                    lemma_jmanifest_steps(bytes@, 0, mv, Seq::<u8>::empty());
                }
            }
            return Option::None;
        },
    };
    match expect_byte(bytes, md.1, 125) {
        Option::Some(_) => {},
        Option::None => {
            proof {
                assert forall|mv: ManifestV| bytes@ == jmanifest(mv) implies false by {
                    lemma_jmanifest_steps(bytes@, 0, mv, Seq::<u8>::empty());
                }
            }
            return Option::None;
        },
    }
    let out = Manifest {
        name: s1.0,
        version: s2.0,
        description: o1.0,
        targets: ts.0,
        created_at: s3.0,
        install_token: s4.0,
        features: a1.0,
        metadata: md.0,
    };
    proof {
        assert forall|mv: ManifestV| bytes@ == jmanifest(mv) implies out@ == mv by {
            lemma_jmanifest_steps(bytes@, 0, mv, Seq::<u8>::empty());
        }
    }
    Option::Some(out)
}

} // verus!
