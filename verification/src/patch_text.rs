//! The patch file format: UTF-8 text, one `offset:length:base64(data)`
//! record per line.  Reading skips lines with the wrong field count, as
//! documented leniency; a bad number or bad base64 in a three-field line
//! is an error.  Reading a written patch gives the entries back.

use vstd::prelude::*;
use crate::b64::{
    b64_decode,
    b64_encode,
    base64_bytes_of,
    base64_of,
    is_base64_char,
    lemma_base64_ascii,
};
use crate::chartext::find_byte_in;
use crate::numtext::{dec_digits, lemma_dec_round_trip, parse_dec, push_dec};
use crate::patch::{patch_view, PatchEntry, PatchEntryV};
use vstd::string::StrSliceExecFns;

verus! {

/// The base64 text of `d` stays in the base64 alphabet.  This fact comes
/// with every call of the encoder and travels through contracts.
pub open spec fn b64_charset_ok(d: Seq<u8>) -> bool {
    forall|i: int| 0 <= i < base64_of(d).len() ==> is_base64_char(#[trigger] base64_of(d)[i])
}

/// An entry a patch line can carry: offsets and lengths that fit the
/// machine, and data whose base64 text is known to stay in the alphabet.
pub open spec fn wf_line_entry(e: PatchEntryV) -> bool {
    &&& 0 <= e.offset <= usize::MAX
    &&& 0 <= e.length <= usize::MAX
    &&& b64_charset_ok(e.data)
}

pub open spec fn wf_patch_entries(ev: Seq<PatchEntryV>) -> bool {
    forall|i: int| 0 <= i < ev.len() ==> wf_line_entry(#[trigger] ev[i])
}

/// One record, without its newline.
pub open spec fn patch_line_body(e: PatchEntryV) -> Seq<u8> {
    dec_digits(e.offset as nat) + seq![58u8] + dec_digits(e.length as nat) + seq![58u8]
        + base64_bytes_of(e.data)
}

/// One record, newline-terminated.
pub open spec fn patch_line(e: PatchEntryV) -> Seq<u8> {
    patch_line_body(e) + seq![10u8]
}

/// A whole patch file: the records in order.
pub open spec fn patch_text(ev: Seq<PatchEntryV>) -> Seq<u8>
    decreases ev.len(),
{
    if ev.len() == 0 {
        Seq::empty()
    } else {
        patch_line(ev[0]) + patch_text(ev.drop_first())
    }
}

pub proof fn lemma_patch_text_snoc(ev: Seq<PatchEntryV>, e: PatchEntryV)
    ensures
        patch_text(ev.push(e)) == patch_text(ev) + patch_line(e),
    decreases ev.len(),
{
    if ev.len() == 0 {
        assert(ev.push(e)[0] == e);
        assert(ev.push(e).drop_first() =~= Seq::<PatchEntryV>::empty());
        assert(patch_text(Seq::<PatchEntryV>::empty()) =~= Seq::<u8>::empty());
        assert(patch_text(ev.push(e)) =~= patch_line(e));
        assert(patch_text(ev) + patch_line(e) =~= patch_line(e));
    } else {
        assert(ev.push(e).drop_first() =~= ev.drop_first().push(e));
        assert(ev.push(e)[0] == ev[0]);
        lemma_patch_text_snoc(ev.drop_first(), e);
        assert(patch_text(ev.push(e)) =~= patch_text(ev) + patch_line(e));
    }
}

/// A byte of base64 text: letters, digits, '+', '/' and '='.
pub open spec fn is_b64_byte(x: u8) -> bool {
    x == 43 || x == 47 || (48 <= x <= 57) || x == 61 || (65 <= x <= 90) || (97 <= x <= 122)
}

proof fn lemma_b64_bytes_class(d: Seq<u8>)
    requires
        b64_charset_ok(d),
    ensures
        forall|i: int|
            0 <= i < base64_bytes_of(d).len() ==> is_b64_byte(#[trigger] base64_bytes_of(d)[i]),
{
    let cs = base64_of(d);
    let bs = base64_bytes_of(d);
    assert forall|i: int| 0 <= i < bs.len() implies is_b64_byte(#[trigger] bs[i]) by {
        assert(is_base64_char(cs[i]));
        assert(bs[i] == cs[i] as u8);
    }
}

/// Where the colons and fields of one record lie.
proof fn lemma_line_fields(e: PatchEntryV, line: Seq<u8>)
    requires
        wf_line_entry(e),
        line == patch_line_body(e),
    ensures
        ({
            let d0 = dec_digits(e.offset as nat);
            let d1 = dec_digits(e.length as nat);
            let bb = base64_bytes_of(e.data);
            &&& line.len() == d0.len() + 1 + d1.len() + 1 + bb.len()
            &&& line[d0.len() as int] == 58
            &&& forall|i: int| 0 <= i < d0.len() ==> line[i] != 58
            &&& line[d0.len() + 1 + d1.len() as int] == 58
            &&& forall|i: int| d0.len() + 1 <= i < d0.len() + 1 + d1.len() ==> line[i] != 58
            &&& line.subrange(0, d0.len() as int) == d0
            &&& line.subrange(d0.len() + 1 as int, d0.len() + 1 + d1.len() as int) == d1
            &&& line.subrange(d0.len() + 1 + d1.len() + 1 as int, line.len() as int) == bb
            &&& forall|i: int| 0 <= i < line.len() ==> line[i] != 10 && line[i] != 13
        }),
{
    let d0 = dec_digits(e.offset as nat);
    let d1 = dec_digits(e.length as nat);
    let bb = base64_bytes_of(e.data);
    lemma_dec_round_trip(e.offset as nat);
    lemma_dec_round_trip(e.length as nat);
    lemma_b64_bytes_class(e.data);
    assert(line.subrange(0, d0.len() as int) =~= d0);
    assert(line.subrange(d0.len() + 1 as int, d0.len() + 1 + d1.len() as int) =~= d1);
    assert(line.subrange(d0.len() + 1 + d1.len() + 1 as int, line.len() as int) =~= bb);
    assert forall|i: int| 0 <= i < line.len() implies line[i] != 10 && line[i] != 13 by {
        if i < d0.len() {
            assert(line[i] == d0[i]);
            assert(48 <= d0[i] <= 57);
        } else if i == d0.len() {
        } else if i < d0.len() + 1 + d1.len() {
            assert(line[i] == d1[i - d0.len() - 1]);
            assert(48 <= d1[i - d0.len() - 1] <= 57);
        } else if i == d0.len() + 1 + d1.len() {
        } else {
            assert(line[i] == bb[i - (d0.len() + 1 + d1.len() + 1)]);
            assert(is_b64_byte(bb[i - (d0.len() + 1 + d1.len() + 1)]));
        }
    }
    assert forall|i: int| 0 <= i < d0.len() implies line[i] != 58 by {
        assert(line[i] == d0[i]);
        assert(48 <= d0[i] <= 57);
    }
    assert forall|i: int| d0.len() + 1 <= i < d0.len() + 1 + d1.len() implies line[i] != 58 by {
        assert(line[i] == d1[i - d0.len() - 1]);
        assert(48 <= d1[i - d0.len() - 1] <= 57);
    }
}

/// Write a patch as text.  The charset clause hands callers what the
/// round-trip contract of `parse_patch_text` asks about each entry.
pub fn encode_patch(entries: &Vec<PatchEntry>) -> (r: Vec<u8>)
    ensures
        r@ == patch_text(patch_view(entries@)),
        wf_patch_entries(patch_view(entries@)),
{
    let n = entries.len();
    let mut out: Vec<u8> = Vec::new();
    let mut k: usize = 0;
    while k < n
        invariant
            n == entries@.len(),
            0 <= k <= n,
            out@ == patch_text(patch_view(entries@).take(k as int)),
            forall|i: int| 0 <= i < k ==> wf_line_entry(#[trigger] patch_view(entries@)[i]),
        decreases n - k,
    {
        let e = &entries[k];
        push_dec(e.offset as u64, &mut out);
        out.push(58);
        push_dec(e.length as u64, &mut out);
        out.push(58);
        let s = b64_encode(e.data.as_slice());
        let mut bs = s.as_str().as_bytes_vec();
        proof {
            lemma_base64_ascii(e.data@);
        }
        out.append(&mut bs);
        out.push(10);
        proof {
            lemma_patch_text_snoc(patch_view(entries@).take(k as int), e@);
            assert(patch_view(entries@).take(k + 1) =~= patch_view(entries@).take(k as int).push(
                e@,
            ));
            assert(out@ =~= patch_text(patch_view(entries@).take(k as int)) + patch_line(e@));
        }
        k = k + 1;
    }
    assert(patch_view(entries@).take(n as int) =~= patch_view(entries@));
    out
}

enum LineParse {
    Skip,
    Bad(PatchTextError),
    Val(usize, usize, Vec<u8>),
}

/// Read one line (without its newline).  A line holding fewer than two
/// colons has too few fields and is skipped; on the text of a well-formed
/// entry the parser yields exactly that entry's fields.
fn parse_line_fields(line: &[u8]) -> (r: LineParse)
    ensures
        at_most_one_colon(line@) ==> r is Skip,
        forall|e: PatchEntryV|
            wf_line_entry(e) && line@ == patch_line_body(e) ==> (r matches LineParse::Val(o, l, d)
                && o as int == e.offset && l as int == e.length && d@ == e.data),
{
    let n = line.len();
    let c1 = match find_byte_in(line, 0, n, 58) {
        Option::Some(j) => j,
        Option::None => {
            proof {
                assert forall|e: PatchEntryV|
                    wf_line_entry(e) && line@ == patch_line_body(e) implies false by {
                    lemma_line_fields(e, line@);
                }
            }
            return LineParse::Skip;
        },
    };
    let c2 = match find_byte_in(line, c1 + 1, n, 58) {
        Option::Some(j) => j,
        Option::None => {
            proof {
                assert forall|e: PatchEntryV|
                    wf_line_entry(e) && line@ == patch_line_body(e) implies false by {
                    lemma_line_fields(e, line@);
                    let d0 = dec_digits(e.offset as nat);
                    let d1 = dec_digits(e.length as nat);
                    assert(c1 == d0.len());
                    assert(line@[d0.len() + 1 + d1.len() as int] == 58);
                }
            }
            return LineParse::Skip;
        },
    };
    proof {
        assert(!at_most_one_colon(line@)) by {
            assert(line@[c1 as int] == 58 && line@[c2 as int] == 58 && c1 < c2);
        }
        assert forall|e: PatchEntryV|
            wf_line_entry(e) && line@ == patch_line_body(e) implies ({
            let d0 = dec_digits(e.offset as nat);
            let d1 = dec_digits(e.length as nat);
            let bb = base64_bytes_of(e.data);
            c1 == d0.len() && c2 == d0.len() + 1 + d1.len() && line@.subrange(0, c1 as int) == d0
                && line@.subrange(c1 + 1, c2 as int) == d1 && line@.subrange(c2 + 1, n as int)
                == bb
        }) by {
            lemma_line_fields(e, line@);
        }
    }
    let f0 = vstd::slice::slice_subrange(line, 0, c1);
    let v0 = match parse_dec(f0) {
        Option::Some(v) => v,
        Option::None => {
            proof {
                assert forall|e: PatchEntryV|
                    wf_line_entry(e) && line@ == patch_line_body(e) implies false by {
                    lemma_dec_round_trip(e.offset as nat);
                }
            }
            return LineParse::Bad(PatchTextError::BadNumber);
        },
    };
    let f1 = vstd::slice::slice_subrange(line, c1 + 1, c2);
    let v1 = match parse_dec(f1) {
        Option::Some(v) => v,
        Option::None => {
            proof {
                assert forall|e: PatchEntryV|
                    wf_line_entry(e) && line@ == patch_line_body(e) implies false by {
                    lemma_dec_round_trip(e.length as nat);
                }
            }
            return LineParse::Bad(PatchTextError::BadNumber);
        },
    };
    if v0 > (usize::MAX as u64) || v1 > (usize::MAX as u64) {
        proof {
            assert forall|e: PatchEntryV|
                wf_line_entry(e) && line@ == patch_line_body(e) implies false by {
                lemma_dec_round_trip(e.offset as nat);
                lemma_dec_round_trip(e.length as nat);
            }
        }
        return LineParse::Bad(PatchTextError::BadNumber);
    }
    let f2 = vstd::slice::slice_subrange(line, c2 + 1, n);
    let d = match b64_decode(f2) {
        Option::Some(d) => d,
        Option::None => {
            proof {
                assert forall|e: PatchEntryV|
                    wf_line_entry(e) && line@ == patch_line_body(e) implies false by {
                    assert(f2@ == base64_bytes_of(e.data));
                }
            }
            return LineParse::Bad(PatchTextError::BadData);
        },
    };
    proof {
        assert forall|e: PatchEntryV|
            wf_line_entry(e) && line@ == patch_line_body(e) implies (v0 as int == e.offset
            && v1 as int == e.length && d@ == e.data) by {
            lemma_dec_round_trip(e.offset as nat);
            lemma_dec_round_trip(e.length as nat);
            assert(f2@ == base64_bytes_of(e.data));
        }
    }
    LineParse::Val(v0 as usize, v1 as usize, d)
}

/// At most one colon: a line in this shape has fewer than three fields
/// and is skipped rather than rejected.
pub open spec fn at_most_one_colon(l: Seq<u8>) -> bool {
    forall|i: int, j: int| 0 <= i < j < l.len() ==> !((#[trigger] l[i]) == 58 && (#[trigger] l[j]) == 58)
}

/// A line with its trailing carriage return, if any, removed.
pub open spec fn strip_cr(l: Seq<u8>) -> Seq<u8> {
    if l.len() > 0 && l.last() == 13 {
        l.drop_last()
    } else {
        l
    }
}

/// The first position at or after `pos` holding a newline, or the length.
pub open spec fn find_nl(s: Seq<u8>, pos: int) -> int
    decreases s.len() - pos,
{
    if pos < 0 {
        0
    } else if pos >= s.len() {
        s.len() as int
    } else if s[pos] == 10 {
        pos
    } else {
        find_nl(s, pos + 1)
    }
}

proof fn lemma_find_nl_from(s: Seq<u8>, pos: int, j: int)
    requires
        0 <= pos <= j <= s.len(),
        forall|i: int| pos <= i < j ==> s[i] != 10,
        j == s.len() || s[j] == 10,
    ensures
        find_nl(s, pos) == j,
    decreases j - pos,
{
    if pos < j {
        lemma_find_nl_from(s, pos + 1, j);
    }
}

/// Where the first line of the text ends, clamped into range.
pub open spec fn nl_clamped(s: Seq<u8>) -> int {
    let x = find_nl(s, 0);
    if x < 0 {
        0
    } else if x > s.len() {
        s.len() as int
    } else {
        x
    }
}

/// The first line's content: up to the first newline, with a trailing
/// carriage return removed.
pub open spec fn first_core(s: Seq<u8>) -> Seq<u8> {
    strip_cr(s.subrange(0, nl_clamped(s)))
}

/// What follows the first line.
pub open spec fn first_rest(s: Seq<u8>) -> Seq<u8> {
    if nl_clamped(s) >= s.len() {
        Seq::empty()
    } else {
        s.skip(nl_clamped(s) + 1)
    }
}

/// The text reads as the given entries, line by line: a line with fewer
/// than two colons is skipped, and every other line is the exact record
/// of the next entry.  This is the reader's documented leniency; the
/// canonical text of well-formed entries is the skip-free special case.
pub open spec fn lenient_patch_text(text: Seq<u8>, ev: Seq<PatchEntryV>) -> bool
    decreases text.len(),
{
    if text.len() == 0 {
        ev.len() == 0
    } else if at_most_one_colon(first_core(text)) {
        lenient_patch_text(first_rest(text), ev)
    } else {
        ev.len() > 0 && wf_line_entry(ev[0]) && first_core(text) == patch_line_body(ev[0])
            && lenient_patch_text(first_rest(text), ev.drop_first())
    }
}

/// Canonical text of well-formed entries reads leniently as exactly
/// those entries.
pub proof fn lemma_canonical_patch_is_lenient(ev: Seq<PatchEntryV>)
    requires
        wf_patch_entries(ev),
    ensures
        lenient_patch_text(patch_text(ev), ev),
    decreases ev.len(),
{
    if ev.len() > 0 {
        let e = ev[0];
        let body = patch_line_body(e);
        let bl = body.len() as int;
        let text = patch_text(ev);
        let rest = patch_text(ev.drop_first());
        assert(text == patch_line(e) + rest);
        lemma_line_fields(e, body);
        assert(bl >= 1) by {
            assert(body[dec_digits(e.offset as nat).len() as int] == 58);
        }
        assert(text.len() == bl + 1 + rest.len());
        assert forall|i: int| 0 <= i < bl implies text[i] != 10 by {
            assert(text[i] == body[i]);
        }
        assert(text[bl] == 10) by {
            assert(patch_line(e)[bl] == 10);
        }
        lemma_find_nl_from(text, 0, bl);
        assert(nl_clamped(text) == bl);
        assert(text.subrange(0, bl) =~= body);
        assert(body.last() != 13);
        assert(first_core(text) == body);
        assert(!at_most_one_colon(body)) by {
            let d0 = dec_digits(e.offset as nat);
            let d1 = dec_digits(e.length as nat);
            assert(body[d0.len() as int] == 58);
            assert(body[d0.len() + 1 + d1.len() as int] == 58);
        }
        assert(first_rest(text) =~= rest);
        lemma_canonical_patch_is_lenient(ev.drop_first());
        assert(ev.drop_first() =~= ev.skip(1));
        assert(lenient_patch_text(text, ev));
    }
}

#[derive(Debug)]
pub enum PatchTextError {
    BadNumber,
    BadData,
}

/// The canonical text of some well-formed entry sequence.
pub open spec fn is_canonical_patch(text: Seq<u8>, ev: Seq<PatchEntryV>) -> bool {
    text == patch_text(ev) && wf_patch_entries(ev)
}

spec fn parse_step_ok(text: Seq<u8>, done: Seq<PatchEntryV>, pos: int, ev: Seq<PatchEntryV>) -> bool {
    &&& done.len() <= ev.len()
    &&& done == ev.take(done.len() as int)
    &&& 0 <= pos <= text.len()
    &&& lenient_patch_text(text.skip(pos), ev.skip(done.len() as int))
}

/// Read a patch file.  Any text that reads leniently as an entry
/// sequence — canonical records, with extra sub-three-field lines skipped
/// — returns exactly that sequence; in particular the canonical text
/// written by `encode_patch` does.  The call fails only on text no entry
/// sequence reads from: a line with three or more fields whose number or
/// data field is not a record's.
pub fn parse_patch_text(text: &[u8]) -> (r: Result<Vec<PatchEntry>, PatchTextError>)
    ensures
        forall|ev: Seq<PatchEntryV>|
            lenient_patch_text(text@, ev) ==> (r matches Result::Ok(out) && patch_view(out@)
                == ev),
        forall|ev: Seq<PatchEntryV>|
            is_canonical_patch(text@, ev) ==> (r matches Result::Ok(out) && patch_view(out@)
                == ev),
        r is Err ==> forall|ev: Seq<PatchEntryV>| !lenient_patch_text(text@, ev),
{
    let n = text.len();
    let mut out: Vec<PatchEntry> = Vec::new();
    let mut pos: usize = 0;
    proof {
        assert forall|ev: Seq<PatchEntryV>|
            lenient_patch_text(text@, ev) implies parse_step_ok(
            text@,
            patch_view(out@),
            0,
            ev,
        ) by {
            assert(patch_view(out@) =~= ev.take(0));
            assert(text@.skip(0) =~= text@);
            assert(ev.skip(0) =~= ev);
        }
    }
    while pos < n
        invariant
            n == text@.len(),
            0 <= pos <= n,
            forall|ev: Seq<PatchEntryV>|
                lenient_patch_text(text@, ev) ==> parse_step_ok(
                    text@,
                    patch_view(out@),
                    pos as int,
                    ev,
                ),
        decreases n - pos,
    {
        let ghost old_out = out@;
        let ghost old_pos = pos as int;
        let nl = find_byte_in(text, pos, n, 10);
        let line_end = match nl {
            Option::Some(j) => j,
            Option::None => n,
        };
        let next_pos = match nl {
            Option::Some(j) => j + 1,
            Option::None => n,
        };
        let seg_end = if line_end > pos && text[line_end - 1] == 13 {
            line_end - 1
        } else {
            line_end
        };
        let ghost suffix = text@.skip(old_pos);
        proof {
            assert(suffix.len() == n - old_pos);
            assert forall|i: int| old_pos <= i < line_end implies text@[i] != 10 by {}
            assert forall|i: int| 0 <= i < line_end - old_pos implies suffix[i] != 10 by {
                assert(suffix[i] == text@[old_pos + i]);
            }
            if line_end < n {
                assert(suffix[line_end - old_pos] == text@[line_end as int]);
            }
            lemma_find_nl_from(suffix, 0, line_end - old_pos);
            assert(nl_clamped(suffix) == line_end - old_pos);
            assert(suffix.subrange(0, line_end - old_pos) =~= text@.subrange(
                old_pos,
                line_end as int,
            ));
            assert(first_core(suffix) =~= text@.subrange(old_pos, seg_end as int)) by {
                let line = suffix.subrange(0, line_end - old_pos);
                if line.len() > 0 && line.last() == 13 {
                    assert(text@[line_end - 1] == 13);
                    assert(seg_end == line_end - 1);
                    assert(strip_cr(line) =~= text@.subrange(old_pos, seg_end as int));
                } else {
                    assert(seg_end == line_end) by {
                        if line_end > old_pos {
                            assert(line.last() == text@[line_end - 1]);
                        }
                    }
                }
            }
            assert(first_rest(suffix) =~= text@.skip(next_pos as int)) by {
                if line_end < n {
                    crate::chartext::lemma_skip_skip(text@, old_pos, line_end - old_pos + 1);
                } else {
                    assert(text@.skip(n as int).len() == 0);
                }
            }
        }
        let seg = vstd::slice::slice_subrange(text, pos, seg_end);
        assert(seg@ == first_core(suffix));
        match parse_line_fields(seg) {
            LineParse::Skip => {
                proof {
                    assert forall|ev: Seq<PatchEntryV>|
                        lenient_patch_text(text@, ev) implies parse_step_ok(
                        text@,
                        patch_view(out@),
                        next_pos as int,
                        ev,
                    ) by {
                        let k = patch_view(old_out).len() as int;
                        if !at_most_one_colon(first_core(suffix)) {
                            assert(first_core(suffix) == patch_line_body(ev.skip(k)[0]));
                            assert(wf_line_entry(ev.skip(k)[0]));
                        }
                        assert(lenient_patch_text(first_rest(suffix), ev.skip(k)));
                    }
                }
            },
            LineParse::Bad(err) => {
                proof {
                    assert forall|ev: Seq<PatchEntryV>|
                        lenient_patch_text(text@, ev) implies false by {
                        let k = patch_view(old_out).len() as int;
                        if !at_most_one_colon(first_core(suffix)) {
                            assert(first_core(suffix) == patch_line_body(ev.skip(k)[0]));
                            assert(wf_line_entry(ev.skip(k)[0]));
                        }
                    }
                }
                proof {
                    assert forall|ev: Seq<PatchEntryV>|
                        is_canonical_patch(text@, ev) implies false by {
                        lemma_canonical_patch_is_lenient(ev);
                    }
                }
                return Result::Err(err);
            },
            LineParse::Val(o, l, d) => {
                let ghost nv = PatchEntryV { offset: o as int, length: l as int, data: d@ };
                out.push(PatchEntry { offset: o, length: l, data: d });
                proof {
                    assert(patch_view(out@) =~= patch_view(old_out).push(nv));
                    assert forall|ev: Seq<PatchEntryV>|
                        lenient_patch_text(text@, ev) implies parse_step_ok(
                        text@,
                        patch_view(out@),
                        next_pos as int,
                        ev,
                    ) by {
                        let k = patch_view(old_out).len() as int;
                        assert(!at_most_one_colon(first_core(suffix)));
                        assert(first_core(suffix) == patch_line_body(ev.skip(k)[0]));
                        assert(wf_line_entry(ev.skip(k)[0]));
                        assert(ev.skip(k)[0] == ev[k]);
                        assert(nv == ev[k]);
                        assert(patch_view(out@) =~= ev.take(k + 1));
                        assert(ev.skip(k).drop_first() =~= ev.skip(k + 1));
                        assert(lenient_patch_text(first_rest(suffix), ev.skip(k + 1)));
                    }
                }
            },
        }
        pos = next_pos;
    }
    proof {
        assert forall|ev: Seq<PatchEntryV>|
            lenient_patch_text(text@, ev) implies patch_view(out@) == ev by {
            let k = patch_view(out@).len() as int;
            assert(text@.skip(pos as int).len() == 0);
            assert(ev.skip(k).len() == 0);
            assert(patch_view(out@) =~= ev);
        }
        assert forall|ev: Seq<PatchEntryV>|
            is_canonical_patch(text@, ev) implies lenient_patch_text(text@, ev) by {
            lemma_canonical_patch_is_lenient(ev);
        }
    }
    Result::Ok(out)
}

} // verus!
