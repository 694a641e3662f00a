use rustpack::patch::{apply, diff, PatchEntry};
use rustpack::patch_text::{encode_patch, parse_patch_text, PatchTextError};

fn roundtrip(a: &[u8], b: &[u8]) -> Vec<u8> {
    let entries = diff(a, b);
    apply(a, &entries)
}

#[test]
fn patch_rebuilds_simple_edit() {
    assert_eq!(roundtrip(b"abcdef", b"abXYef"), b"abXYef".to_vec());
}

#[test]
fn patch_rebuilds_from_empty_source() {
    assert_eq!(roundtrip(b"", b"hello world"), b"hello world".to_vec());
}

#[test]
fn patch_rebuilds_onto_empty_target_when_source_empty() {
    assert_eq!(roundtrip(b"", b""), b"".to_vec());
}

#[test]
fn patch_of_equal_inputs_is_empty() {
    let entries = diff(b"same bytes", b"same bytes");
    assert_eq!(entries.len(), 0);
    assert_eq!(apply(b"same bytes", &entries), b"same bytes".to_vec());
}

#[test]
fn patch_rebuilds_growth_at_end() {
    assert_eq!(roundtrip(b"abc", b"abcdefgh"), b"abcdefgh".to_vec());
}

#[test]
fn patch_rebuilds_total_rewrite() {
    assert_eq!(roundtrip(b"aaaaaaaa", b"bbbbbbbb"), b"bbbbbbbb".to_vec());
}

#[test]
fn patch_keeps_source_tail_when_target_shorter() {
    // Patches only overwrite, never truncate: the source's tail survives.
    let out = roundtrip(b"abcdef", b"ab");
    assert_eq!(out, b"abcdef".to_vec());
}

#[test]
fn patch_rebuilds_interleaved_changes() {
    let a = b"0123456789012345678901234567890123456789";
    let b = b"01X3456789012Y456789012345678Z0123456789";
    assert_eq!(roundtrip(a, b), b.to_vec());
}

#[test]
fn patch_text_round_trip() {
    let entries = diff(b"abcdef", b"abXYef");
    let text = encode_patch(&entries);
    let back = parse_patch_text(&text).expect("canonical patch text must parse");
    assert_eq!(back.len(), entries.len());
    for (x, y) in back.iter().zip(entries.iter()) {
        assert_eq!(x.offset, y.offset);
        assert_eq!(x.length, y.length);
        assert_eq!(x.data, y.data);
    }
}

#[test]
fn patch_text_exact_encoding() {
    // One entry covering two fresh bytes: offset 0, length 2, base64 "YWI=".
    let entries = diff(b"", b"ab");
    let text = encode_patch(&entries);
    assert_eq!(text, b"0:2:YWI=\n".to_vec());
}

#[test]
fn patch_text_skips_short_lines() {
    let text = b"not a record\n0:2:YWI=\n".to_vec();
    let back = parse_patch_text(&text).expect("short lines are skipped, not fatal");
    assert_eq!(back.len(), 1);
    assert_eq!(back[0].offset, 0);
    assert_eq!(back[0].length, 2);
    assert_eq!(back[0].data, b"ab".to_vec());
}

#[test]
fn patch_text_rejects_bad_number() {
    let text = b"zz:2:YWI=\n".to_vec();
    assert!(matches!(parse_patch_text(&text), Err(PatchTextError::BadNumber)));
}

#[test]
fn patch_text_rejects_bad_data() {
    let text = b"0:2:!!!!\n".to_vec();
    assert!(matches!(parse_patch_text(&text), Err(PatchTextError::BadData)));
}

#[test]
fn applied_parsed_patch_matches_direct_apply() {
    let a = b"The quick brown fox jumps over the lazy dog".to_vec();
    let b = b"The quick brown cat jumps over the lazy dog!".to_vec();
    let entries = diff(&a, &b);
    let text = encode_patch(&entries);
    let parsed: Vec<PatchEntry> = parse_patch_text(&text).unwrap();
    assert_eq!(apply(&a, &parsed), b);
}

#[test]
fn patch_text_handles_empty_data_field() {
    let entries = vec![PatchEntry { offset: 3, length: 0, data: Vec::new() }];
    let text = encode_patch(&entries);
    assert_eq!(text, b"3:0:\n".to_vec());
    let back = parse_patch_text(&text).unwrap();
    assert_eq!(back.len(), 1);
    assert_eq!(back[0].offset, 3);
    assert_eq!(back[0].length, 0);
    assert!(back[0].data.is_empty());
}

#[test]
fn patch_text_tolerates_carriage_returns() {
    let text = b"0:2:YWI=\r\n".to_vec();
    let back = parse_patch_text(&text).unwrap();
    assert_eq!(back[0].data, b"ab".to_vec());
}

#[test]
fn patch_text_skips_interleaved_junk_lines() {
    let text = b"junk header\n0:2:YWI=\nno colons here\n2:1:WA==\ntrailer\n".to_vec();
    let back = parse_patch_text(&text).expect("sub-three-field lines are skipped");
    assert_eq!(back.len(), 2);
    assert_eq!((back[0].offset, back[0].length), (0, 2));
    assert_eq!(back[0].data, b"ab".to_vec());
    assert_eq!((back[1].offset, back[1].length), (2, 1));
    assert_eq!(back[1].data, b"X".to_vec());
}
