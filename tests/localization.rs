use gdsearch::arc_parser::ArcParser;
use gdsearch::error::DecodeError;

fn u32s(out: &mut Vec<u8>, vals: &[u32]) {
    for v in vals {
        out.extend_from_slice(&v.to_le_bytes());
    }
}

/// An archive with two named segments, the second holding `manifest` raw.
fn archive(version: u32, manifest_name: &str, manifest: &[u8]) -> Vec<u8> {
    stored(version, manifest_name, manifest, manifest.len() as u32)
}

/// An archive whose second segment holds `payload`, declared to decompress to `full` bytes.
fn stored(version: u32, manifest_name: &str, payload: &[u8], full: u32) -> Vec<u8> {
    let manifest = payload;
    let names = [b"other.txt".as_slice(), manifest_name.as_bytes()];
    let record_offset = 28u32;
    let record_len = 2 * 12u32;
    let string_table_len: u32 = names.iter().map(|n| n.len() as u32 + 1).sum();
    let headers_at = record_offset + record_len + string_table_len;
    let payload_at = headers_at + 2 * 44;
    let mut out = Vec::new();
    u32s(&mut out, &[0, version, 2, 2, record_len, string_table_len, record_offset]);
    u32s(&mut out, &[payload_at, 0, 0]);
    u32s(&mut out, &[payload_at, manifest.len() as u32, full]);
    for n in names {
        out.extend_from_slice(n);
        out.push(0);
    }
    out.extend_from_slice(&[0u8; 88]);
    out.extend_from_slice(manifest);
    out
}

#[test]
fn manifest_lines_become_entries() {
    let mut p = ArcParser::new();
    p.add_archive(archive(3, "tags_items.txt", b"a=1\nb=2\n#c\n\n")).unwrap();
    assert_eq!(p.map.get(&"a".to_string()), Some(&"1".to_string()));
    assert_eq!(p.map.get(&"b".to_string()), Some(&"2".to_string()));
    assert_eq!(p.map.get(&"#c".to_string()), None);
    assert_eq!(p.map.get(&"c".to_string()), None);
    assert_eq!(p.map.get(&"".to_string()), None);
}

#[test]
fn wrong_version_fails_before_records() {
    let mut p = ArcParser::new();
    assert_eq!(p.add_archive(archive(2, "tags_items.txt", b"a=1\n")), Err(DecodeError::BadHeader));
    assert_eq!(p.map.get(&"a".to_string()), None);
    let mut header_only = Vec::new();
    u32s(&mut header_only, &[0, 4, 0, 0, 0, 0, 0]);
    assert_eq!(p.add_archive(header_only), Err(DecodeError::BadHeader));
}

#[test]
fn short_archive_is_out_of_bounds() {
    let mut p = ArcParser::new();
    assert_eq!(p.add_archive(vec![0; 27]), Err(DecodeError::OutOfBounds));
}

#[test]
fn later_duplicate_key_wins_and_values_keep_equals() {
    let mut p = ArcParser::new();
    p.add_archive(archive(3, "tagsgdx1_items.txt", b"k=first\r\nk=second=x\nz=\n")).unwrap();
    assert_eq!(p.map.get(&"k".to_string()), Some(&"second=x".to_string()));
    assert_eq!(p.map.get(&"z".to_string()), Some(&"".to_string()));
}

#[test]
fn later_archive_overrides_earlier() {
    let mut p = ArcParser::new();
    p.add_archive(archive(3, "tags_items.txt", b"a=base\nb=keep\n")).unwrap();
    p.add_archive(archive(3, "tagsgdx2_items.txt", b"a=expansion\n")).unwrap();
    assert_eq!(p.map.get(&"a".to_string()), Some(&"expansion".to_string()));
    assert_eq!(p.map.get(&"b".to_string()), Some(&"keep".to_string()));
}

#[test]
fn missing_manifest_is_reported() {
    let mut p = ArcParser::new();
    assert_eq!(p.add_archive(archive(3, "tags_skills.txt", b"a=1\n")), Err(DecodeError::MissingManifest));
}

#[test]
fn line_without_equals_adds_nothing() {
    let mut p = ArcParser::new();
    assert_eq!(p.add_archive(archive(3, "tags_items.txt", b"a=1\nbroken\n")), Err(DecodeError::MalformedLine));
    assert_eq!(p.map.get(&"a".to_string()), None);
}

#[test]
fn manifest_payload_directly() {
    let mut p = ArcParser::new();
    p.add_manifest(b"x=y\n\n# note\ny=z").unwrap();
    assert_eq!(p.map.get(&"x".to_string()), Some(&"y".to_string()));
    assert_eq!(p.map.get(&"y".to_string()), Some(&"z".to_string()));
    assert_eq!(p.add_manifest(b"k=\xff\n"), Err(DecodeError::InvalidText));
}

#[test]
fn compressed_manifest_is_decompressed() {
    let text = b"alpha=one\nbeta=two\nalpha=three\n";
    let packed = lz4::block::compress(text, None, false).unwrap();
    assert_ne!(packed.len(), text.len());
    let mut p = ArcParser::new();
    p.add_archive(stored(3, "tags_items.txt", &packed, text.len() as u32)).unwrap();
    assert_eq!(p.map.get(&"alpha".to_string()), Some(&"three".to_string()));
    assert_eq!(p.map.get(&"beta".to_string()), Some(&"two".to_string()));
}

#[test]
fn corrupt_compressed_manifest_fails() {
    let mut p = ArcParser::new();
    assert_eq!(p.add_archive(stored(3, "tags_items.txt", &[0xFF, 0xFF, 0xFF], 100)), Err(DecodeError::Decompression));
}
