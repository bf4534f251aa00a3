//! Packed archive: opening, listing, lookup.

use starbound_assets::{ErrorKind, PackedAssets};

fn minimal_archive() -> Vec<u8> {
    // "SBAsset6", index offset 16, then at 16: "INDEX", empty metadata
    // object (pair count 0) and an empty directory (entry count 0)
    let mut v: Vec<u8> = Vec::new();
    v.extend_from_slice(b"SBAsset6");
    v.extend_from_slice(&[0, 0, 0, 0, 0, 0, 0, 16]);
    v.extend_from_slice(b"INDEX");
    v.push(0x00); // metadata: empty object payload
    v.push(0x00); // directory: no entries
    v
}

#[test]
fn minimal_archive_opens_empty() {
    let pa = PackedAssets::new(minimal_archive()).expect("minimal archive must open");
    assert!(pa.assets().is_empty());
    assert_eq!(pa.metadata().len(), 0);
}

#[test]
fn single_entry_archive() {
    // payload "hello" at offset 16, index section after it at 21
    let mut v: Vec<u8> = Vec::new();
    v.extend_from_slice(b"SBAsset6");
    v.extend_from_slice(&[0, 0, 0, 0, 0, 0, 0, 21]);
    v.extend_from_slice(b"hello");
    v.extend_from_slice(b"INDEX");
    v.push(0x00); // empty metadata object
    v.push(0x01); // one directory entry
    v.push(0x06); // path length
    v.extend_from_slice(b"/a.txt");
    v.extend_from_slice(&[0, 0, 0, 0, 0, 0, 0, 16]); // start
    v.extend_from_slice(&[0, 0, 0, 0, 0, 0, 0, 5]); // length
    let pa = PackedAssets::new(v).expect("single-entry archive must open");
    assert_eq!(pa.assets(), vec![String::from("/a.txt")]);
    assert_eq!(pa.file("/a.txt"), Some(&b"hello"[..]));
    assert_eq!(pa.file("/missing"), None);
}

#[test]
fn duplicate_paths_later_wins() {
    // two directory entries for the same path; the later range wins
    let mut v: Vec<u8> = Vec::new();
    v.extend_from_slice(b"SBAsset6");
    v.extend_from_slice(&[0, 0, 0, 0, 0, 0, 0, 21]);
    v.extend_from_slice(b"hello");
    v.extend_from_slice(b"INDEX");
    v.push(0x00);
    v.push(0x02);
    v.push(0x02);
    v.extend_from_slice(b"/x");
    v.extend_from_slice(&[0, 0, 0, 0, 0, 0, 0, 16]);
    v.extend_from_slice(&[0, 0, 0, 0, 0, 0, 0, 5]);
    v.push(0x02);
    v.extend_from_slice(b"/x");
    v.extend_from_slice(&[0, 0, 0, 0, 0, 0, 0, 17]);
    v.extend_from_slice(&[0, 0, 0, 0, 0, 0, 0, 2]);
    let pa = PackedAssets::new(v).expect("archive with duplicate paths must open");
    assert_eq!(pa.assets(), vec![String::from("/x")]);
    assert_eq!(pa.file("/x"), Some(&b"el"[..]));
}

#[test]
fn metadata_entries_are_read() {
    // metadata object { "name": "pak" }, empty directory
    let mut v: Vec<u8> = Vec::new();
    v.extend_from_slice(b"SBAsset6");
    v.extend_from_slice(&[0, 0, 0, 0, 0, 0, 0, 16]);
    v.extend_from_slice(b"INDEX");
    v.push(0x01); // one metadata pair
    v.push(0x04);
    v.extend_from_slice(b"name");
    v.push(0x05); // string value
    v.push(0x03);
    v.extend_from_slice(b"pak");
    v.push(0x00); // no directory entries
    let pa = PackedAssets::new(v).expect("archive with metadata must open");
    let meta = pa.metadata();
    assert_eq!(meta.len(), 1);
    assert_eq!(
        meta.get("name"),
        Some(&starbound_assets::Value::String(String::from("pak")))
    );
}

#[test]
fn bad_magic_is_malformed_header() {
    let mut v = minimal_archive();
    v[0] = b'X';
    let e = PackedAssets::new(v).expect_err("bad magic must fail");
    assert_eq!(e.kind, ErrorKind::MalformedHeader);
    assert_eq!(e.offset, 0);
}

#[test]
fn short_file_is_truncated() {
    let e = PackedAssets::new(b"SBAsset6".to_vec()).expect_err("missing offset must fail");
    assert_eq!(e.kind, ErrorKind::TruncatedInput);
}

#[test]
fn index_offset_past_end_is_truncated() {
    let mut v: Vec<u8> = Vec::new();
    v.extend_from_slice(b"SBAsset6");
    v.extend_from_slice(&[0xff, 0, 0, 0, 0, 0, 0, 0]);
    let e = PackedAssets::new(v).expect_err("index offset past the end must fail");
    assert_eq!(e.kind, ErrorKind::TruncatedInput);
}

#[test]
fn bad_index_magic_is_malformed_header() {
    let mut v = minimal_archive();
    v[16] = b'X'; // "INDEX" -> "XNDEX"
    let e = PackedAssets::new(v).expect_err("bad index magic must fail");
    assert_eq!(e.kind, ErrorKind::MalformedHeader);
    assert_eq!(e.offset, 16);
}

#[test]
fn directory_entry_out_of_range_is_truncated() {
    // one entry whose range runs past the end of the file
    let mut v: Vec<u8> = Vec::new();
    v.extend_from_slice(b"SBAsset6");
    v.extend_from_slice(&[0, 0, 0, 0, 0, 0, 0, 16]);
    v.extend_from_slice(b"INDEX");
    v.push(0x00);
    v.push(0x01);
    v.push(0x02);
    v.extend_from_slice(b"/x");
    v.extend_from_slice(&[0, 0, 0, 0, 0, 0, 0, 16]); // start
    v.extend_from_slice(&[0, 0, 0, 0, 0, 0, 0xff, 0]); // length far past the end
    let e = PackedAssets::new(v).expect_err("out-of-range entry must fail");
    assert_eq!(e.kind, ErrorKind::TruncatedInput);
}
