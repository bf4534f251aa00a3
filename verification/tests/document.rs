//! Versioned document: opening and saving.

use starbound_assets::{save_versioned_json, ErrorKind, Player, Value, VersionedJson};

fn minimal_document() -> Vec<u8> {
    // "SBVJ01", identifier "id", version absent, content Empty
    let mut v: Vec<u8> = Vec::new();
    v.extend_from_slice(b"SBVJ01");
    v.push(0x02);
    v.extend_from_slice(b"id");
    v.push(0x00); // version absent
    v.push(0x01); // content: Empty
    v
}

#[test]
fn minimal_document_parses() {
    let p = Player::new(&minimal_document()).expect("minimal document must parse");
    assert_eq!(p.contents.identifier, "id");
    assert_eq!(p.contents.version, 0);
    assert_eq!(p.contents.content, Value::Empty);
}

#[test]
fn save_increments_version_and_writes_magic() {
    let p = Player::new(&minimal_document()).expect("minimal document must parse");
    let mut doc = p.contents;
    let out = save_versioned_json(&mut doc);
    assert_eq!(doc.version, 1);
    assert_eq!(&out[0..6], b"SBVJ01");
    // the reopened buffer reads back version 1
    let reopened = Player::new(&out).expect("saved document must parse");
    assert_eq!(reopened.contents.identifier, "id");
    assert_eq!(reopened.contents.version, 1);
    assert_eq!(reopened.contents.content, Value::Empty);
}

#[test]
fn version_present_is_read() {
    let mut v: Vec<u8> = Vec::new();
    v.extend_from_slice(b"SBVJ01");
    v.push(0x02);
    v.extend_from_slice(b"id");
    v.push(0x01); // version present
    v.extend_from_slice(&[0, 0, 0, 7]);
    v.push(0x01);
    let p = Player::new(&v).expect("document with version must parse");
    assert_eq!(p.contents.version, 7);
}

#[test]
fn document_round_trip_with_content() {
    let mut doc = VersionedJson {
        identifier: String::from("player"),
        version: 3,
        content: Value::Array(vec![
            Value::Integer(-5),
            Value::String(String::from("name")),
            Value::Boolean(true),
        ]),
    };
    let original_content = doc.content.duplicate();
    let out = save_versioned_json(&mut doc);
    let reopened = Player::new(&out).expect("saved document must parse");
    assert_eq!(reopened.contents.identifier, "player");
    assert_eq!(reopened.contents.version, 4);
    assert_eq!(reopened.contents.content, original_content);
}

#[test]
fn bad_document_magic_is_malformed_header() {
    let mut v = minimal_document();
    v[0] = b'X';
    let e = Player::new(&v).expect_err("bad magic must fail");
    assert_eq!(e.kind, ErrorKind::MalformedHeader);
    assert_eq!(e.offset, 0);
}

#[test]
fn truncated_document_fails() {
    let v = minimal_document();
    let e = Player::new(&v[..v.len() - 1]).expect_err("truncated document must fail");
    assert_eq!(e.kind, ErrorKind::TruncatedInput);
}
