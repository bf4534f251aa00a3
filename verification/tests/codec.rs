//! Varint and zigzag codec vectors and round trips.

use starbound_assets::vlq::{read_vlqi64, read_vlqu64, write_vlqi64, write_vlqu64};

#[test]
fn vlqu_fixed_vectors() {
    let mut v: Vec<u8> = Vec::new();
    write_vlqu64(&mut v, 0);
    assert_eq!(v, vec![0x00]);

    let mut v: Vec<u8> = Vec::new();
    write_vlqu64(&mut v, 127);
    assert_eq!(v, vec![0x7f]);

    let mut v: Vec<u8> = Vec::new();
    write_vlqu64(&mut v, 128);
    assert_eq!(v, vec![0x81, 0x00]);
}

#[test]
fn vlqu_round_trip() {
    for &n in &[
        0u64,
        1,
        127,
        128,
        129,
        300,
        16383,
        16384,
        0xffff_ffff,
        u64::MAX - 1,
        u64::MAX,
    ] {
        let mut v: Vec<u8> = Vec::new();
        write_vlqu64(&mut v, n);
        let (decoded, end) = read_vlqu64(&v, 0).expect("encoded varint must parse");
        assert_eq!(decoded, n);
        assert_eq!(end, v.len());
    }
}

#[test]
fn vlqu_with_surrounding_bytes() {
    let mut v: Vec<u8> = vec![0xaa, 0xbb];
    write_vlqu64(&mut v, 300);
    v.push(0xcc);
    let (decoded, end) = read_vlqu64(&v, 2).expect("embedded varint must parse");
    assert_eq!(decoded, 300);
    assert_eq!(end, v.len() - 1);
}

#[test]
fn vlqu_truncated() {
    // a lone continuation byte never terminates
    let v: Vec<u8> = vec![0x81];
    let e = read_vlqu64(&v, 0).expect_err("truncated varint must fail");
    assert_eq!(e.kind, starbound_assets::ErrorKind::TruncatedInput);

    let v: Vec<u8> = vec![];
    assert!(read_vlqu64(&v, 0).is_err());
}

#[test]
fn zigzag_fixed_vectors() {
    // zigzag maps 0, -1, 1, -2 to 0, 1, 2, 3
    for (n, expected) in [(0i64, 0x00u8), (-1, 0x01), (1, 0x02), (-2, 0x03)] {
        let mut v: Vec<u8> = Vec::new();
        write_vlqi64(&mut v, n);
        assert_eq!(v, vec![expected]);
    }
}

#[test]
fn vlqi_round_trip() {
    for &n in &[0i64, 1, -1, 5, -5, 63, -64, 64, -65, i64::MAX, i64::MIN] {
        let mut v: Vec<u8> = Vec::new();
        write_vlqi64(&mut v, n);
        let (decoded, end) = read_vlqi64(&v, 0).expect("encoded varint must parse");
        assert_eq!(decoded, n);
        assert_eq!(end, v.len());
    }
}
