use tsdb::codec::{decode, encode};
use tsdb::text::u64_to_string;
use tsdb::DbError;

#[test]
fn round_trip_any_order() {
    // distinct offsets written out of order decode sorted ascending
    let pairs: Vec<(u64, u64)> = vec![
        (40, 400),
        (0, 1),
        (59, 590),
        (7, 70),
        (23, 230),
    ];
    let mut blob: Vec<u8> = Vec::new();
    for (off, val) in pairs.iter() {
        blob = encode(&blob, *off, *val).unwrap();
    }
    let pts = decode(&blob).unwrap();
    assert_eq!(pts, vec![(0, 1), (7, 70), (23, 230), (40, 400), (59, 590)]);
}

#[test]
fn overwrite_is_idempotent() {
    let blob = encode(&Vec::new(), 13, 111).unwrap();
    let once = encode(&blob, 13, 222).unwrap();
    let twice = encode(&once, 13, 333).unwrap();
    assert_eq!(once.len(), blob.len());
    assert_eq!(twice.len(), once.len());
    assert_eq!(decode(&twice).unwrap(), vec![(13, 333)]);
}

#[test]
fn length_matches_popcount() {
    let mut blob: Vec<u8> = Vec::new();
    for off in [3u64, 17, 3, 59, 0] {
        blob = encode(&blob, off, off + 1000).unwrap();
        let pts = decode(&blob).unwrap();
        assert_eq!(blob.len(), 8 + 8 * pts.len());
    }
    // four distinct offsets survive the duplicate write
    assert_eq!(blob.len(), 8 + 8 * 4);
}

#[test]
fn short_blobs_read_as_empty() {
    assert_eq!(decode(&Vec::new()).unwrap(), vec![]);
    assert_eq!(decode(&vec![1, 2, 3]).unwrap(), vec![]);
    // a write into a truncated blob starts a fresh bucket
    let blob = encode(&vec![9, 9, 9], 5, 55).unwrap();
    assert_eq!(decode(&blob).unwrap(), vec![(5, 55)]);
}

#[test]
fn corrupt_blobs_are_rejected() {
    // bitmap says one slot, but none follow
    let bad = vec![1, 0, 0, 0, 0, 0, 0, 0];
    assert_eq!(decode(&bad), Err(DbError::CorruptData));
    assert_eq!(encode(&bad, 0, 1), Err(DbError::CorruptData));
    // a bit beyond offset 59
    let mut high = vec![0, 0, 0, 0, 0, 0, 0, 128];
    for _ in 0..8 {
        high.push(0);
    }
    assert_eq!(decode(&high), Err(DbError::CorruptData));
}

#[test]
fn blob_layout_is_le_bitmap_then_slots() {
    let blob = encode(&Vec::new(), 1, 0x0102030405060708).unwrap();
    // bit 1 set in the little-endian bitmap header
    assert_eq!(&blob[0..8], &[2, 0, 0, 0, 0, 0, 0, 0]);
    // one little-endian slot
    assert_eq!(&blob[8..16], &[8, 7, 6, 5, 4, 3, 2, 1]);
}

#[test]
fn decimal_rendering() {
    assert_eq!(u64_to_string(0), "0");
    assert_eq!(u64_to_string(60), "60");
    assert_eq!(u64_to_string(18446744073709551615), "18446744073709551615");
}
