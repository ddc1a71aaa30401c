use std::collections::BTreeMap;

use brk_sopd::error::Error;
use brk_sopd::raw::SopdRaw;

fn sample() -> SopdRaw {
    let mut map = BTreeMap::new();
    map.insert(3_000_000u32, 1_000_000_000u64);
    map.insert(4_000_000u32, 500_000_000u64);
    map.insert(50_000u32, 41_200_000u64);
    SopdRaw { map }
}

#[test]
fn serialize_then_deserialize_gives_the_map_back() {
    let raw = sample();
    let bytes = raw.serialize().unwrap();
    let back = SopdRaw::deserialize(&bytes).unwrap();
    assert_eq!(back.map, raw.map);
}

#[test]
fn deserialize_with_rest_returns_the_following_bytes() {
    let raw = sample();
    let mut bytes = raw.serialize().unwrap();
    let n = bytes.len();
    bytes.extend_from_slice(&[9, 8, 7]);
    let (back, rest) = SopdRaw::deserialize_with_rest(&bytes).unwrap();
    assert_eq!(back.map, raw.map);
    assert_eq!(rest, &[9, 8, 7]);
    assert_eq!(bytes.len() - rest.len(), n);
}

#[test]
fn header_is_three_little_endian_lengths() {
    let raw = sample();
    let bytes = raw.serialize().unwrap();
    let field = |i: usize| u64::from_le_bytes(bytes[i * 8..i * 8 + 8].try_into().unwrap());
    assert_eq!(field(0), 3);
    assert_eq!(24 + field(1) + field(2), bytes.len() as u64);
}

#[test]
fn serialize_iter_of_sorted_entries_matches_serialize() {
    let raw = sample();
    let entries: Vec<(u32, u64)> = raw.map.iter().map(|(&k, &v)| (k, v)).collect();
    assert_eq!(SopdRaw::serialize_iter(&entries).unwrap(), raw.serialize().unwrap());
}

#[test]
fn empty_map_roundtrips() {
    let raw = SopdRaw::default();
    let bytes = raw.serialize().unwrap();
    let back = SopdRaw::deserialize(&bytes).unwrap();
    assert!(back.map.is_empty());
}

#[test]
fn shorter_than_the_header_is_refused() {
    match SopdRaw::deserialize(&[0u8; 23]) {
        Err(Error::DataTooShort { len, need }) => {
            assert_eq!(len, 23);
            assert_eq!(need, 24);
        }
        other => panic!("unexpected: {:?}", other.map(|r| r.map)),
    }
}

#[test]
fn blobs_longer_than_the_data_are_refused() {
    let mut bytes = vec![0u8; 30];
    bytes[8] = 5;
    bytes[16] = 4;
    match SopdRaw::deserialize(&bytes) {
        Err(Error::DataTooShort { len, need }) => {
            assert_eq!(len, 30);
            assert_eq!(need, 33);
        }
        other => panic!("unexpected: {:?}", other.map(|r| r.map)),
    }
}

#[test]
fn huge_declared_lengths_are_refused_without_overflow() {
    let mut bytes = vec![0xffu8; 24];
    bytes.extend_from_slice(&[1, 2, 3]);
    match SopdRaw::deserialize(&bytes) {
        Err(Error::DataTooShort { len, need }) => {
            assert_eq!(len, 27);
            assert_eq!(need, 24 + 2 * (u64::MAX as u128));
        }
        other => panic!("unexpected: {:?}", other.map(|r| r.map)),
    }
}

#[test]
fn garbage_blobs_are_a_codec_error() {
    let mut bytes = vec![0u8; 24];
    bytes[8] = 3;
    bytes[16] = 3;
    bytes.extend_from_slice(&[1, 2, 3, 4, 5, 6]);
    assert!(matches!(SopdRaw::deserialize(&bytes), Err(Error::Compression(_))));
}

#[test]
fn a_wrong_entry_count_is_refused() {
    let raw = sample();
    let mut bytes = raw.serialize().unwrap();
    bytes[0] = 7;
    match SopdRaw::deserialize(&bytes) {
        Err(Error::EntryCountMismatch { declared, found }) => {
            assert_eq!(declared, 7);
            assert_eq!(found, 3);
        }
        other => panic!("unexpected: {:?}", other.map(|r| r.map)),
    }
}

#[test]
fn total_sats_sums_and_detects_overflow() {
    assert_eq!(sample().total_sats(), Some(1_541_200_000));
    let mut map = BTreeMap::new();
    map.insert(1u32, u64::MAX);
    map.insert(2u32, 1u64);
    assert_eq!(SopdRaw { map }.total_sats(), None);
    assert_eq!(SopdRaw::default().total_sats(), Some(0));
}

#[test]
fn an_empty_list_serializes_and_reads_back_empty() {
    let bytes = SopdRaw::serialize_iter(&[]).unwrap();
    assert_eq!(&bytes[0..8], &[0u8; 8]);
    let kl = u64::from_le_bytes(bytes[8..16].try_into().unwrap());
    let vl = u64::from_le_bytes(bytes[16..24].try_into().unwrap());
    assert_eq!(bytes.len() as u64, 24 + kl + vl);
    assert!(SopdRaw::deserialize(&bytes).unwrap().map.is_empty());
}
