use sstable::DecodeError;
use sstable::KVPair;
use sstable::SSTable;

/// Lays out one page as the format prescribes: 12-byte header, 8 bytes of
/// index per entry (key, then the absolute offset of the value's first
/// byte), then the value bytes concatenated.
fn page(c_time: u32, entries: &[(i32, &str)]) -> Vec<u8> {
    let n: usize = entries.len();
    let mut values_len: usize = 0;
    for (_, v) in entries {
        values_len += v.as_bytes().len();
    }
    let total: u32 = (12 + 8 * n + values_len) as u32;
    let mut buf: Vec<u8> = Vec::new();
    buf.extend_from_slice(&total.to_le_bytes());
    buf.extend_from_slice(&c_time.to_le_bytes());
    buf.extend_from_slice(&(n as u32).to_le_bytes());
    let mut offset: u32 = (12 + 8 * n) as u32;
    for (k, v) in entries {
        buf.extend_from_slice(&k.to_le_bytes());
        buf.extend_from_slice(&offset.to_le_bytes());
        offset += v.as_bytes().len() as u32;
    }
    for (_, v) in entries {
        buf.extend_from_slice(v.as_bytes());
    }
    buf
}

#[test]
fn concrete_scenario() {
    // header file_size=39, c_time=1620000000, nkeys=3; index entries
    // (1, 36), (2, 37), (4, 38); values "a", "b", "d".
    let buf = page(1620000000, &[(1, "a"), (2, "b"), (4, "d")]);
    assert_eq!(buf.len(), 39);
    assert_eq!(&buf[0..4], &39u32.to_le_bytes());
    assert_eq!(&buf[12..16], &1i32.to_le_bytes());
    assert_eq!(&buf[16..20], &36u32.to_le_bytes());

    let table = SSTable::new(&buf).unwrap();
    assert_eq!(table.c_time, 1620000000);
    assert_eq!(table.pairs.len(), 3);
    assert_eq!(table.pairs[0], KVPair { key: 1, value: "a".to_string() });
    assert_eq!(table.pairs[1], KVPair { key: 2, value: "b".to_string() });
    assert_eq!(table.pairs[2], KVPair { key: 4, value: "d".to_string() });
}

#[test]
fn round_trip() {
    let entries: [(i32, &str); 4] = [(-70000, "héllo"), (-3, ""), (0, "日本"), (912, "tail")];
    let table = SSTable::new(&page(77, &entries)).unwrap();
    assert_eq!(table.c_time, 77);
    assert_eq!(table.pairs.len(), entries.len());
    for (pair, (k, v)) in table.pairs.iter().zip(entries.iter()) {
        assert_eq!(pair.key, *k);
        assert_eq!(pair.value, *v);
    }
}

#[test]
fn order_preservation() {
    let table = SSTable::new(&page(5, &[(-9, "low"), (-1, "mid"), (4, "x"), (250, "high")]))
        .unwrap();
    let first = &table.pairs[0];
    let last = &table.pairs[table.pairs.len() - 1];
    for pair in &table.pairs {
        assert!(first.key <= pair.key);
        assert!(pair.key <= last.key);
    }
    assert_eq!(first.key, -9);
    assert_eq!(last.key, 250);
}

#[test]
fn decode_deterministic() {
    let buf = page(123, &[(1, "one"), (2, "two")]);
    let t1 = SSTable::new(&buf).unwrap();
    let t2 = SSTable::new(&buf).unwrap();
    assert_eq!(t1.c_time, t2.c_time);
    assert_eq!(t1.pairs, t2.pairs);
}

#[test]
fn single_entry() {
    // With one entry there is no next index entry to consult: the value
    // runs from its own offset to file_size.
    let buf = page(9, &[(42, "whole tail")]);
    assert_eq!(&buf[16..20], &20u32.to_le_bytes());
    assert_eq!(&buf[0..4], &30u32.to_le_bytes());
    let table = SSTable::new(&buf).unwrap();
    assert_eq!(table.pairs.len(), 1);
    assert_eq!(table.pairs[0], KVPair { key: 42, value: "whole tail".to_string() });
}

#[test]
fn empty_table() {
    // nkeys = 0 is a valid empty table, not an error.
    let buf = page(31337, &[]);
    assert_eq!(buf.len(), 12);
    let table = SSTable::new(&buf).unwrap();
    assert_eq!(table.c_time, 31337);
    assert_eq!(table.pairs.len(), 0);
}

#[test]
fn truncated_header() {
    let buf: Vec<u8> = vec![1, 2, 3, 4, 5];
    assert_eq!(SSTable::new(&buf).unwrap_err(), DecodeError::TruncatedHeader);
    let empty: Vec<u8> = Vec::new();
    assert_eq!(SSTable::new(&empty).unwrap_err(), DecodeError::TruncatedHeader);
}

#[test]
fn truncated_index() {
    // The header declares three entries but the buffer ends after one.
    let mut buf = page(0, &[(1, "a"), (2, "b"), (4, "d")]);
    buf.truncate(20);
    assert_eq!(SSTable::new(&buf).unwrap_err(), DecodeError::TruncatedIndex);
}

#[test]
fn invalid_range_offset_past_buffer() {
    let mut buf = page(0, &[(7, "abc")]);
    // Point the value's start past the end of the buffer.
    buf[16..20].copy_from_slice(&100u32.to_le_bytes());
    assert_eq!(SSTable::new(&buf).unwrap_err(), DecodeError::InvalidRange);
}

#[test]
fn invalid_range_start_after_end() {
    let mut buf = page(0, &[(7, "ab"), (9, "cd")]);
    // The first entry's start sits after the second entry's start.
    let len: u32 = buf.len() as u32;
    buf[16..20].copy_from_slice(&len.to_le_bytes());
    assert_eq!(SSTable::new(&buf).unwrap_err(), DecodeError::InvalidRange);
}

#[test]
fn invalid_utf8() {
    let mut buf = page(0, &[(7, "ab")]);
    let last: usize = buf.len() - 1;
    buf[last] = 0xff;
    assert_eq!(SSTable::new(&buf).unwrap_err(), DecodeError::InvalidUtf8);
}

#[test]
fn multibyte_value_decoded_as_text() {
    // "é" is two bytes on disk but one character once decoded; a decoder
    // that handed the raw bytes back unchanged would not produce it.
    let buf = page(0, &[(1, "é")]);
    let table = SSTable::new(&buf).unwrap();
    assert_eq!(table.pairs[0].value, "é");
    assert_eq!(table.pairs[0].value.chars().count(), 1);
    assert_eq!(table.pairs[0].value.len(), 2);
}

#[test]
fn last_value_ends_at_declared_file_size() {
    // Bytes past the declared file_size are not part of any value.
    let mut buf = page(8, &[(3, "abc")]);
    buf.push(b'z');
    let table = SSTable::new(&buf).unwrap();
    assert_eq!(table.pairs[0].value, "abc");
}

#[test]
fn adjacent_empty_values() {
    let table = SSTable::new(&page(2, &[(1, ""), (2, ""), (3, "only")])).unwrap();
    assert_eq!(table.pairs[0].value, "");
    assert_eq!(table.pairs[1].value, "");
    assert_eq!(table.pairs[2].value, "only");
}

#[test]
fn negative_and_extreme_keys() {
    let entries: [(i32, &str); 3] = [(i32::MIN, "lo"), (0, "zero"), (i32::MAX, "hi")];
    let table = SSTable::new(&page(1, &entries)).unwrap();
    assert_eq!(table.pairs[0].key, i32::MIN);
    assert_eq!(table.pairs[1].key, 0);
    assert_eq!(table.pairs[2].key, i32::MAX);
}
