use shoju::index::Position;
use shoju::names::{format_base_offset, parse_base_offset};
use shoju::record::{DecodeError, Record};

#[test]
fn test_new() {
    let record = Record::new(0, Some("test_key".into()), "test_value".into());
    assert_eq!(record.offset, 0);
    assert_eq!(
        record.value,
        &[116, 101, 115, 116, 95, 118, 97, 108, 117, 101]
    );
}

#[test]
fn record_test_new() {
    let record = Record::new(0, None, "test_value".into());
    assert_eq!(record.offset, 0);
    assert_eq!(
        record.value,
        &[116, 101, 115, 116, 95, 118, 97, 108, 117, 101]
    );
}

#[test]
fn test_binary_size() {
    let record = Record::new(0, Some("test_key".into()), "test_value".into());
    assert_eq!(record.binary_size(), 50);
}

#[test]
fn test_write() {
    let record = Record::new(0, Some("test_key".into()), "test_value".into());
    let mut buffer = vec![];
    record.write(&mut buffer);
    let (expected, _) = Record::from_binary(&buffer, 0).unwrap();
    assert_eq!(record, expected,);
}

#[test]
fn record_test_write() {
    let record = Record::new(0, None, "test_value".into());
    let mut buffer = vec![];
    record.write(&mut buffer);
    let (expected, _) = Record::from_binary(&buffer, 0).unwrap();
    assert_eq!(record, expected,);
}

#[test]
fn record_write_exact_frame() {
    // The frame layout, byte for byte: big-endian offset (8), timestamp
    // (16), key length (4), value length (4), value bytes.
    let record = Record {
        offset: 1,
        timestamp: 2,
        key: None,
        value: vec![3],
    };
    let mut buffer = vec![];
    let n = record.write(&mut buffer);
    assert_eq!(n, 33);
    let mut expected = vec![0u8; 7];
    expected.push(1); // offset
    expected.extend_from_slice(&[0; 15]);
    expected.push(2); // timestamp
    expected.extend_from_slice(&[0, 0, 0, 0]); // key absent
    expected.extend_from_slice(&[0, 0, 0, 1]); // value length
    expected.push(3);
    assert_eq!(buffer, expected);
}

#[test]
fn record_write_keyed_frame() {
    let record = Record {
        offset: 258,
        timestamp: 0x0102,
        key: Some(vec![0xAA, 0xBB]),
        value: vec![],
    };
    let mut buffer = vec![];
    let n = record.write(&mut buffer);
    assert_eq!(n, 34);
    assert_eq!(&buffer[0..8], &[0, 0, 0, 0, 0, 0, 1, 2]);
    assert_eq!(&buffer[8..24], &[0, 0, 0, 0, 0, 0, 0, 0, 0, 0, 0, 0, 0, 0, 1, 2]);
    assert_eq!(&buffer[24..28], &[0, 0, 0, 2]);
    assert_eq!(&buffer[28..30], &[0xAA, 0xBB]);
    assert_eq!(&buffer[30..34], &[0, 0, 0, 0]);
    let (back, used) = Record::from_binary(&buffer, 0).unwrap();
    assert_eq!(used, 34);
    assert_eq!(back, record);
}

#[test]
fn record_decode_truncated() {
    // A frame cut anywhere before its end fails with Truncated.
    let record = Record {
        offset: 7,
        timestamp: 9,
        key: Some(vec![1, 2, 3]),
        value: vec![4, 5],
    };
    let mut buffer = vec![];
    record.write(&mut buffer);
    for cut in 0..buffer.len() {
        let prefix = buffer[0..cut].to_vec();
        assert_eq!(
            Record::from_binary(&prefix, 0),
            Err(DecodeError::Truncated)
        );
    }
    assert!(Record::from_binary(&buffer, 0).is_ok());
}

#[test]
fn record_decode_consumes_exactly_frame() {
    // Records are self-delimiting: decoding stops at the frame's end even
    // when more bytes follow.
    let first = Record {
        offset: 0,
        timestamp: 1,
        key: None,
        value: vec![9, 9],
    };
    let second = Record {
        offset: 1,
        timestamp: 2,
        key: Some(vec![8]),
        value: vec![],
    };
    let mut buffer = vec![];
    let n1 = first.write(&mut buffer);
    let n2 = second.write(&mut buffer);
    let (r1, u1) = Record::from_binary(&buffer, 0).unwrap();
    assert_eq!((r1, u1), (first, n1));
    let (r2, u2) = Record::from_binary(&buffer, u1).unwrap();
    assert_eq!((r2, u2), (second, n2));
}

#[test]
fn index_test_new() {
    let idx_position = Position::new(0, 0);
    assert_eq!(
        idx_position,
        Position {
            relative_offset: 0,
            position: 0
        }
    );
}

#[test]
fn segment_test_new() {
    let idx_position = Position::new(0, 0);
    assert_eq!(
        idx_position,
        Position {
            relative_offset: 0,
            position: 0
        }
    );
}

#[test]
fn index_test_write() {
    let idx_position = Position::new(0, 0);
    let mut buffer = vec![];
    idx_position.write(&mut buffer);
    let expected = Position::from_binary(&buffer, 0);
    assert_eq!(idx_position, expected,);
}

#[test]
fn position_write_exact_bytes() {
    let entry = Position::new(12, 400);
    let mut buffer = vec![];
    entry.write(&mut buffer);
    assert_eq!(buffer, vec![0, 0, 0, 12, 0, 0, 1, 144]);
}

#[test]
fn stem_format() {
    assert_eq!(format_base_offset(0), "00000000000000000000");
    assert_eq!(format_base_offset(60), "00000000000000000060");
    assert_eq!(format_base_offset(u64::MAX), "18446744073709551615");
}

#[test]
fn stem_parse() {
    assert_eq!(parse_base_offset("00000000000000000000"), Some(0));
    assert_eq!(parse_base_offset("00000000000000000060"), Some(60));
    assert_eq!(parse_base_offset("18446744073709551615"), Some(u64::MAX));
    assert_eq!(parse_base_offset("99999999999999999999"), None);
    assert_eq!(parse_base_offset("60"), None);
    assert_eq!(parse_base_offset(""), None);
    assert_eq!(parse_base_offset("0000000000000000006a"), None);
    assert_eq!(parse_base_offset("000000000000000000060"), None);
}

#[test]
fn stem_round_trip() {
    for base in [0u64, 1, 16, 4096, 123_456_789, u64::MAX] {
        assert_eq!(parse_base_offset(&format_base_offset(base)), Some(base));
    }
}
