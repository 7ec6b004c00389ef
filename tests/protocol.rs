use crucible::protocol::{fill_buf, read_u32, Corruption, Footer, ReadRecord, WriteRecord};
use crucible::wal::{read_log, recover, Reader};

fn present(key: &[u8], val: &[u8]) -> ReadRecord {
    ReadRecord::Exists { key: key.to_vec(), val: val.to_vec() }
}

fn deleted(key: &[u8]) -> ReadRecord {
    ReadRecord::Deleted { key: key.to_vec() }
}

fn encode(r: &ReadRecord) -> Vec<u8> {
    let mut out = Vec::new();
    r.write_to(&mut out);
    out
}

#[test]
fn record_encoding_layout() {
    let bytes = encode(&present(b"ab", b"xyz"));
    assert_eq!(bytes, vec![b'0', 2, 0, 0, 0, 3, 0, 0, 0, b'a', b'b', b'x', b'y', b'z']);
    let bytes = encode(&deleted(b"k"));
    assert_eq!(bytes, vec![b'1', 1, 0, 0, 0, 0, 0, 0, 0, b'k']);
}

#[test]
fn write_record_matches_read_record() {
    let mut a = Vec::new();
    let n = WriteRecord::Exists { key: b"key", val: b"value" }.write_to(&mut a);
    assert_eq!(n, 9 + 3 + 5);
    assert_eq!(a, encode(&present(b"key", b"value")));
    let mut b = Vec::new();
    let n = WriteRecord::Deleted { key: b"key" }.write_to(&mut b);
    assert_eq!(n, 12);
    assert_eq!(b, encode(&deleted(b"key")));
    assert_eq!(WriteRecord::Deleted { key: b"key" }.key(), b"key");
}

#[test]
fn record_round_trip() {
    for r in [present(b"k", b""), present(b"key2", b"val2updated"), deleted(b"gone")] {
        let mut bytes = encode(&r);
        let len = bytes.len();
        assert_eq!(r.size() as usize, len);
        bytes.extend_from_slice(b"trailing");
        let (back, next) = ReadRecord::read_from(&bytes, 0).unwrap().unwrap();
        assert_eq!(back, r);
        assert_eq!(next, len);
    }
}

#[test]
fn read_from_end_is_none() {
    let bytes = encode(&present(b"a", b"b"));
    assert_eq!(ReadRecord::read_from(&bytes, bytes.len()), Ok(None));
}

#[test]
fn read_from_errors() {
    let bytes = encode(&present(b"abc", b"def"));
    assert_eq!(ReadRecord::read_from(&bytes[..5], 0), Err(Corruption::UnexpectedEnd));
    assert_eq!(ReadRecord::read_from(&bytes[..bytes.len() - 1], 0), Err(Corruption::UnexpectedEnd));
    let mut bad = bytes.clone();
    bad[0] = b'7';
    assert_eq!(ReadRecord::read_from(&bad, 0), Err(Corruption::BadOpByte(b'7')));
}

#[test]
fn fill_buf_cases() {
    let data = [1u8, 2, 3, 4, 5];
    assert_eq!(fill_buf(&data, 1, 3, 0), Ok(Some(vec![2, 3, 4])));
    assert_eq!(fill_buf(&data, 5, 3, 0), Ok(None));
    assert_eq!(fill_buf(&data, 4, 3, 0), Err(Corruption::UnexpectedEnd));
    assert_eq!(fill_buf(&data, 4, 3, 1), Ok(None));
}

#[test]
fn read_u32_little_endian() {
    let data = [0x78u8, 0x56, 0x34, 0x12, 0xff];
    assert_eq!(read_u32(&data, 0), Ok(0x12345678));
    assert_eq!(read_u32(&data, 2), Err(Corruption::UnexpectedEnd));
}

#[test]
fn footer_round_trip() {
    let f = Footer { start_key: b"aa".to_vec(), end_key: b"zzz".to_vec(), index_start: 77, footer_length: None };
    let mut bytes = b"records and index".to_vec();
    let n = f.write_to(&mut bytes);
    assert_eq!(n, 16 + 2 + 3);
    let back = Footer::new_from_reader(&bytes).unwrap();
    assert_eq!(back.start_key, b"aa".to_vec());
    assert_eq!(back.end_key, b"zzz".to_vec());
    assert_eq!(back.index_start, 77);
    assert_eq!(back.footer_length, Some(21));
}

#[test]
fn footer_errors() {
    assert!(matches!(Footer::new_from_reader(&[1, 2]), Err(Corruption::UnexpectedEnd)));
    assert!(matches!(Footer::new_from_reader(&[0, 0, 0, 0, 50, 0, 0, 0]), Err(Corruption::FooterTooLong)));
    assert!(matches!(Footer::new_from_reader(&[0, 0, 0, 0, 4, 0, 0, 0]), Err(Corruption::BadFooter)));
}

#[test]
fn wal_framing_replays_in_order() {
    let records = vec![present(b"k1", b"v1"), deleted(b"k1"), present(b"k2", b"v2"), present(b"k1", b"v3")];
    let mut log = Vec::new();
    for r in &records {
        r.write_to(&mut log);
    }
    let back = read_log(log.clone()).unwrap();
    assert_eq!(back.len(), 4);
    assert_eq!(back, records);
    let mem = recover(log).unwrap();
    assert_eq!(mem.get(b"k1"), Some(&b"v3".to_vec()));
    assert_eq!(mem.get(b"k2"), Some(&b"v2".to_vec()));
}

#[test]
fn wal_torn_tail_is_an_error_then_nothing() {
    let mut log = encode(&present(b"k1", b"v1"));
    let second = encode(&present(b"k2", b"v2"));
    log.extend_from_slice(&second[..second.len() - 2]);
    assert_eq!(read_log(log.clone()), Err(Corruption::UnexpectedEnd));
    let mut reader = Reader::new(log);
    assert_eq!(reader.next(), Some(Ok(present(b"k1", b"v1"))));
    assert_eq!(reader.next(), Some(Err(Corruption::UnexpectedEnd)));
    assert_eq!(reader.next(), None);
    assert_eq!(reader.next(), None);
}

#[test]
fn wal_empty_log_has_no_records() {
    let mut reader = Reader::new(Vec::new());
    assert_eq!(reader.next(), None);
    assert_eq!(read_log(Vec::new()), Ok(vec![]));
}
