use crucible::memtable::MemTable;
use crucible::protocol::{ReadRecord, WriteRecord};

#[test]
fn memtable_put_get_del() {
    let mut m = MemTable::new();
    assert!(m.is_empty());
    assert_eq!(m.get(b"a"), None);
    m.put(b"a", b"1");
    m.put(b"b", b"2");
    m.put(b"a", b"3");
    assert_eq!(m.get(b"a"), Some(&b"3".to_vec()));
    m.del(b"b");
    assert_eq!(m.get(b"b"), None);
    assert_eq!(m.lookup(b"b"), Some(None));
    assert_eq!(m.lookup(b"c"), None);
    assert_eq!(m.lookup(b"a"), Some(Some(&b"3".to_vec())));
    assert!(!m.is_empty());
}

#[test]
fn memtable_drain_lists_each_key_once() {
    let mut m = MemTable::new();
    m.put(b"x", b"1");
    m.del(b"y");
    m.put(b"x", b"2");
    let mut recs: Vec<(Vec<u8>, Option<Vec<u8>>)> = m
        .drain()
        .iter()
        .map(|r| match r {
            WriteRecord::Exists { key, val } => (key.to_vec(), Some(val.to_vec())),
            WriteRecord::Deleted { key } => (key.to_vec(), None),
        })
        .collect();
    recs.sort();
    assert_eq!(recs, vec![(b"x".to_vec(), Some(b"2".to_vec())), (b"y".to_vec(), None)]);
}

#[test]
fn memtable_from_iter_replays_in_order() {
    let m = MemTable::from_iter(vec![
        ReadRecord::Exists { key: b"k".to_vec(), val: b"1".to_vec() },
        ReadRecord::Deleted { key: b"k".to_vec() },
        ReadRecord::Exists { key: b"j".to_vec(), val: b"2".to_vec() },
    ]);
    assert_eq!(m.lookup(b"k"), Some(None));
    assert_eq!(m.get(b"j"), Some(&b"2".to_vec()));
}
