use crucible::protocol::{ReadRecord, WriteRecord};
use crucible::sst::catalog::{Catalog, LevelDir, TableFile};
use crucible::sst::table::Table;
use crucible::store::{recover_log, Store};
use crucible::{Cause, StoreError};

/// An in-memory stand-in for the data directory: the log and level 0.
#[derive(Default)]
struct Disk {
    wal: Vec<u8>,
    level0: Vec<(u32, Vec<u8>)>,
}

fn catalog_of(disk: &Disk) -> Catalog {
    let files = disk
        .level0
        .iter()
        .map(|(seq, data)| TableFile { name: format!("{}.sst", seq).into_bytes(), data: data.clone() })
        .collect();
    Catalog::new(vec![LevelDir { name: b"0".to_vec(), files }]).unwrap()
}

/// Opens the store the way the embedding program does: reopen the tables,
/// turn a left-over log into a level-0 table, then start an empty log.
fn open(disk: &mut Disk, wal_size_limit: Option<u32>) -> Store {
    let mut catalog = catalog_of(disk);
    if !disk.wal.is_empty() {
        if let Some(planned) = recover_log(&catalog, disk.wal.clone()).unwrap() {
            disk.level0.push((planned.sequence, planned.data.clone()));
            let table = Table::new(format!("{}.sst", planned.sequence).into_bytes(), planned.data).unwrap();
            catalog.add_level_0_table(table);
        }
    }
    disk.wal.clear();
    Store::new(catalog, wal_size_limit, None, None)
}

fn flush(store: &mut Store, disk: &mut Disk) {
    if let Some(planned) = store.flush_memtable().unwrap() {
        disk.level0.push((planned.sequence, planned.data.clone()));
        let table = Table::new(format!("{}.sst", planned.sequence).into_bytes(), planned.data).unwrap();
        store.finish_flush(table);
        disk.wal.clear();
    }
}

fn put(store: &mut Store, disk: &mut Disk, key: &[u8], val: &[u8]) {
    WriteRecord::Exists { key, val }.write_to(&mut disk.wal);
    if store.put(key, val) {
        flush(store, disk);
    }
}

fn del(store: &mut Store, disk: &mut Disk, key: &[u8]) {
    WriteRecord::Deleted { key }.write_to(&mut disk.wal);
    if store.del(key) {
        flush(store, disk);
    }
}

#[test]
fn test_store() {
    let mut disk = Disk::default();
    let mut store = open(&mut disk, None);

    let records = vec![
        ReadRecord::Exists { key: b"key1".to_vec(), val: b"val1".to_vec() },
        ReadRecord::Exists { key: b"key2".to_vec(), val: b"val2".to_vec() },
        ReadRecord::Deleted { key: b"key1".to_vec() },
        ReadRecord::Exists { key: b"key2".to_vec(), val: b"val2updated".to_vec() },
        ReadRecord::Exists { key: b"key3".to_vec(), val: b"val3".to_vec() },
    ];

    for rec in records {
        match rec {
            ReadRecord::Exists { key, val } => put(&mut store, &mut disk, &key, &val),
            ReadRecord::Deleted { key } => del(&mut store, &mut disk, &key),
        }
    }

    assert_eq!(None, store.get(b"key1".to_vec().as_ref()).unwrap());
    assert_eq!(Some(b"val2updated".to_vec()), store.get(b"key2".to_vec().as_ref()).unwrap());
    assert_eq!(Some(b"val3".to_vec()), store.get(b"key3".to_vec().as_ref()).unwrap());

    // Re-open and the results are the same.
    drop(store);
    let mut store = open(&mut disk, None);
    assert_eq!(None, store.get(b"key1".to_vec().as_ref()).unwrap());
    assert_eq!(Some(b"val2updated".to_vec()), store.get(b"key2".to_vec().as_ref()).unwrap());
    assert_eq!(Some(b"val3".to_vec()), store.get(b"key3".to_vec().as_ref()).unwrap());

    // Delete from the store then re-open it.
    del(&mut store, &mut disk, b"key2".as_ref());
    drop(store);
    let mut store = open(&mut disk, None);
    assert_eq!(None, store.get(b"key1".to_vec().as_ref()).unwrap());
    assert_eq!(None, store.get(b"key2".to_vec().as_ref()).unwrap());
    assert_eq!(Some(b"val3".to_vec()), store.get(b"key3".to_vec().as_ref()).unwrap());

    // Update a value in the store then re-open it. This will create a second SST.
    put(&mut store, &mut disk, b"key3".as_ref(), b"val3updated");
    drop(store);
    let store = open(&mut disk, None);
    assert_eq!(None, store.get(b"key1".to_vec().as_ref()).unwrap());
    assert_eq!(None, store.get(b"key2".to_vec().as_ref()).unwrap());
    assert_eq!(Some(b"val3updated".to_vec()), store.get(b"key3".to_vec().as_ref()).unwrap());
    assert_eq!(disk.level0.len(), 3);
}

#[test]
fn torn_log_fails_recovery() {
    let catalog = Catalog::new(vec![]).unwrap();
    let mut log = Vec::new();
    WriteRecord::Exists { key: b"k", val: b"v" }.write_to(&mut log);
    log.pop();
    assert!(matches!(
        recover_log(&catalog, log),
        Err(StoreError::WalRecovery(Cause::Corruption(crucible::protocol::Corruption::UnexpectedEnd)))
    ));
    assert!(recover_log(&catalog, Vec::new()).unwrap().is_none());
}

#[test]
fn empty_store_reads_nothing() {
    let mut disk = Disk::default();
    let store = open(&mut disk, None);
    assert_eq!(store.get(b"k").unwrap(), None);
}

#[test]
fn memtable_tombstone_hides_table_value() {
    let mut disk = Disk::default();
    let mut store = open(&mut disk, None);
    put(&mut store, &mut disk, b"k", b"v");
    flush(&mut store, &mut disk);
    assert_eq!(store.get(b"k").unwrap(), Some(b"v".to_vec()));
    del(&mut store, &mut disk, b"k");
    assert_eq!(store.get(b"k").unwrap(), None);
}

#[test]
fn flush_triggered_by_log_size() {
    let mut disk = Disk::default();
    let mut store = open(&mut disk, Some(1024));
    let val = vec![b'v'; 100];
    let mut i = 0u32;
    while disk.level0.is_empty() {
        let key = format!("key{:04}", i).into_bytes();
        put(&mut store, &mut disk, &key, &val);
        i += 1;
    }
    // Each write logs 9 + 7 + 100 bytes; the ninth crosses 1 KiB.
    assert_eq!(i, 9);
    assert!(disk.wal.is_empty());
    assert_eq!(store.get(b"key0003").unwrap(), Some(val.clone()));
    assert_eq!(store.flush_memtable().unwrap().is_none(), true);
}

#[test]
fn compaction_triggered_at_threshold() {
    let mut disk = Disk::default();
    let mut store = Store::new(catalog_of(&disk), None, Some(1 << 20), Some(3));
    for round in 0..4u8 {
        for k in 0..3u8 {
            let key = [b'k', b'0' + k];
            put(&mut store, &mut disk, &key, &[b'0' + round]);
        }
        flush(&mut store, &mut disk);
        if let Some(c) = store.maybe_compact().unwrap() {
            assert_eq!(c.inputs.len(), 3);
            assert_eq!(c.outputs.len(), 1);
            let out = c.outputs[0].data.clone();
            disk.level0.clear();
            assert_eq!(c.dirs, vec![b"0".to_vec()]);
            let files = vec![TableFile { name: b"merged.sst".to_vec(), data: out }];
            let catalog = Catalog::new(vec![
                LevelDir { name: b"0".to_vec(), files: vec![] },
                LevelDir { name: b"1".to_vec(), files },
            ])
            .unwrap();
            store.set_catalog(catalog);
            for k in 0..3u8 {
                assert_eq!(store.get(&[b'k', b'0' + k]).unwrap(), Some(vec![b'0' + round]));
            }
        }
    }
    assert!(disk.level0.len() <= 1);
    assert_eq!(store.get(b"k1").unwrap(), Some(vec![b'3']));
}
