use crucible::protocol::{Corruption, Footer, ReadRecord, WriteRecord};
use crucible::sst::catalog::{parse_decimal, sst_stem, Catalog, LevelDir, TableFile};
use crucible::sst::index::Index;
use crucible::sst::table::{build_table, Table};

fn present(key: &[u8], val: &[u8]) -> ReadRecord {
    ReadRecord::Exists { key: key.to_vec(), val: val.to_vec() }
}

fn deleted(key: &[u8]) -> ReadRecord {
    ReadRecord::Deleted { key: key.to_vec() }
}

fn sample() -> Vec<ReadRecord> {
    vec![present(b"apple", b"red"), deleted(b"banana"), present(b"cherry", b"")]
}

#[test]
fn table_round_trip() {
    let records = sample();
    let data = build_table(&records).unwrap();
    let table = Table::new(b"1.sst".to_vec(), data).unwrap();
    assert_eq!(table.scan().unwrap(), sample());
    for r in sample() {
        assert_eq!(table.get(r.key()).unwrap(), Some(r));
    }
    assert_eq!(table.get(b"blueberry").unwrap(), None);
    assert_eq!(table.get(b"").unwrap(), None);
    assert_eq!(table.key_start(), b"apple".to_vec());
    assert_eq!(table.key_end(), b"cherry".to_vec());
    assert_eq!(table.name(), &b"1.sst".to_vec());
}

#[test]
fn table_layout_offsets() {
    let records = vec![present(b"a", b"x"), present(b"b", b"yy")];
    let data = build_table(&records).unwrap();
    // Records: 11 and 12 bytes; index: 9 bytes per entry; footer: 16 + 1 + 1.
    assert_eq!(data.len(), 11 + 12 + 9 + 9 + 18);
    assert_eq!(&data[23..27], &[0, 0, 0, 0]);
    assert_eq!(&data[32..36], &[11, 0, 0, 0]);
    let footer = Footer::new_from_reader(&data).unwrap();
    assert_eq!(footer.index_start, 23);
    assert_eq!(footer.footer_length, Some(18));
}

#[test]
fn table_rejects_truncated_file() {
    let data = build_table(&sample()).unwrap();
    assert!(Table::new(b"t".to_vec(), data[..data.len() - 1].to_vec()).is_err());
    assert!(matches!(Table::new(b"t".to_vec(), vec![1, 2, 3]), Err(Corruption::UnexpectedEnd)));
}

#[test]
fn table_rejects_index_past_footer() {
    let mut data = build_table(&sample()).unwrap();
    let n = data.len();
    let footer_len = u32::from_le_bytes([data[n - 4], data[n - 3], data[n - 2], data[n - 1]]) as usize;
    let at = n - 8;
    let bogus = (n - footer_len + 1) as u32;
    data[at..at + 4].copy_from_slice(&bogus.to_le_bytes());
    assert!(matches!(Table::new(b"t".to_vec(), data), Err(Corruption::IndexOverrun)));
}

#[test]
fn index_parsing() {
    let mut section = Vec::new();
    for (off, key) in [(0u32, b"a".as_ref()), (10u32, b"b".as_ref())] {
        section.extend_from_slice(&off.to_le_bytes());
        section.extend_from_slice(&(key.len() as u32).to_le_bytes());
        section.extend_from_slice(key);
    }
    let index = Index::from_index_reader(&section).unwrap();
    assert_eq!(index.get_offset(b"b"), Some(&10));
    assert_eq!(index.get_offset(b"c"), None);
    assert_eq!(index.key_start(), b"a".to_vec());
    assert_eq!(index.key_end(), b"b".to_vec());
    assert!(matches!(Index::from_index_reader(&section[..section.len() - 1]), Err(Corruption::UnexpectedEnd)));
    assert!(matches!(Index::from_index_reader(&[]), Err(Corruption::Inconsistent)));
    let mut swapped = section[9..].to_vec();
    swapped.extend_from_slice(&section[..9]);
    assert!(matches!(Index::from_index_reader(&swapped), Err(Corruption::KeysNotAscending)));
}

#[test]
fn decimal_and_stem_parsing() {
    assert_eq!(parse_decimal(b"0"), Some(0));
    assert_eq!(parse_decimal(b"4294967295"), Some(u32::MAX));
    assert_eq!(parse_decimal(b"4294967296"), None);
    assert_eq!(parse_decimal(b""), None);
    assert_eq!(parse_decimal(b"1a"), None);
    assert_eq!(sst_stem(b"12.sst"), Some(b"12".to_vec()));
    assert_eq!(sst_stem(b"12.SST"), Some(b"12".to_vec()));
    assert_eq!(sst_stem(b"12.wal"), None);
    assert_eq!(sst_stem(b".sst"), None);
}

fn level0(files: Vec<(&str, Vec<u8>)>) -> LevelDir {
    LevelDir {
        name: b"0".to_vec(),
        files: files.into_iter().map(|(n, d)| TableFile { name: n.as_bytes().to_vec(), data: d }).collect(),
    }
}

#[test]
fn catalog_orders_level_zero_and_reads_newest_first() {
    let old = build_table(&vec![present(b"k", b"old"), present(b"only_old", b"1")]).unwrap();
    let new = build_table(&vec![deleted(b"k")]).unwrap();
    let dirs = vec![
        LevelDir { name: b"data.wal".to_vec(), files: vec![] },
        level0(vec![("10.sst", new), ("2.sst", old), ("notes.txt", vec![1, 2, 3])]),
    ];
    let catalog = Catalog::new(dirs).unwrap();
    assert_eq!(catalog.level_count(), 1);
    assert_eq!(catalog.level(0).len(), 2);
    assert_eq!(catalog.level(0)[0].name(), &b"2.sst".to_vec());
    assert_eq!(catalog.get(b"k").unwrap(), Some(deleted(b"k")));
    assert_eq!(catalog.get(b"only_old").unwrap(), Some(present(b"only_old", b"1")));
    assert_eq!(catalog.get(b"missing").unwrap(), None);
}

#[test]
fn catalog_rejects_bad_level_zero_name() {
    let t = build_table(&vec![present(b"k", b"v")]).unwrap();
    assert!(matches!(Catalog::new(vec![level0(vec![("abc.sst", t)])]), Err(Corruption::BadTableName)));
}

#[test]
fn catalog_flush_sorts_and_names_next_sequence() {
    let t = build_table(&vec![present(b"k", b"v")]).unwrap();
    let mut catalog = Catalog::new(vec![level0(vec![("7.sst", t)])]).unwrap();
    let recs = vec![
        WriteRecord::Exists { key: b"m", val: b"2" },
        WriteRecord::Deleted { key: b"k" },
        WriteRecord::Exists { key: b"a", val: b"1" },
    ];
    let planned = catalog.write_records(recs).unwrap();
    assert_eq!(planned.sequence, 8);
    let table = Table::new(b"8.sst".to_vec(), planned.data).unwrap();
    assert_eq!(table.scan().unwrap(), vec![present(b"a", b"1"), deleted(b"k"), present(b"m", b"2")]);
    catalog.add_level_0_table(table);
    assert_eq!(catalog.level(0).len(), 2);
    assert_eq!(catalog.get(b"k").unwrap(), Some(deleted(b"k")));
    let again = catalog.write_records(vec![WriteRecord::Deleted { key: b"z" }]).unwrap();
    assert_eq!(again.sequence, 9);
}

#[test]
fn empty_catalog() {
    let catalog = Catalog::new(vec![]).unwrap();
    assert_eq!(catalog.level_count(), 0);
    assert_eq!(catalog.get(b"k").unwrap(), None);
    assert_eq!(Catalog::empty().level_count(), 0);
}

#[test]
fn catalog_levels_follow_directory_numbers() {
    let a = build_table(&vec![present(b"a", b"lvl2")]).unwrap();
    let b = build_table(&vec![present(b"a", b"lvl0")]).unwrap();
    let dirs = vec![
        LevelDir { name: b"2".to_vec(), files: vec![TableFile { name: b"x.sst".to_vec(), data: a }] },
        LevelDir { name: b"0".to_vec(), files: vec![TableFile { name: b"3.sst".to_vec(), data: b }] },
    ];
    let catalog = Catalog::new(dirs).unwrap();
    assert_eq!(catalog.level_count(), 2);
    assert_eq!(catalog.level_dir(0), &b"0".to_vec());
    assert_eq!(catalog.level_dir(1), &b"2".to_vec());
    assert_eq!(catalog.get(b"a").unwrap(), Some(present(b"a", b"lvl0")));
}

#[test]
fn catalog_rejects_ties() {
    let t = build_table(&vec![present(b"k", b"v")]).unwrap();
    let same_level = vec![
        LevelDir { name: b"1".to_vec(), files: vec![] },
        LevelDir { name: b"01".to_vec(), files: vec![] },
    ];
    assert!(matches!(Catalog::new(same_level), Err(Corruption::Inconsistent)));
    assert!(matches!(
        Catalog::new(vec![level0(vec![("4.sst", t.clone()), ("04.sst", t)])]),
        Err(Corruption::Inconsistent)
    ));
}

#[test]
fn catalog_reports_unreadable_table() {
    assert!(matches!(
        Catalog::new(vec![level0(vec![("1.sst", vec![1, 2, 3])])]),
        Err(Corruption::UnexpectedEnd)
    ));
}
