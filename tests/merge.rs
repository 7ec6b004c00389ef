use crucible::compactor::combiner::{combine_tables, split_records, CombineTable, MergeIter};
use crucible::compactor::compactor::Compactor;
use crucible::protocol::ReadRecord;
use crucible::sst::catalog::{Catalog, LevelDir, TableFile};
use crucible::sst::table::{build_table, Table};

fn present(key: &[u8], val: &[u8]) -> ReadRecord {
    ReadRecord::Exists { key: key.to_vec(), val: val.to_vec() }
}

fn deleted(key: &[u8]) -> ReadRecord {
    ReadRecord::Deleted { key: key.to_vec() }
}

fn literal_tables() -> Vec<CombineTable> {
    vec![
        CombineTable { table: vec![present(b"key1", b"val1_1"), present(b"key2", b"val2_1")], level: 0, sequence: Some(0) },
        CombineTable {
            table: vec![present(b"key2", b"val2_2"), present(b"key3", b"val3_2"), present(b"key4", b"val4_2"), deleted(b"key6")],
            level: 0,
            sequence: Some(1),
        },
        CombineTable { table: vec![present(b"key2", b"val2_3"), present(b"key5", b"val5_3")], level: 1, sequence: None },
        CombineTable { table: vec![present(b"key6", b"val6_4")], level: 2, sequence: None },
    ]
}

fn expected() -> Vec<ReadRecord> {
    vec![
        present(b"key1", b"val1_1"),
        present(b"key2", b"val2_2"),
        present(b"key3", b"val3_2"),
        present(b"key4", b"val4_2"),
        present(b"key5", b"val5_3"),
        deleted(b"key6"),
    ]
}

#[test]
fn test_combine_tables() {
    let outs = combine_tables(literal_tables(), 1024 * 1024).unwrap();
    assert_eq!(outs.len(), 1);
    let files = outs
        .into_iter()
        .map(|t| TableFile { name: format!("{}.sst", uuid::Uuid::new_v4()).into_bytes(), data: t.data })
        .collect();
    let dirs = vec![LevelDir { name: b"0".to_vec(), files: vec![] }, LevelDir { name: b"1".to_vec(), files }];
    let catalog = Catalog::new(dirs).unwrap();

    let cases = vec![
        (b"key1", present(b"key1", b"val1_1")),
        (b"key2", present(b"key2", b"val2_2")),
        (b"key3", present(b"key3", b"val3_2")),
        (b"key4", present(b"key4", b"val4_2")),
        (b"key5", present(b"key5", b"val5_3")),
        (b"key6", deleted(b"key6")),
    ];

    for (key, want) in cases.into_iter() {
        assert_eq!(Some(want), catalog.get(key).unwrap());
    }
}

#[test]
fn merge_picks_newest_per_key() {
    let mut merge = MergeIter::new();
    for t in literal_tables() {
        merge.push_iter(t.table, t.level, t.sequence);
    }
    assert_eq!(merge.merge_all(), expected());
}

#[test]
fn merge_step_by_step() {
    let mut merge = MergeIter::new();
    merge.push_iter(vec![present(b"b", b"old")], 1, None);
    merge.push_iter(vec![present(b"a", b"1"), present(b"b", b"new")], 0, Some(3));
    assert_eq!(merge.next(), Some(present(b"a", b"1")));
    assert_eq!(merge.next(), Some(present(b"b", b"new")));
    assert_eq!(merge.next(), None);
    assert_eq!(merge.next(), None);
}

#[test]
fn merge_higher_sequence_wins_within_level_zero() {
    let mut merge = MergeIter::new();
    merge.push_iter(vec![present(b"k", b"seq9")], 0, Some(9));
    merge.push_iter(vec![present(b"k", b"seq2")], 0, Some(2));
    assert_eq!(merge.merge_all(), vec![present(b"k", b"seq9")]);
}

#[test]
fn merge_of_nothing_is_empty() {
    assert_eq!(MergeIter::new().merge_all(), vec![]);
    let outs = combine_tables(vec![CombineTable { table: vec![], level: 0, sequence: Some(0) }], 10).unwrap();
    assert_eq!(outs.len(), 0);
}

#[test]
fn split_respects_size_limit() {
    // Each record encodes to 9 + 2 + 3 = 14 bytes.
    let recs: Vec<ReadRecord> = (0..5u8).map(|i| present(&[b'k', b'0' + i], b"val")).collect();
    let chunks = split_records(&recs, 30);
    assert_eq!(chunks.iter().map(|c| c.len()).collect::<Vec<_>>(), vec![2, 2, 1]);
    let chunks = split_records(&recs, 5);
    assert_eq!(chunks.len(), 5);
    let chunks = split_records(&recs, 70);
    assert_eq!(chunks.len(), 1);
}

#[test]
fn combine_cuts_one_table_per_piece() {
    let recs: Vec<ReadRecord> = (0..4u8).map(|i| present(&[b'k', b'0' + i], b"val")).collect();
    let outs = combine_tables(vec![CombineTable { table: recs, level: 0, sequence: Some(0) }], 14).unwrap();
    assert_eq!(outs.len(), 4);
    let t = Table::new(b"x".to_vec(), outs[3].data.clone()).unwrap();
    assert_eq!(t.scan().unwrap(), vec![present(b"k3", b"val")]);
}

#[test]
fn compaction_selects_overlapping_level_one() {
    let l0a = build_table(&vec![present(b"c", b"0a"), present(b"e", b"0a")]).unwrap();
    let l0b = build_table(&vec![present(b"d", b"0b")]).unwrap();
    let l1_in = build_table(&vec![present(b"a", b"1"), present(b"d", b"1")]).unwrap();
    let l1_out = build_table(&vec![present(b"x", b"1"), present(b"y", b"1")]).unwrap();
    let l1_wide = build_table(&vec![present(b"b", b"w"), present(b"f", b"w")]).unwrap();
    let dirs = vec![
        LevelDir {
            name: b"0".to_vec(),
            files: vec![TableFile { name: b"1.sst".to_vec(), data: l0a }, TableFile { name: b"2.sst".to_vec(), data: l0b }],
        },
        LevelDir {
            name: b"1".to_vec(),
            files: vec![
                TableFile { name: b"in.sst".to_vec(), data: l1_in },
                TableFile { name: b"out.sst".to_vec(), data: l1_out },
                TableFile { name: b"wide.sst".to_vec(), data: l1_wide },
            ],
        },
    ];
    let catalog = Catalog::new(dirs).unwrap();
    let compactor = Compactor::new(3, 1 << 20);
    assert!(compactor.maybe_compact(&catalog).unwrap().is_none());
    let compactor = Compactor::new(2, 1 << 20);
    let c = compactor.maybe_compact(&catalog).unwrap().unwrap();
    assert_eq!(
        c.inputs,
        vec![(0, b"1.sst".to_vec()), (0, b"2.sst".to_vec()), (1, b"in.sst".to_vec()), (1, b"wide.sst".to_vec())]
    );
    assert_eq!(c.dirs, vec![b"0".to_vec(), b"1".to_vec()]);
    assert_eq!(c.outputs.len(), 1);
    let t = Table::new(b"new".to_vec(), c.outputs[0].data.clone()).unwrap();
    assert_eq!(
        t.scan().unwrap(),
        vec![present(b"a", b"1"), present(b"b", b"w"), present(b"c", b"0a"), present(b"d", b"0b"), present(b"e", b"0a"), present(b"f", b"w")]
    );
}
