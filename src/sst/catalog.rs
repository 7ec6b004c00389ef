//! The registry of tables, grouped by level: it answers reads newest table
//! first and plans the level-0 table of a memtable flush.
use crate::bytes::{bytes_lt, lemma_lex_total, lemma_lex_transitive, lex_lt, to_vec};
use crate::memtable::{keys_unique, read_views, write_views};
use crate::protocol::{all_encodable, encodable, Corruption, ReadRecord, RecordView, WriteRecord};
use crate::sst::table::{
    build_table, encode_table, is_ascending, parse_table, records_ascending, table_get, Table,
    TableView,
};
use vstd::multiset::Multiset;
use vstd::prelude::*;
use vstd::seq_lib::to_multiset_insert;

verus! {

broadcast use vstd::seq_lib::group_to_multiset_ensures;

/// `order` lists, by strictly ascending number, exactly the positions of
/// `nums` that hold a number.
pub open spec fn numbered_order(nums: Seq<Option<u32>>, order: Seq<usize>) -> bool {
    &&& forall|a: int| 0 <= a < order.len() ==> #[trigger] order[a] < nums.len() && nums[order[a] as int] is Some
    &&& forall|a: int, b: int|
        0 <= a < b < order.len() ==> nums[order[a] as int]->0 < nums[order[b] as int]->0
    &&& forall|d: int| 0 <= d < nums.len() && (#[trigger] nums[d]) is Some ==> exists|a: int|
        0 <= a < order.len() && order[a] == d
}

/// Two positions of `nums` hold the same number.
pub open spec fn has_tie(nums: Seq<Option<u32>>) -> bool {
    exists|d1: int, d2: int|
        0 <= d1 < nums.len() && 0 <= d2 < nums.len() && d1 != d2 && (#[trigger] nums[d1]) is Some
            && nums[d1] == #[trigger] nums[d2]
}

/// Orders the positions of `nums` that hold a number by that number,
/// smallest first; `None` when two positions hold the same number.
pub fn order_by_number(nums: &Vec<Option<u32>>) -> (r: Option<Vec<usize>>)
    ensures
        match r {
            Some(order) => numbered_order(nums@, order@),
            None => has_tie(nums@),
        },
{
    let n = nums.len();
    let mut order: Vec<usize> = Vec::new();
    let mut prev: Option<u32> = None;
    loop
        invariant
            n == nums@.len(),
            forall|a: int| 0 <= a < order@.len() ==> #[trigger] order@[a] < n && nums@[order@[a] as int] is Some,
            forall|a: int, b: int|
                0 <= a < b < order@.len() ==> nums@[order@[a] as int]->0 < nums@[order@[b] as int]->0,
            prev is None <==> order@.len() == 0,
            prev is Some ==> nums@[order@.last() as int] == prev,
            forall|d: int|
                0 <= d < n && (#[trigger] nums@[d]) is Some && !above(nums@[d]->0, prev) ==> exists|a: int|
                    0 <= a < order@.len() && order@[a] == d,
        ensures
            numbered_order(nums@, order@),
        decreases (if prev is Some {
            u32::MAX - prev->0
        } else {
            u32::MAX + 1
        }),
    {
        let mut best: Option<usize> = None;
        let mut tie = false;
        let mut d: usize = 0;
        while d < n
            invariant
                n == nums@.len(),
                d <= n,
                best is Some ==> best->0 < d && nums@[best->0 as int] is Some && above(
                    nums@[best->0 as int]->0,
                    prev,
                ),
                best is Some ==> forall|x: int|
                    0 <= x < d && (#[trigger] nums@[x]) is Some && above(nums@[x]->0, prev)
                        ==> nums@[best->0 as int]->0 <= nums@[x]->0,
                best is None ==> forall|x: int|
                    0 <= x < d && (#[trigger] nums@[x]) is Some ==> !above(nums@[x]->0, prev),
                tie ==> best is Some && exists|x: int|
                    0 <= x < d && x != best->0 && #[trigger] nums@[x] == nums@[best->0 as int],
                !tie && best is Some ==> forall|x: int|
                    0 <= x < d && x != best->0 ==> #[trigger] nums@[x] != nums@[best->0 as int],
            decreases n - d,
        {
            match nums[d] {
                Some(v) => {
                    let is_above = match prev {
                        Some(p) => v > p,
                        None => true,
                    };
                    if is_above {
                        match best {
                            None => {
                                best = Some(d);
                                tie = false;
                            },
                            Some(b) => {
                                let bv = nums[b].unwrap();
                                if v < bv {
                                    best = Some(d);
                                    tie = false;
                                } else if v == bv {
                                    tie = true;
                                }
                            },
                        }
                    }
                },
                None => {},
            }
            d = d + 1;
        }
        match best {
            None => {
                assert forall|x: int| 0 <= x < n && (#[trigger] nums@[x]) is Some implies exists|a: int|
                    0 <= a < order@.len() && order@[a] == x by {
                    assert(!above(nums@[x]->0, prev));
                }
                break;
            },
            Some(b) => {
                if tie {
                    return None;
                }
                let ghost old_order = order@;
                let ghost old_prev = prev;
                order.push(b);
                prev = nums[b];
                assert forall|x: int|
                    0 <= x < n && (#[trigger] nums@[x]) is Some && !above(nums@[x]->0, prev) implies exists|a: int|
                        0 <= a < order@.len() && order@[a] == x by {
                    if x == b {
                        assert(order@[old_order.len() as int] == x);
                    } else if !above(nums@[x]->0, old_prev) {
                        let a = choose|a: int| 0 <= a < old_order.len() && old_order[a] == x;
                        assert(order@[a] == x);
                    } else {
                        assert(nums@[x] != nums@[b as int]);
                    }
                }
            },
        }
    }
    Some(order)
}

/// `v` lies above `prev`, or there is no `prev`.
pub open spec fn above(v: u32, prev: Option<u32>) -> bool {
    prev is None || v > prev->0
}

/// Orders records with distinct keys by key, smallest first.
pub fn sort_records(records: Vec<ReadRecord>) -> (r: Vec<ReadRecord>)
    requires
        keys_unique(read_views(records@)),
    ensures
        records_ascending(read_views(r@)),
        read_views(r@).to_multiset() == read_views(records@).to_multiset(),
{
    if is_ascending(&records) {
        return records;
    }
    let mut items = records;
    let ghost all = read_views(items@);
    let mut out: Vec<ReadRecord> = Vec::new();
    while items.len() > 0
        invariant
            records_ascending(read_views(out@)),
            keys_unique(read_views(items@)),
            forall|a: int, c: int|
                0 <= a < out@.len() && 0 <= c < items@.len() ==> (#[trigger] out@[a])@.key != (
                #[trigger] items@[c])@.key,
            read_views(out@).to_multiset().add(read_views(items@).to_multiset()) == all.to_multiset(),
        decreases items@.len(),
    {
        let ghost before = items@;
        let x = items.pop().unwrap();
        assert(before =~= items@.push(x));
        assert(read_views(before) =~= read_views(items@).push(x@));
        let mut p: usize = 0;
        while p < out.len() && bytes_lt(out[p].key(), x.key())
            invariant
                p <= out@.len(),
                forall|a: int| 0 <= a < p ==> lex_lt(out@[a]@.key, x@.key),
            decreases out@.len() - p,
        {
            p = p + 1;
        }
        let ghost o = read_views(out@);
        let ghost oo = out@;
        proof {
            to_multiset_insert(o, p as int, x@);
        }
        out.insert(p, x);
        assert(read_views(out@) =~= o.insert(p as int, x@));
        assert(out@ =~= oo.insert(p as int, x));
        proof {
            if p < o.len() {
                assert(oo[p as int]@.key != x@.key) by {
                    assert(before[before.len() - 1] == x);
                }
                lemma_lex_total(o[p as int].key, x@.key);
            }
        }
        assert forall|a: int, b: int| 0 <= a < b < read_views(out@).len() implies lex_lt(
            read_views(out@)[a].key,
            read_views(out@)[b].key,
        ) by {
            let nv = read_views(out@);
            if b < p {
                assert(nv[a] == o[a] && nv[b] == o[b]);
            } else if b == p {
                assert(nv[a] == o[a]);
            } else if a < p {
                assert(nv[a] == o[a] && nv[b] == o[b - 1]);
                assert(lex_lt(o[a].key, x@.key));
                if b - 1 > p {
                    assert(lex_lt(o[p as int].key, o[b - 1].key));
                    lemma_lex_transitive(x@.key, o[p as int].key, o[b - 1].key);
                }
                lemma_lex_transitive(o[a].key, x@.key, o[b - 1].key);
            } else if a == p {
                assert(nv[b] == o[b - 1]);
                if b - 1 > p {
                    assert(lex_lt(o[p as int].key, o[b - 1].key));
                    lemma_lex_transitive(x@.key, o[p as int].key, o[b - 1].key);
                }
            } else {
                assert(nv[a] == o[a - 1] && nv[b] == o[b - 1]);
            }
        }
        assert forall|a: int, c: int|
            0 <= a < out@.len() && 0 <= c < items@.len() implies (#[trigger] out@[a])@.key != (
            #[trigger] items@[c])@.key by {
            assert(items@[c] == before[c]);
            if a < p {
                assert(out@[a] == oo[a]);
            } else if a == p {
                assert(read_views(before)[c].key != read_views(before)[before.len() - 1].key);
            } else {
                assert(out@[a] == oo[a - 1]);
            }
        }
        assert(keys_unique(read_views(items@))) by {
            assert forall|a: int, b: int| 0 <= a < b < read_views(items@).len() implies read_views(
                items@,
            )[a].key != read_views(items@)[b].key by {
                assert(read_views(items@)[a] == read_views(before)[a]);
                assert(read_views(items@)[b] == read_views(before)[b]);
            }
        }
        assert(read_views(out@).to_multiset().add(read_views(items@).to_multiset()) =~= all.to_multiset());
    }
    assert(read_views(items@).to_multiset() =~= Multiset::empty());
    assert(read_views(out@).to_multiset() =~= all.to_multiset());
    out
}

/// An ASCII decimal digit.
pub open spec fn is_digit(b: u8) -> bool {
    48 <= b <= 57
}

/// The number that a string of decimal digits writes.
pub open spec fn decimal_value(s: Seq<u8>) -> nat
    decreases s.len(),
{
    if s.len() == 0 {
        0
    } else {
        decimal_value(s.drop_last()) * 10 + (s.last() - 48) as nat
    }
}

/// The `u32` that `s` writes in decimal digits, if it is one.
pub open spec fn parse_number(s: Seq<u8>) -> Option<u32> {
    if s.len() > 0 && (forall|i: int| 0 <= i < s.len() ==> is_digit(#[trigger] s[i]))
        && decimal_value(s) <= u32::MAX {
        Some(decimal_value(s) as u32)
    } else {
        None
    }
}

/// Reads a non-empty string of decimal digits as a `u32`.
pub fn parse_decimal(s: &[u8]) -> (r: Option<u32>)
    ensures
        r == parse_number(s@),
{
    let mut v: u64 = 0;
    let mut i: usize = 0;
    assert(s@.take(0) =~= Seq::<u8>::empty());
    while i < s.len()
        invariant
            i <= s@.len(),
            forall|a: int| 0 <= a < i ==> is_digit(#[trigger] s@[a]),
            v <= u32::MAX ==> v == decimal_value(s@.take(i as int)),
            v > u32::MAX ==> decimal_value(s@.take(i as int)) > u32::MAX && v == u32::MAX as u64 + 1,
        decreases s@.len() - i,
    {
        let b = s[i];
        if b < 48 || b > 57 {
            assert(!is_digit(s@[i as int]));
            return None;
        }
        assert(s@.take(i + 1).drop_last() =~= s@.take(i as int));
        if v <= u32::MAX as u64 {
            v = v * 10 + (b - 48) as u64;
            if v > u32::MAX as u64 {
                v = u32::MAX as u64 + 1;
            }
        }
        i = i + 1;
    }
    assert(s@.take(i as int) =~= s@);
    if i == 0 || v > u32::MAX as u64 {
        None
    } else {
        Some(v as u32)
    }
}

/// `b` is the ASCII letter `lower` in either case.
pub open spec fn letter_is(b: u8, lower: u8) -> bool {
    b == lower || b == lower - 32
}

/// The stem of a table file name `<stem>.sst` (the extension in any case).
pub open spec fn table_stem(name: Seq<u8>) -> Option<Seq<u8>> {
    let n = name.len() as int;
    if n >= 5 && name[n - 4] == 46 && letter_is(name[n - 3], 115) && letter_is(name[n - 2], 115)
        && letter_is(name[n - 1], 116) {
        Some(name.take(n - 4))
    } else {
        None
    }
}

fn is_letter(b: u8, lower: u8) -> (r: bool)
    requires
        lower >= 32,
    ensures
        r == letter_is(b, lower),
{
    b == lower || b == lower - 32
}

/// The stem of a table file name, if it names a table.
pub fn sst_stem(name: &[u8]) -> (r: Option<Vec<u8>>)
    ensures
        match r {
            Some(v) => table_stem(name@) == Some(v@),
            None => table_stem(name@) == None::<Seq<u8>>,
        },
{
    let n = name.len();
    if n >= 5 && name[n - 4] == 46 && is_letter(name[n - 3], 115) && is_letter(name[n - 2], 115)
        && is_letter(name[n - 1], 116) {
        let stem = crate::bytes::copy_range(name, 0, n - 4);
        assert(stem@ =~= name@.take(n - 4));
        Some(stem)
    } else {
        None
    }
}

/// A table file found in a level's directory.
pub struct TableFile {
    pub name: Vec<u8>,
    pub data: Vec<u8>,
}

/// A directory found in the data directory, with the files in it.
pub struct LevelDir {
    pub name: Vec<u8>,
    pub files: Vec<TableFile>,
}

/// A level-0 table planned by a flush: its sequence and its bytes.
pub struct LevelZeroTable {
    pub sequence: u32,
    pub data: Vec<u8>,
}

/// The level-0 sequence that a table file name carries.
pub open spec fn name_sequence(name: Seq<u8>) -> Option<u32> {
    match table_stem(name) {
        Some(stem) => parse_number(stem),
        None => None,
    }
}

/// The decimal number of each directory name, if it is one.
pub open spec fn dir_numbers(dirs: Seq<LevelDir>) -> Seq<Option<u32>> {
    Seq::new(dirs.len(), |d: int| parse_number(dirs[d].name@))
}

/// The level-0 sequence of each file name, if it names a table.
pub open spec fn file_sequences(fs: Seq<TableFile>) -> Seq<Option<u32>> {
    Seq::new(fs.len(), |j: int| name_sequence(fs[j].name@))
}

/// The positions, in order, of the first `n` files that are named
/// `<stem>.sst`.
pub open spec fn sst_positions(fs: Seq<TableFile>, n: int) -> Seq<usize>
    decreases n,
{
    if n <= 0 {
        Seq::empty()
    } else if table_stem(fs[n - 1].name@) is Some {
        sst_positions(fs, n - 1).push((n - 1) as usize)
    } else {
        sst_positions(fs, n - 1)
    }
}

/// Some table file of `fs` has a stem that is not a decimal sequence.
pub open spec fn bad_level_0_name(fs: Seq<TableFile>) -> bool {
    exists|j: int|
        0 <= j < fs.len() && (table_stem(#[trigger] fs[j].name@) matches Some(st) && parse_number(st)
            is None)
}

/// Directory `d` has the smallest number among the numbered directories.
pub open spec fn first_level(dirs: Seq<LevelDir>, d: int) -> bool {
    &&& 0 <= d < dirs.len()
    &&& parse_number(dirs[d].name@) is Some
    &&& forall|d2: int|
        0 <= d2 < dirs.len() && (#[trigger] parse_number(dirs[d2].name@)) is Some ==> parse_number(
            dirs[d].name@,
        )->0 <= parse_number(dirs[d2].name@)->0
}

/// Some table file of a numbered directory fails to open with `e`.
pub open spec fn file_fails(dirs: Seq<LevelDir>, e: Corruption) -> bool {
    exists|d: int, j: int|
        0 <= d < dirs.len() && parse_number(dirs[d].name@) is Some && 0 <= j < dirs[d].files@.len()
            && table_stem(dirs[d].files@[j].name@) is Some && parse_table(
            #[trigger] dirs[d].files@[j].data@,
        ) == Err::<TableView, Corruption>(e)
}

/// The views of a sequence of tables.
pub open spec fn table_views(ts: Seq<Table>) -> Seq<TableView> {
    ts.map_values(|t: Table| t@)
}

/// The file names of a sequence of tables.
pub open spec fn table_names(ts: Seq<Table>) -> Seq<Seq<u8>> {
    ts.map_values(|t: Table| t.file_name())
}

/// A level opened from the files `fs`: one table per file named
/// `<stem>.sst`, in listing order.
pub open spec fn level_from(fs: Seq<TableFile>, ts: Seq<TableView>, names: Seq<Seq<u8>>) -> bool {
    let ps = sst_positions(fs, fs.len() as int);
    &&& ts.len() == ps.len()
    &&& names.len() == ps.len()
    &&& forall|t: int|
        0 <= t < ps.len() ==> parse_table(fs[#[trigger] ps[t] as int].data@) == Ok::<TableView, Corruption>(ts[t])
            && names[t] == fs[ps[t] as int].name@
}

/// Level 0 opened from the files `fs`: one table per table file, in the
/// order `forder` of strictly ascending sequences; `mark` is the last
/// sequence, or 0 when there is none.
pub open spec fn level_0_from(
    fs: Seq<TableFile>,
    ts: Seq<TableView>,
    names: Seq<Seq<u8>>,
    forder: Seq<usize>,
    mark: u32,
) -> bool {
    &&& numbered_order(file_sequences(fs), forder)
    &&& ts.len() == forder.len()
    &&& names.len() == forder.len()
    &&& forall|t: int|
        0 <= t < forder.len() ==> parse_table(fs[#[trigger] forder[t] as int].data@) == Ok::<
            TableView,
            Corruption,
        >(ts[t]) && names[t] == fs[forder[t] as int].name@
    &&& mark == if forder.len() == 0 {
        0
    } else {
        file_sequences(fs)[forder.last() as int]->0
    }
}

/// Looking `key` up in the tables of one level, newest (last) first.
pub open spec fn level_get(ts: Seq<TableView>, key: Seq<u8>) -> Result<Option<RecordView>, Corruption>
    decreases ts.len(),
{
    if ts.len() == 0 {
        Ok(None)
    } else {
        match table_get(ts.last(), key) {
            Ok(None) => level_get(ts.drop_last(), key),
            other => other,
        }
    }
}

/// Looking `key` up level by level from level 0: the first record found,
/// a deletion included, or the first error.
pub open spec fn levels_get(levels: Seq<Seq<TableView>>, key: Seq<u8>) -> Result<
    Option<RecordView>,
    Corruption,
>
    decreases levels.len(),
{
    if levels.len() == 0 {
        Ok(None)
    } else {
        match level_get(levels[0], key) {
            Ok(None) => levels_get(levels.drop_first(), key),
            other => other,
        }
    }
}

proof fn lemma_first_in_order(dirs: Seq<LevelDir>, order: Seq<usize>)
    requires
        numbered_order(dir_numbers(dirs), order),
        order.len() > 0,
    ensures
        first_level(dirs, order[0] as int),
{
    let nums = dir_numbers(dirs);
    assert(nums[order[0] as int] == parse_number(dirs[order[0] as int].name@));
    assert forall|d2: int|
        0 <= d2 < dirs.len() && (#[trigger] parse_number(dirs[d2].name@)) is Some implies parse_number(
            dirs[order[0] as int].name@,
        )->0 <= parse_number(dirs[d2].name@)->0 by {
        assert(nums[d2] == parse_number(dirs[d2].name@));
        let a = choose|a: int| 0 <= a < order.len() && order[a] == d2;
        if a > 0 {
            assert(nums[order[0] as int]->0 < nums[order[a] as int]->0);
        }
    }
}

/// Opens the table files of a level above 0, in listing order.
fn open_level(files: &Vec<TableFile>) -> (r: Result<Vec<Table>, Corruption>)
    ensures
        match r {
            Ok(ts) => (forall|t: int| 0 <= t < ts@.len() ==> (#[trigger] ts@[t]).wf()) && level_from(
                files@,
                table_views(ts@),
                table_names(ts@),
            ),
            Err(e) => exists|j: int|
                0 <= j < files@.len() && table_stem(files@[j].name@) is Some && parse_table(
                    #[trigger] files@[j].data@,
                ) == Err::<TableView, Corruption>(e),
        },
{
    let mut ts: Vec<Table> = Vec::new();
    let mut j: usize = 0;
    while j < files.len()
        invariant
            j <= files@.len(),
            forall|t: int| 0 <= t < ts@.len() ==> (#[trigger] ts@[t]).wf(),
            ts@.len() == sst_positions(files@, j as int).len(),
            forall|t: int|
                0 <= t < ts@.len() ==> #[trigger] sst_positions(files@, j as int)[t] < j && parse_table(
                    files@[sst_positions(files@, j as int)[t] as int].data@,
                ) == Ok::<TableView, Corruption>(ts@[t]@) && ts@[t].file_name()
                    == files@[sst_positions(files@, j as int)[t] as int].name@,
        decreases files@.len() - j,
    {
        let f = &files[j];
        let ghost ps = sst_positions(files@, j as int);
        if sst_stem(f.name.as_slice()).is_some() {
            let t = match Table::new(to_vec(f.name.as_slice()), to_vec(f.data.as_slice())) {
                Ok(t) => t,
                Err(e) => {
                    return Err(e);
                },
            };
            let ghost old_ts = ts@;
            ts.push(t);
            assert(sst_positions(files@, j + 1) == ps.push(j as usize));
            assert forall|t: int| 0 <= t < ts@.len() implies (#[trigger] ts@[t]).wf() by {
                if t < old_ts.len() {
                    assert(ts@[t] == old_ts[t]);
                }
            }
            assert forall|x: int|
                0 <= x < ts@.len() implies #[trigger] sst_positions(files@, j + 1)[x] < j + 1 && parse_table(
                    files@[sst_positions(files@, j + 1)[x] as int].data@,
                ) == Ok::<TableView, Corruption>(ts@[x]@) && ts@[x].file_name()
                    == files@[sst_positions(files@, j + 1)[x] as int].name@ by {
                if x < old_ts.len() {
                    assert(ts@[x] == old_ts[x]);
                    assert(sst_positions(files@, j + 1)[x] == ps[x]);
                }
            }
        } else {
            assert(sst_positions(files@, j + 1) == ps);
        }
        j = j + 1;
    }
    proof {
        let ps = sst_positions(files@, files@.len() as int);
        assert forall|t: int| 0 <= t < ps.len() implies parse_table(
            files@[#[trigger] ps[t] as int].data@,
        ) == Ok::<TableView, Corruption>(table_views(ts@)[t]) && table_names(ts@)[t]
            == files@[ps[t] as int].name@ by {
            assert(ps[t] < files@.len());
        }
    }
    Ok(ts)
}

/// Opens the table files of level 0, in ascending order of their
/// sequences, and returns the largest sequence (0 when there is none).
fn open_level_0(files: &Vec<TableFile>) -> (r: Result<(Vec<Table>, u32, Ghost<Seq<usize>>), Corruption>)
    ensures
        match r {
            Ok((ts, mark, forder)) => (forall|t: int| 0 <= t < ts@.len() ==> (#[trigger] ts@[t]).wf())
                && level_0_from(files@, table_views(ts@), table_names(ts@), forder@, mark),
            Err(e) => (e == Corruption::BadTableName && bad_level_0_name(files@)) || (e
                == Corruption::Inconsistent && has_tie(file_sequences(files@))) || exists|j: int|
                0 <= j < files@.len() && table_stem(files@[j].name@) is Some && parse_table(
                    #[trigger] files@[j].data@,
                ) == Err::<TableView, Corruption>(e),
        },
{
    let mut seqs: Vec<Option<u32>> = Vec::new();
    let mut j: usize = 0;
    while j < files.len()
        invariant
            j <= files@.len(),
            seqs@ == file_sequences(files@).take(j as int),
        decreases files@.len() - j,
    {
        let n = match sst_stem(files[j].name.as_slice()) {
            Some(stem) => match parse_decimal(stem.as_slice()) {
                Some(n) => Some(n),
                None => {
                    assert(bad_level_0_name(files@)) by {
                        assert(table_stem(files@[j as int].name@) == Some(stem@));
                    }
                    return Err(Corruption::BadTableName);
                },
            },
            None => None,
        };
        seqs.push(n);
        assert(seqs@ =~= file_sequences(files@).take(j + 1));
        j = j + 1;
    }
    assert(seqs@ =~= file_sequences(files@));
    let forder = match order_by_number(&seqs) {
        Some(o) => o,
        None => {
            return Err(Corruption::Inconsistent);
        },
    };
    let mut ts: Vec<Table> = Vec::new();
    let mut mark: u32 = 0;
    let mut t: usize = 0;
    while t < forder.len()
        invariant
            seqs@ == file_sequences(files@),
            numbered_order(seqs@, forder@),
            t <= forder@.len(),
            ts@.len() == t,
            forall|x: int| 0 <= x < t ==> (#[trigger] ts@[x]).wf(),
            forall|x: int|
                0 <= x < t ==> parse_table(files@[#[trigger] forder@[x] as int].data@) == Ok::<
                    TableView,
                    Corruption,
                >(ts@[x]@) && ts@[x].file_name() == files@[forder@[x] as int].name@,
            mark == if t == 0 {
                0
            } else {
                seqs@[forder@[t - 1] as int]->0
            },
        decreases forder@.len() - t,
    {
        let j = forder[t];
        assert(j < files@.len());
        let f = &files[j];
        let tb = match Table::new(to_vec(f.name.as_slice()), to_vec(f.data.as_slice())) {
            Ok(tb) => tb,
            Err(e) => {
                assert(table_stem(files@[j as int].name@) is Some);
                return Err(e);
            },
        };
        let ghost old_ts = ts@;
        ts.push(tb);
        mark = seqs[j].unwrap();
        assert forall|x: int| 0 <= x < t + 1 implies (#[trigger] ts@[x]).wf() && parse_table(
            files@[forder@[x] as int].data@,
        ) == Ok::<TableView, Corruption>(ts@[x]@) && ts@[x].file_name() == files@[forder@[x] as int].name@ by {
            if x < t {
                assert(ts@[x] == old_ts[x]);
            }
        }
        t = t + 1;
    }
    proof {
        assert(table_views(ts@).len() == forder@.len());
        assert forall|x: int|
            0 <= x < forder@.len() implies parse_table(files@[#[trigger] forder@[x] as int].data@) == Ok::<
                TableView,
                Corruption,
            >(table_views(ts@)[x]) && table_names(ts@)[x] == files@[forder@[x] as int].name@ by {}
        assert(mark == if forder@.len() == 0 {
            0
        } else {
            file_sequences(files@)[forder@.last() as int]->0
        });
        assert(level_0_from(files@, table_views(ts@), table_names(ts@), forder@, mark));
    }
    Ok((ts, mark, Ghost(forder@)))
}

/// The tables of the store, by level, each level oldest first, and the
/// largest level-0 sequence in use.
pub struct Catalog {
    ssts: Vec<Vec<Table>>,
    watermark: u32,
    dirs: Vec<Vec<u8>>,
}

impl Catalog {
    /// What the levels hold.
    pub closed spec fn levels(&self) -> Seq<Seq<TableView>> {
        Seq::new(
            self.ssts@.len(),
            |l: int| Seq::new(self.ssts@[l]@.len(), |t: int| self.ssts@[l]@[t]@),
        )
    }

    /// The file names of the tables, by level.
    pub closed spec fn names(&self) -> Seq<Seq<Seq<u8>>> {
        Seq::new(
            self.ssts@.len(),
            |l: int| Seq::new(self.ssts@[l]@.len(), |t: int| self.ssts@[l]@[t].file_name()),
        )
    }

    /// The directory name of each level.
    pub closed spec fn dir_names(&self) -> Seq<Seq<u8>> {
        Seq::new(self.dirs@.len(), |l: int| self.dirs@[l]@)
    }

    /// The largest level-0 sequence in use.
    pub closed spec fn mark(&self) -> u32 {
        self.watermark
    }

    /// Every table is well formed.
    pub closed spec fn wf(&self) -> bool {
        &&& self.dirs@.len() == self.ssts@.len()
        &&& forall|l: int, t: int|
            0 <= l < self.ssts@.len() && 0 <= t < self.ssts@[l]@.len() ==> (
            #[trigger] self.ssts@[l]@[t]).wf()
    }

    /// A catalog with no tables.
    pub fn empty() -> (r: Catalog)
        ensures
            r.wf(),
            r.levels().len() == 0,
            r.mark() == 0,
    {
        Catalog { ssts: Vec::new(), watermark: 0, dirs: Vec::new() }
    }

    /// The catalog's levels are those that `dirs` describes: the
    /// directories with decimal names, in strictly ascending order of their
    /// numbers (`order`); level 0 holds its directory's table files in
    /// strictly ascending order of their sequences (`forder`), the last of
    /// which is the watermark; every other level holds its directory's table
    /// files in listing order.
    pub open spec fn opened_from(&self, dirs: Seq<LevelDir>, order: Seq<usize>, forder: Seq<usize>) -> bool {
        &&& numbered_order(dir_numbers(dirs), order)
        &&& self.levels().len() == order.len()
        &&& self.names().len() == order.len()
        &&& self.dir_names().len() == order.len()
        &&& forall|l: int| 0 <= l < order.len() ==> #[trigger] self.dir_names()[l] == dirs[order[l] as int].name@
        &&& order.len() == 0 ==> self.mark() == 0
        &&& order.len() > 0 ==> level_0_from(
            dirs[order[0] as int].files@,
            self.levels()[0],
            self.names()[0],
            forder,
            self.mark(),
        )
        &&& forall|l: int|
            1 <= l < order.len() ==> level_from(
                dirs[order[l] as int].files@,
                #[trigger] self.levels()[l],
                self.names()[l],
            )
    }

    /// Opens the tables found in the data directory. Directories with decimal
    /// names are the levels, in ascending order of their numbers; in each,
    /// the files named `<stem>.sst` are its tables. Level-0 stems are decimal
    /// sequences: its tables are ordered by them, and the largest is the
    /// watermark. Two levels with one number, or two level-0 tables with one
    /// sequence, are inconsistent.
    pub fn new(dirs: Vec<LevelDir>) -> (r: Result<Catalog, Corruption>)
        ensures
            match r {
                Ok(c) => c.wf() && exists|order: Seq<usize>, forder: Seq<usize>|
                    #[trigger] c.opened_from(dirs@, order, forder),
                Err(e) => (e == Corruption::Inconsistent && (has_tie(dir_numbers(dirs@)) || exists|
                    d: int,
                | #[trigger] first_level(dirs@, d) && has_tie(file_sequences(dirs@[d].files@))))
                    || (e == Corruption::BadTableName && exists|d: int|
                    #[trigger] first_level(dirs@, d) && bad_level_0_name(dirs@[d].files@))
                    || file_fails(dirs@, e),
            },
    {
        let mut nums: Vec<Option<u32>> = Vec::new();
        let mut d: usize = 0;
        while d < dirs.len()
            invariant
                d <= dirs@.len(),
                nums@ == dir_numbers(dirs@).take(d as int),
            decreases dirs@.len() - d,
        {
            let n = parse_decimal(dirs[d].name.as_slice());
            nums.push(n);
            assert(nums@ =~= dir_numbers(dirs@).take(d + 1));
            d = d + 1;
        }
        assert(nums@ =~= dir_numbers(dirs@));
        let order = match order_by_number(&nums) {
            Some(o) => o,
            None => {
                return Err(Corruption::Inconsistent);
            },
        };
        proof {
            if order@.len() > 0 {
                lemma_first_in_order(dirs@, order@);
            }
        }
        let mut ssts: Vec<Vec<Table>> = Vec::new();
        let mut names: Vec<Vec<u8>> = Vec::new();
        let mut watermark: u32 = 0;
        let ghost mut forder: Seq<usize> = Seq::empty();
        let mut l: usize = 0;
        while l < order.len()
            invariant
                nums@ == dir_numbers(dirs@),
                numbered_order(nums@, order@),
                order@.len() > 0 ==> first_level(dirs@, order@[0] as int),
                l <= order@.len(),
                ssts@.len() == l,
                names@.len() == l,
                forall|x: int, t: int|
                    0 <= x < l && 0 <= t < ssts@[x]@.len() ==> (#[trigger] ssts@[x]@[t]).wf(),
                forall|x: int| 0 <= x < l ==> (#[trigger] names@[x])@ == dirs@[order@[x] as int].name@,
                l == 0 ==> watermark == 0,
                l > 0 ==> level_0_from(
                    dirs@[order@[0] as int].files@,
                    table_views(ssts@[0]@),
                    table_names(ssts@[0]@),
                    forder,
                    watermark,
                ),
                forall|x: int|
                    1 <= x < l ==> level_from(
                        dirs@[order@[x] as int].files@,
                        table_views((#[trigger] ssts@[x])@),
                        table_names(ssts@[x]@),
                    ),
            decreases order@.len() - l,
        {
            let dir = &dirs[order[l]];
            assert(order@[l as int] < dirs@.len());
            let tables = if l == 0 {
                match open_level_0(&dir.files) {
                    Ok((ts, mark, fo)) => {
                        proof {
                            forder = fo@;
                        }
                        watermark = mark;
                        ts
                    },
                    Err(e) => {
                        proof {
                            if e != Corruption::BadTableName && e != Corruption::Inconsistent {
                                let j = choose|j: int|
                                    0 <= j < dir.files@.len() && table_stem(dir.files@[j].name@) is Some
                                        && parse_table(#[trigger] dir.files@[j].data@) == Err::<
                                        TableView,
                                        Corruption,
                                    >(e);
                                assert(parse_number(dirs@[order@[0] as int].name@) == nums@[order@[0] as int]);
                                assert(file_fails(dirs@, e));
                            }
                        }
                        return Err(e);
                    },
                }
            } else {
                match open_level(&dir.files) {
                    Ok(ts) => ts,
                    Err(e) => {
                        proof {
                            let j = choose|j: int|
                                0 <= j < dir.files@.len() && table_stem(dir.files@[j].name@) is Some
                                    && parse_table(#[trigger] dir.files@[j].data@) == Err::<TableView, Corruption>(e);
                            assert(parse_number(dirs@[order@[l as int] as int].name@) == nums@[order@[l as int] as int]);
                            assert(file_fails(dirs@, e));
                        }
                        return Err(e);
                    },
                }
            };
            let ghost old_ssts = ssts@;
            let ghost old_names = names@;
            ssts.push(tables);
            names.push(to_vec(dir.name.as_slice()));
            proof {
                assert forall|x: int, t: int|
                    0 <= x < l + 1 && 0 <= t < ssts@[x]@.len() implies (#[trigger] ssts@[x]@[t]).wf() by {
                    if x < l {
                        assert(ssts@[x] == old_ssts[x]);
                    }
                }
                assert forall|x: int| 0 <= x < l + 1 implies (#[trigger] names@[x])@ == dirs@[order@[x] as int].name@ by {
                    if x < l {
                        assert(names@[x] == old_names[x]);
                    }
                }
                assert forall|x: int|
                    1 <= x < l + 1 implies level_from(
                        dirs@[order@[x] as int].files@,
                        table_views((#[trigger] ssts@[x])@),
                        table_names(ssts@[x]@),
                    ) by {
                    if x < l {
                        assert(ssts@[x] == old_ssts[x]);
                    }
                }
                if l > 0 {
                    assert(ssts@[0] == old_ssts[0]);
                }
            }
            l = l + 1;
        }
        let c = Catalog { ssts, watermark, dirs: names };
        proof {
            assert forall|x: int| 0 <= x < c.levels().len() implies c.levels()[x] =~= table_views(c.ssts@[x]@)
                && c.names()[x] =~= table_names(c.ssts@[x]@) by {}
            assert forall|x: int| 0 <= x < order@.len() implies #[trigger] c.dir_names()[x] == dirs@[order@[x] as int].name@ by {
                assert(c.dir_names()[x] == c.dirs@[x]@);
            }
            if order@.len() > 0 {
                assert(c.levels()[0] =~= table_views(c.ssts@[0]@));
                assert(c.names()[0] =~= table_names(c.ssts@[0]@));
            }
            assert forall|x: int| 1 <= x < order@.len() implies level_from(
                dirs@[order@[x] as int].files@,
                #[trigger] c.levels()[x],
                c.names()[x],
            ) by {
                assert(c.levels()[x] =~= table_views(c.ssts@[x]@));
                assert(c.names()[x] =~= table_names(c.ssts@[x]@));
            }
            assert(c.opened_from(dirs@, order@, forder));
        }
        Ok(c)
    }

    /// Plans the level-0 table of a flush: `records`, with distinct keys,
    /// sorted by key, under the sequence after the watermark.
    pub fn write_records(&self, records: Vec<WriteRecord<'_>>) -> (r: Result<LevelZeroTable, Corruption>)
        requires
            records@.len() > 0,
            keys_unique(write_views(records@)),
            all_encodable(write_views(records@)),
        ensures
            match r {
                Ok(t) => self.mark() < u32::MAX && t.sequence == self.mark() + 1 && exists|
                    s: Seq<RecordView>,
                |
                    #![trigger encode_table(s)]
                    records_ascending(s) && s.to_multiset() == write_views(records@).to_multiset()
                        && t.data@ == encode_table(s) && encode_table(s).len() <= u32::MAX,
                Err(e) => e == Corruption::TooLarge && (self.mark() == u32::MAX || exists|
                    s: Seq<RecordView>,
                |
                    #![trigger encode_table(s)]
                    records_ascending(s) && s.to_multiset() == write_views(records@).to_multiset()
                        && encode_table(s).len() > u32::MAX),
            },
    {
        if self.watermark == u32::MAX {
            return Err(Corruption::TooLarge);
        }
        let mut owned: Vec<ReadRecord> = Vec::new();
        let mut i: usize = 0;
        while i < records.len()
            invariant
                i <= records@.len(),
                read_views(owned@) == write_views(records@).take(i as int),
            decreases records@.len() - i,
        {
            let rec = match &records[i] {
                WriteRecord::Exists { key, val } => ReadRecord::Exists { key: to_vec(key), val: to_vec(val) },
                WriteRecord::Deleted { key } => ReadRecord::Deleted { key: to_vec(key) },
            };
            assert(rec@ == records@[i as int]@);
            let ghost before = read_views(owned@);
            owned.push(rec);
            assert(read_views(owned@) =~= before.push(rec@));
            assert(write_views(records@).take(i + 1) =~= write_views(records@).take(i as int).push(
                records@[i as int]@,
            ));
            i = i + 1;
        }
        assert(write_views(records@).take(i as int) =~= write_views(records@));
        let sorted = sort_records(owned);
        let ghost s = read_views(sorted@);
        proof {
            assert(s.len() == s.to_multiset().len());
            assert forall|a: int| 0 <= a < s.len() implies #[trigger] encodable(s[a]) by {
                assert(s.to_multiset().count(s[a]) > 0);
                assert(write_views(records@).contains(s[a]));
            }
        }
        match build_table(&sorted) {
            Ok(data) => Ok(LevelZeroTable { sequence: self.watermark + 1, data }),
            Err(e) => Err(e),
        }
    }

    /// Adds a flushed table as the newest of level 0 and advances the
    /// watermark past its sequence.
    pub fn add_level_0_table(&mut self, table: Table)
        requires
            old(self).wf(),
            table.wf(),
            old(self).mark() < u32::MAX,
        ensures
            final(self).wf(),
            final(self).mark() == old(self).mark() + 1,
            old(self).levels().len() > 0 ==> final(self).levels() == old(self).levels().update(
                0,
                old(self).levels()[0].push(table@),
            ),
            old(self).levels().len() == 0 ==> final(self).levels() == seq![seq![table@]],
            old(self).levels().len() > 0 ==> final(self).dir_names() == old(self).dir_names(),
            old(self).levels().len() == 0 ==> final(self).dir_names() == seq![seq![48u8]],
    {
        let ghost old_levels = self.levels();
        if self.ssts.len() == 0 {
            self.ssts.push(Vec::new());
            let mut zero: Vec<u8> = Vec::new();
            zero.push(48u8);
            assert(zero@ =~= seq![48u8]);
            self.dirs.push(zero);
            assert(self.dir_names() =~= seq![seq![48u8]]);
        }
        let mut level0 = self.ssts.remove(0);
        level0.push(table);
        self.ssts.insert(0, level0);
        self.watermark = self.watermark + 1;
        proof {
            if old_levels.len() > 0 {
                assert(self.levels() =~= old_levels.update(0, old_levels[0].push(table@))) by {
                    assert forall|l: int| 0 <= l < self.levels().len() implies self.levels()[l]
                        =~= old_levels.update(0, old_levels[0].push(table@))[l] by {
                    }
                }
            } else {
                assert(self.levels() =~= seq![seq![table@]]) by {
                    assert(self.levels()[0] =~= seq![table@]);
                }
            }
            assert forall|l: int, t: int|
                0 <= l < self.ssts@.len() && 0 <= t < self.ssts@[l]@.len() implies (
                #[trigger] self.ssts@[l]@[t]).wf() by {
                if l == 0 && t == self.ssts@[0]@.len() - 1 {
                } else if old_levels.len() > 0 {
                    assert(self.ssts@[l]@[t] == old(self).ssts@[l]@[t]);
                }
            }
        }
    }

    /// The tables of a level, oldest first.
    pub fn level(&self, l: usize) -> (r: &Vec<Table>)
        requires
            l < self.levels().len(),
        ensures
            r@.len() == self.levels()[l as int].len(),
            forall|t: int| 0 <= t < r@.len() ==> (#[trigger] r@[t])@ == self.levels()[l as int][t]
                && r@[t].file_name() == self.names()[l as int][t],
            self.wf() ==> forall|t: int| 0 <= t < r@.len() ==> (#[trigger] r@[t]).wf(),
    {
        &self.ssts[l]
    }

    /// The directory name of level `l`.
    pub fn level_dir(&self, l: usize) -> (r: &Vec<u8>)
        requires
            self.wf(),
            l < self.levels().len(),
        ensures
            r@ == self.dir_names()[l as int],
    {
        &self.dirs[l]
    }

    /// The number of levels.
    pub fn level_count(&self) -> (r: usize)
        ensures
            r == self.levels().len(),
    {
        self.ssts.len()
    }

    /// The record for `key` in the newest table that holds it: levels from
    /// 0 up, and within a level the newest table first. A deletion is
    /// returned as such.
    pub fn get(&self, key: &[u8]) -> (r: Result<Option<ReadRecord>, Corruption>)
        requires
            self.wf(),
        ensures
            match r {
                Ok(Some(rec)) => levels_get(self.levels(), key@) == Ok::<
                    Option<RecordView>,
                    Corruption,
                >(Some(rec@)),
                Ok(None) => levels_get(self.levels(), key@) == Ok::<Option<RecordView>, Corruption>(
                    None,
                ),
                Err(e) => levels_get(self.levels(), key@) == Err::<Option<RecordView>, Corruption>(e),
            },
    {
        let ghost all = self.levels();
        let mut l: usize = 0;
        assert(all.skip(0) =~= all);
        while l < self.ssts.len()
            invariant
                self.wf(),
                all == self.levels(),
                l <= all.len(),
                levels_get(all, key@) == levels_get(all.skip(l as int), key@),
            decreases all.len() - l,
        {
            let level = &self.ssts[l];
            let ghost ts = all[l as int];
            let mut t: usize = level.len();
            assert(ts.take(t as int) =~= ts);
            while t > 0
                invariant
                    self.wf(),
                    l < self.ssts@.len(),
                    level == self.ssts@[l as int],
                    ts == all[l as int],
                    all == self.levels(),
                    t <= ts.len(),
                    level_get(ts, key@) == level_get(ts.take(t as int), key@),
                    l < all.len(),
                    levels_get(all, key@) == levels_get(all.skip(l as int), key@),
                decreases t,
            {
                assert(level@[t - 1].wf());
                let found = level[t - 1].get(key);
                assert(ts[t - 1] == level@[t - 1]@);
                assert(ts.take(t as int).last() == ts[t - 1]);
                assert(ts.take(t as int).drop_last() =~= ts.take(t - 1));
                match found {
                    Ok(Some(rec)) => {
                        assert(all.skip(l as int)[0] == ts);
                        return Ok(Some(rec));
                    },
                    Ok(None) => {},
                    Err(e) => {
                        assert(all.skip(l as int)[0] == ts);
                        return Err(e);
                    },
                }
                t = t - 1;
            }
            assert(all.skip(l as int)[0] == ts);
            assert(all.skip(l as int).drop_first() =~= all.skip(l + 1));
            l = l + 1;
        }
        Ok(None)
    }
}

} // verus!
