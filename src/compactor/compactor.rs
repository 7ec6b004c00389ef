//! When to promote level 0 into level 1, and what a promotion reads and
//! writes.
use crate::bytes::{bytes_lt, key_le, lemma_lex_irreflexive, lemma_lex_total, lex_lt, to_vec};
use crate::compactor::combiner::{
    has_key, merge_result, newest_in, output_ascending, run_newer, split_greedy,
    combine_tables, combined, runs_of, tables_valid, CombineTable, NewTable, RunView,
};
use crate::memtable::read_views;
use crate::protocol::{all_encodable, encodable, Corruption, ReadRecord, RecordView};
use crate::sst::catalog::Catalog;
use crate::sst::table::{
    encode_table, index_entries, is_ascending, lemma_table_round_trip, records_ascending, table_get,
    table_scan, TableView,
};
use crate::sst::catalog::level_get;
use crate::protocol::encode_records;
use vstd::prelude::*;

verus! {

/// The smallest key of a table.
pub open spec fn first_of(t: TableView) -> Seq<u8> {
    t.entries[0].0
}

/// The largest key of a table.
pub open spec fn last_of(t: TableView) -> Seq<u8> {
    t.entries.last().0
}

/// The smallest first key of the first `n` tables of `ts`.
pub open spec fn range_lo(ts: Seq<TableView>, n: int) -> Seq<u8>
    decreases n,
{
    if n <= 1 {
        first_of(ts[0])
    } else if lex_lt(first_of(ts[n - 1]), range_lo(ts, n - 1)) {
        first_of(ts[n - 1])
    } else {
        range_lo(ts, n - 1)
    }
}

/// The largest last key of the first `n` tables of `ts`.
pub open spec fn range_hi(ts: Seq<TableView>, n: int) -> Seq<u8>
    decreases n,
{
    if n <= 1 {
        last_of(ts[0])
    } else if lex_lt(range_hi(ts, n - 1), last_of(ts[n - 1])) {
        last_of(ts[n - 1])
    } else {
        range_hi(ts, n - 1)
    }
}

/// The table's key range `[first, last]` meets `[lo, hi]`.
pub open spec fn overlaps(t: TableView, lo: Seq<u8>, hi: Seq<u8>) -> bool {
    key_le(lo, last_of(t)) && key_le(first_of(t), hi)
}

/// `sel` lists, in ascending order, exactly the tables of `ts` that
/// overlap `[lo, hi]`.
pub open spec fn selects(ts: Seq<TableView>, lo: Seq<u8>, hi: Seq<u8>, sel: Seq<int>) -> bool {
    &&& forall|a: int, b: int| 0 <= a < b < sel.len() ==> sel[a] < sel[b]
    &&& forall|a: int| 0 <= a < sel.len() ==> 0 <= #[trigger] sel[a] < ts.len() && overlaps(ts[sel[a]], lo, hi)
    &&& forall|t: int| 0 <= t < ts.len() && overlaps(#[trigger] ts[t], lo, hi) ==> sel.contains(t)
}

/// Run `i` is what scanning table `t` gave, with its tag.
pub open spec fn run_of(run: RunView, t: TableView, level: nat, sequence: Option<u32>) -> bool {
    table_scan(t) == Ok::<Seq<RecordView>, Corruption>(run.records) && run.level == level
        && run.sequence == sequence
}

/// A promotion: the new level-1 tables, and the tables they replace, by
/// level and file name, to be removed once the new ones are durable.
pub struct Compaction {
    pub outputs: Vec<NewTable>,
    pub inputs: Vec<(usize, Vec<u8>)>,
    /// The directory names of level 0 and, when it exists, level 1.
    pub dirs: Vec<Vec<u8>>,
}

/// The promotion policy and its parameters.
pub struct Compactor {
    level_0_file_limit: usize,
    table_size_limit: usize,
}

/// Checks that scanned records ascend strictly by key and fit the format.
fn check_run(records: &Vec<ReadRecord>) -> (r: bool)
    ensures
        r == (records_ascending(read_views(records@)) && all_encodable(read_views(records@))),
{
    if !is_ascending(records) {
        return false;
    }
    let ghost rs = read_views(records@);
    let mut i: usize = 0;
    while i < records.len()
        invariant
            rs == read_views(records@),
            records_ascending(rs),
            i <= rs.len(),
            forall|a: int| 0 <= a < i ==> #[trigger] encodable(rs[a]),
        decreases rs.len() - i,
    {
        let fits = match &records[i] {
            ReadRecord::Exists { key, val } => key.len() <= 0xffff_ffff && val.len() <= 0xffff_ffff,
            ReadRecord::Deleted { key } => key.len() <= 0xffff_ffff,
        };
        if !fits {
            assert(!encodable(rs[i as int]));
            return false;
        }
        i = i + 1;
    }
    true
}

impl Compactor {
    /// The level-0 table count that triggers a promotion.
    pub closed spec fn file_limit(&self) -> nat {
        self.level_0_file_limit as nat
    }

    /// The records budget of each new table.
    pub closed spec fn size_limit(&self) -> nat {
        self.table_size_limit as nat
    }

    /// A compactor with the given parameters.
    pub fn new(level_0_file_limit: usize, table_size_limit: usize) -> (r: Compactor)
        ensures
            r.file_limit() == level_0_file_limit,
            r.size_limit() == table_size_limit,
    {
        Compactor { level_0_file_limit, table_size_limit }
    }

    /// Whether level 0 is due for a promotion: it holds tables, at least
    /// the file limit of them.
    pub open spec fn due(&self, catalog: &Catalog) -> bool {
        catalog.levels().len() > 0 && catalog.levels()[0].len() > 0 && catalog.levels()[0].len()
            >= self.file_limit()
    }

    /// Promotes level 0 when it is due; `None` when it is not.
    pub fn maybe_compact(&self, catalog: &Catalog) -> (r: Result<Option<Compaction>, Corruption>)
        requires
            catalog.wf(),
        ensures
            !self.due(catalog) <==> r == Ok::<Option<Compaction>, Corruption>(None),
            self.due(catalog) ==> match r {
                Ok(Some(c)) => self.promotes(catalog, c),
                Ok(None) => false,
                Err(e) => self.fails_with(catalog, e),
            },
    {
        if catalog.level_count() == 0 || catalog.level(0).len() == 0 || catalog.level(0).len()
            < self.level_0_file_limit {
            return Ok(None);
        }
        match self.compact_level_0(catalog) {
            Ok(c) => Ok(Some(c)),
            Err(e) => Err(e),
        }
    }

    /// `c` promotes all of level 0, with the level-1 tables that overlap
    /// its key range, into new level-1 tables.
    pub open spec fn promotes(&self, catalog: &Catalog, c: Compaction) -> bool {
        exists|sel: Seq<int>, runs: Seq<RunView>| #[trigger] self.promotes_with(catalog, c, sel, runs)
    }

    /// A promotion of `catalog` merges, as `runs`, the scans of all level-0
    /// tables (tagged with their positions) and then of the level-1 tables
    /// `sel`, which are those whose key ranges meet level 0's.
    pub open spec fn plans(&self, catalog: &Catalog, sel: Seq<int>, runs: Seq<RunView>) -> bool {
        let lv = catalog.levels();
        let l0 = lv[0];
        let n0 = l0.len() as int;
        let lo = range_lo(l0, n0);
        let hi = range_hi(l0, n0);
        let l1 = if lv.len() > 1 {
            lv[1]
        } else {
            Seq::empty()
        };
        &&& selects(l1, lo, hi, sel)
        &&& runs.len() == n0 + sel.len()
        &&& forall|i: int| #![trigger runs[i]] 0 <= i < n0 ==> run_of(runs[i], l0[i], 0, Some(i as u32))
        &&& forall|i: int| #![trigger runs[n0 + i]]
            0 <= i < sel.len() ==> run_of(runs[n0 + i], l1[sel[i]], 1, None)
    }

    /// `c` promotes level 0 with the level-1 tables `sel`, through the
    /// merge of `runs`; its inputs are those tables, by level and name.
    pub open spec fn promotes_with(&self, catalog: &Catalog, c: Compaction, sel: Seq<int>, runs: Seq<RunView>) -> bool {
        let names = catalog.names();
        let n0 = catalog.levels()[0].len() as int;
        &&& self.plans(catalog, sel, runs)
        &&& combined(runs, c.outputs@, self.size_limit())
        &&& c.inputs@.len() == runs.len()
        &&& c.dirs@.len() == if catalog.levels().len() > 1 {
            2int
        } else {
            1int
        }
        &&& forall|l: int| 0 <= l < c.dirs@.len() ==> (#[trigger] c.dirs@[l])@ == catalog.dir_names()[l]
        &&& forall|i: int| #![trigger c.inputs@[i]]
            0 <= i < n0 ==> c.inputs@[i].0 == 0 && c.inputs@[i].1@ == names[0][i]
        &&& forall|i: int| #![trigger c.inputs@[n0 + i]]
            0 <= i < sel.len() ==> c.inputs@[n0 + i].0 == 1 && c.inputs@[n0 + i].1@ == names[1][sel[i]]
    }

    /// A piece of the planned merge makes a table beyond the format's limits.
    pub open spec fn too_large_with(
        &self,
        catalog: &Catalog,
        sel: Seq<int>,
        runs: Seq<RunView>,
        merged: Seq<RecordView>,
        chunks: Seq<Seq<RecordView>>,
        i: int,
    ) -> bool {
        &&& self.plans(catalog, sel, runs)
        &&& merge_result(runs, merged)
        &&& split_greedy(chunks, merged, self.size_limit())
        &&& 0 <= i < chunks.len()
        &&& encode_table(chunks[i]).len() > u32::MAX
    }

    /// Why a promotion fails: level 0 holds more tables than sequences can
    /// tag, or a piece of the merge would make a table beyond the format's
    /// limits (`TooLarge`); a table of level 0 or 1 scans to records out of
    /// order or beyond the format (`KeysNotAscending`); or a table of level 0
    /// or 1 does not scan (its error).
    pub open spec fn fails_with(&self, catalog: &Catalog, e: Corruption) -> bool {
        ||| e == Corruption::TooLarge && (catalog.levels()[0].len() > u32::MAX || exists|
            sel: Seq<int>,
            runs: Seq<RunView>,
            merged: Seq<RecordView>,
            chunks: Seq<Seq<RecordView>>,
            i: int,
        | #[trigger] self.too_large_with(catalog, sel, runs, merged, chunks, i))
        ||| e == Corruption::KeysNotAscending && exists|l: int, t: int|
            0 <= l < 2 && l < catalog.levels().len() && 0 <= t < catalog.levels()[l].len() && (
            table_scan(#[trigger] catalog.levels()[l][t]) matches Ok(rs) && !(records_ascending(rs)
                && all_encodable(rs)))
        ||| exists|l: int, t: int|
            0 <= l < 2 && l < catalog.levels().len() && 0 <= t < catalog.levels()[l].len()
                && table_scan(#[trigger] catalog.levels()[l][t]) == Err::<Seq<RecordView>, Corruption>(
                e,
            )
    }

    /// Promotes level 0: merges all its tables, newest sequence winning,
    /// with the level-1 tables whose key ranges meet level 0's key range,
    /// into new level-1 tables.
    pub fn compact_level_0(&self, catalog: &Catalog) -> (r: Result<Compaction, Corruption>)
        requires
            catalog.wf(),
            catalog.levels().len() > 0,
            catalog.levels()[0].len() > 0,
        ensures
            match r {
                Ok(c) => self.promotes(catalog, c),
                Err(e) => self.fails_with(catalog, e),
            },
    {
        let ghost lv = catalog.levels();
        let ghost names = catalog.names();
        let ghost l0 = lv[0];
        let level0 = catalog.level(0);
        let n0 = level0.len();
        if n0 > 0xffff_ffff {
            return Err(Corruption::TooLarge);
        }
        let mut lo = level0[0].key_start();
        let mut hi = level0[0].key_end();
        let mut i: usize = 1;
        while i < n0
            invariant
                1 <= i <= n0,
                n0 == l0.len(),
                level0@.len() == n0,
                forall|t: int| 0 <= t < n0 ==> (#[trigger] level0@[t])@ == l0[t] && level0@[t].wf(),
                lo@ == range_lo(l0, i as int),
                hi@ == range_hi(l0, i as int),
            decreases n0 - i,
        {
            let ks = level0[i].key_start();
            let ke = level0[i].key_end();
            if bytes_lt(ks.as_slice(), lo.as_slice()) {
                lo = ks;
            }
            if bytes_lt(hi.as_slice(), ke.as_slice()) {
                hi = ke;
            }
            i = i + 1;
        }
        let ghost lo_v = lo@;
        let ghost hi_v = hi@;
        let mut tables: Vec<CombineTable> = Vec::new();
        let mut inputs: Vec<(usize, Vec<u8>)> = Vec::new();
        let ghost mut runs: Seq<RunView> = Seq::empty();
        let mut i: usize = 0;
        while i < n0
            invariant
                i <= n0,
                n0 == l0.len(),
                n0 <= 0xffff_ffff,
                lv == catalog.levels(),
                lv.len() > 0,
                l0 == lv[0],
                level0@.len() == n0,
                forall|t: int| 0 <= t < n0 ==> (#[trigger] level0@[t])@ == l0[t] && level0@[t].wf()
                    && level0@[t].file_name() == names[0][t],
                tables_valid(tables@),
                runs == runs_of(tables@),
                tables@.len() == i,
                inputs@.len() == i,
                forall|t: int| #![trigger runs[t]] #![trigger inputs@[t]]
                    0 <= t < i ==> run_of(runs[t], l0[t], 0, Some(t as u32))
                        && inputs@[t].0 == 0 && inputs@[t].1@ == names[0][t],
            decreases n0 - i,
        {
            let records = match level0[i].scan() {
                Ok(rs) => rs,
                Err(e) => {
                    assert(table_scan(catalog.levels()[0][i as int]) == Err::<Seq<RecordView>, Corruption>(e));
                    return Err(e);
                },
            };
            if !check_run(&records) {
                assert(table_scan(catalog.levels()[0][i as int]) == Ok::<Seq<RecordView>, Corruption>(
                    read_views(records@),
                ));
                return Err(Corruption::KeysNotAscending);
            }
            let ghost rv = read_views(records@);
            let ghost old_runs = runs;
            let ghost old_inputs = inputs@;
            let ghost old_tables = tables@;
            tables.push(CombineTable { table: records, level: 0, sequence: Some(i as u32) });
            inputs.push((0, to_vec(level0[i].name().as_slice())));
            proof {
                runs = runs_of(tables@);
                assert forall|t: int| #![trigger runs[t]] #![trigger inputs@[t]]
                    0 <= t < i + 1 implies run_of(runs[t], l0[t], 0, Some(t as u32))
                        && inputs@[t].0 == 0 && inputs@[t].1@ == names[0][t] by {
                    if t < i {
                        assert(runs[t] == old_runs[t]);
                        assert(inputs@[t] == old_inputs[t]);
                    } else {
                        assert(runs[t].records == rv);
                    }
                }
                assert(tables_valid(tables@)) by {
                    assert forall|j: int| 0 <= j < tables@.len() implies records_ascending(
                        read_views((#[trigger] tables@[j]).table@),
                    ) && all_encodable(read_views(tables@[j].table@)) by {
                        if j < i {
                            assert(tables@[j] == old_tables[j]);
                        }
                    }
                }
            }
            i = i + 1;
        }
        let ghost mut sel: Seq<int> = Seq::empty();
        let ghost l1: Seq<TableView> = if lv.len() > 1 {
            lv[1]
        } else {
            Seq::empty()
        };
        if catalog.level_count() > 1 {
            let level1 = catalog.level(1);
            let n1 = level1.len();
            let mut t: usize = 0;
            while t < n1
                invariant
                    t <= n1,
                    n1 == l1.len(),
                    lv == catalog.levels(),
                    lv.len() > 1,
                    l1 == lv[1],
                    level1@.len() == n1,
                    forall|x: int| 0 <= x < n1 ==> (#[trigger] level1@[x])@ == l1[x] && level1@[x].wf()
                        && level1@[x].file_name() == names[1][x],
                    lo@ == lo_v,
                    hi@ == hi_v,
                    tables_valid(tables@),
                    runs == runs_of(tables@),
                    tables@.len() == n0 + sel.len(),
                    inputs@.len() == n0 + sel.len(),
                    forall|x: int| #![trigger runs[x]] #![trigger inputs@[x]]
                        0 <= x < n0 ==> run_of(runs[x], l0[x], 0, Some(x as u32))
                            && inputs@[x].0 == 0 && inputs@[x].1@ == names[0][x],
                    forall|a: int, b: int| 0 <= a < b < sel.len() ==> sel[a] < sel[b],
                    forall|a: int| 0 <= a < sel.len() ==> 0 <= #[trigger] sel[a] < t && overlaps(
                        l1[sel[a]],
                        lo_v,
                        hi_v,
                    ),
                    forall|x: int| 0 <= x < t && overlaps(#[trigger] l1[x], lo_v, hi_v) ==> sel.contains(x),
                    forall|a: int| #![trigger runs[n0 + a]] #![trigger inputs@[n0 + a]]
                        0 <= a < sel.len() ==> run_of(runs[n0 + a], l1[sel[a]], 1, None)
                            && inputs@[n0 + a].0 == 1 && inputs@[n0 + a].1@ == names[1][sel[a]],
                decreases n1 - t,
            {
                let ks = level1[t].key_start();
                let ke = level1[t].key_end();
                let meets = !bytes_lt(ke.as_slice(), lo.as_slice()) && !bytes_lt(hi.as_slice(), ks.as_slice());
                proof {
                    lemma_lex_total(ks@, lo@);
                    lemma_lex_total(hi@, ks@);
                    lemma_lex_total(ke@, lo@);
                    lemma_lex_total(hi@, ke@);
                    lemma_lex_irreflexive(ks@);
                    lemma_lex_irreflexive(ke@);
                }
                if meets {
                    let records = match level1[t].scan() {
                        Ok(rs) => rs,
                        Err(e) => {
                            assert(table_scan(catalog.levels()[1][t as int]) == Err::<Seq<RecordView>, Corruption>(e));
                            return Err(e);
                        },
                    };
                    if !check_run(&records) {
                        assert(table_scan(catalog.levels()[1][t as int]) == Ok::<
                            Seq<RecordView>,
                            Corruption,
                        >(read_views(records@)));
                        return Err(Corruption::KeysNotAscending);
                    }
                    let ghost rv = read_views(records@);
                    let ghost old_sel = sel;
                    let ghost old_runs = runs;
                    let ghost old_inputs = inputs@;
                    let ghost old_tables = tables@;
                    tables.push(CombineTable { table: records, level: 1, sequence: None });
                    inputs.push((1, to_vec(level1[t].name().as_slice())));
                    proof {
                        runs = runs_of(tables@);
                        sel = sel.push(t as int);
                        let k = old_tables.len() as int;
                        assert(runs[k].records == rv);
                        assert forall|x: int| #![trigger runs[x]] #![trigger inputs@[x]]
                            0 <= x < n0 implies run_of(runs[x], l0[x], 0, Some(x as u32))
                                && inputs@[x].0 == 0 && inputs@[x].1@ == names[0][x] by {
                            assert(runs[x] == old_runs[x]);
                            assert(inputs@[x] == old_inputs[x]);
                        }
                        assert forall|a: int| #![trigger runs[n0 + a]] #![trigger inputs@[n0 + a]]
                            0 <= a < sel.len() implies run_of(runs[n0 + a], l1[sel[a]], 1, None)
                                && inputs@[n0 + a].0 == 1 && inputs@[n0 + a].1@ == names[1][sel[a]] by {
                            if a < old_sel.len() {
                                assert(runs[n0 + a] == old_runs[n0 + a]);
                                assert(inputs@[n0 + a] == old_inputs[n0 + a]);
                                assert(sel[a] == old_sel[a]);
                            } else {
                                assert(sel[a] == t);
                                assert(n0 + a == k);
                                assert(runs[n0 + a].records == rv);
                                assert(inputs@[n0 + a].1@ == names[1][t as int]);
                            }
                        }
                        assert(tables_valid(tables@)) by {
                            assert forall|j: int| 0 <= j < tables@.len() implies records_ascending(
                                read_views((#[trigger] tables@[j]).table@),
                            ) && all_encodable(read_views(tables@[j].table@)) by {
                                if j < k {
                                    assert(tables@[j] == old_tables[j]);
                                }
                            }
                        }
                        assert forall|x: int| 0 <= x < t + 1 && overlaps(#[trigger] l1[x], lo_v, hi_v) implies sel.contains(x) by {
                            if x < t {
                                assert(old_sel.contains(x));
                                let w = choose|w: int| 0 <= w < old_sel.len() && old_sel[w] == x;
                                assert(sel[w] == x);
                            } else {
                                assert(sel[old_sel.len() as int] == x);
                            }
                        }
                    }
                    assert(runs[n0 + sel.len() - 1].records == rv);
                } else {
                    assert(!overlaps(l1[t as int], lo_v, hi_v));
                }
                t = t + 1;
            }
        }
        proof {
            let n0i = l0.len() as int;
            assert(lo_v == range_lo(l0, n0i));
            assert(hi_v == range_hi(l0, n0i));
            assert(l1 == if lv.len() > 1 {
                lv[1]
            } else {
                Seq::<TableView>::empty()
            });
            assert(runs.len() == n0i + sel.len());
            assert(forall|x: int| #![trigger runs[x]] 0 <= x < n0i ==> run_of(runs[x], l0[x], 0, Some(x as u32)));
            assert(forall|a: int| #![trigger runs[n0i + a]]
                0 <= a < sel.len() ==> run_of(runs[n0i + a], l1[sel[a]], 1, None));
            assert(self.plans(catalog, sel, runs));
        }
        let ghost tv = tables@;
        let outputs = match combine_tables(tables, self.table_size_limit) {
            Ok(o) => o,
            Err(e) => {
                proof {
                    let (merged, chunks, k) = choose|
                        merged: Seq<RecordView>,
                        chunks: Seq<Seq<RecordView>>,
                        k: int,
                    |
                        #![trigger split_greedy(chunks, merged, self.table_size_limit as nat), chunks[k]]
                        merge_result(runs_of(tv), merged) && split_greedy(
                            chunks,
                            merged,
                            self.table_size_limit as nat,
                        ) && 0 <= k < chunks.len() && encode_table(chunks[k]).len() > u32::MAX;
                    assert(self.too_large_with(catalog, sel, runs, merged, chunks, k));
                }
                return Err(e);
            },
        };
        let mut dirs: Vec<Vec<u8>> = Vec::new();
        dirs.push(to_vec(catalog.level_dir(0).as_slice()));
        if catalog.level_count() > 1 {
            dirs.push(to_vec(catalog.level_dir(1).as_slice()));
        }
        let c = Compaction { outputs, inputs, dirs };
        proof {
            let n0i = l0.len() as int;
            assert(lo_v == range_lo(l0, n0i));
            assert(hi_v == range_hi(l0, n0i));
            assert(selects(l1, lo_v, hi_v, sel));
            assert(combined(runs, c.outputs@, self.size_limit()));
            assert(runs.len() == n0i + sel.len());
            assert(c.inputs@.len() == runs.len());
            assert(forall|x: int| #![trigger runs[x]] #![trigger c.inputs@[x]]
                0 <= x < n0i ==> run_of(runs[x], l0[x], 0, Some(x as u32))
                    && c.inputs@[x].0 == 0 && c.inputs@[x].1@ == names[0][x]);
            assert(forall|a: int| #![trigger runs[n0i + a]] #![trigger c.inputs@[n0i + a]]
                0 <= a < sel.len() ==> run_of(runs[n0i + a], l1[sel[a]], 1, None)
                    && c.inputs@[n0i + a].0 == 1 && c.inputs@[n0i + a].1@ == names[1][sel[a]]);
            assert(l1 == if lv.len() > 1 {
                lv[1]
            } else {
                Seq::<TableView>::empty()
            });
            assert(lv == catalog.levels() && names == catalog.names() && l0 == lv[0]);
        }
        assert(self.promotes_with(catalog, c, sel, runs));
        Ok(c)
    }
}

/// The record for `key` in a run, the last one if several.
pub open spec fn record_for(rs: Seq<RecordView>, key: Seq<u8>) -> Option<RecordView>
    decreases rs.len(),
{
    if rs.len() == 0 {
        None
    } else if rs.last().key == key {
        Some(rs.last())
    } else {
        record_for(rs.drop_last(), key)
    }
}

/// Reading `key` through runs newest (last) first: the first record found.
pub open spec fn read_level(ts: Seq<Seq<RecordView>>, key: Seq<u8>) -> Option<RecordView>
    decreases ts.len(),
{
    if ts.len() == 0 {
        None
    } else {
        match record_for(ts.last(), key) {
            Some(r) => Some(r),
            None => read_level(ts.drop_last(), key),
        }
    }
}

/// Reading `key` through the level-0 runs, newest first, then the level-1
/// runs.
pub open spec fn read_through(l0: Seq<Seq<RecordView>>, l1: Seq<Seq<RecordView>>, key: Seq<u8>) -> Option<
    RecordView,
> {
    match read_level(l0, key) {
        Some(r) => Some(r),
        None => read_level(l1, key),
    }
}

/// The runs a promotion merges: level-0 run `i` tagged with sequence `i`,
/// then the level-1 runs.
pub open spec fn promotion_runs(l0: Seq<Seq<RecordView>>, l1: Seq<Seq<RecordView>>) -> Seq<RunView> {
    Seq::new(
        l0.len() + l1.len(),
        |j: int|
            if j < l0.len() {
                RunView { records: l0[j], level: 0, sequence: Some(j as u32) }
            } else {
                RunView { records: l1[j - l0.len()], level: 1, sequence: None }
            },
    )
}

/// No key is in two of the runs.
pub open spec fn runs_disjoint(ts: Seq<Seq<RecordView>>) -> bool {
    forall|i: int, j: int, a: int, b: int|
        0 <= i < ts.len() && 0 <= j < ts.len() && i != j && 0 <= a < ts[i].len() && 0 <= b
            < ts[j].len() ==> (#[trigger] ts[i][a]).key != (#[trigger] ts[j][b]).key
}

proof fn lemma_record_for_found(rs: Seq<RecordView>, idx: int)
    requires
        records_ascending(rs),
        0 <= idx < rs.len(),
    ensures
        record_for(rs, rs[idx].key) == Some(rs[idx]),
    decreases rs.len(),
{
    if idx < rs.len() - 1 {
        assert(lex_lt(rs[idx].key, rs.last().key));
        lemma_lex_irreflexive(rs[idx].key);
        let d = rs.drop_last();
        assert(records_ascending(d)) by {
            assert forall|a: int, b: int| 0 <= a < b < d.len() implies lex_lt(d[a].key, d[b].key) by {
                assert(d[a] == rs[a] && d[b] == rs[b]);
            }
        }
        lemma_record_for_found(d, idx);
        assert(d[idx] == rs[idx]);
    }
}

proof fn lemma_record_for_some(rs: Seq<RecordView>, key: Seq<u8>)
    ensures
        record_for(rs, key) matches Some(r) ==> exists|a: int| 0 <= a < rs.len() && rs[a] == r && r.key == key,
        record_for(rs, key) is None ==> forall|a: int| 0 <= a < rs.len() ==> rs[a].key != key,
    decreases rs.len(),
{
    if rs.len() > 0 {
        let d = rs.drop_last();
        lemma_record_for_some(d, key);
        if rs.last().key != key {
            if let Some(r) = record_for(d, key) {
                let a = choose|a: int| 0 <= a < d.len() && d[a] == r && r.key == key;
                assert(rs[a] == d[a]);
            } else {
                assert forall|a: int| 0 <= a < rs.len() implies rs[a].key != key by {
                    if a < d.len() {
                        assert(rs[a] == d[a]);
                    }
                }
            }
        }
    }
}

proof fn lemma_read_level_some(ts: Seq<Seq<RecordView>>, key: Seq<u8>)
    ensures
        read_level(ts, key) matches Some(r) ==> exists|i: int, a: int|
            0 <= i < ts.len() && 0 <= a < ts[i].len() && ts[i][a] == r && r.key == key,
        read_level(ts, key) is None ==> forall|i: int, a: int|
            0 <= i < ts.len() && 0 <= a < ts[i].len() ==> ts[i][a].key != key,
    decreases ts.len(),
{
    if ts.len() > 0 {
        let d = ts.drop_last();
        let n = ts.len() - 1;
        lemma_read_level_some(d, key);
        lemma_record_for_some(ts.last(), key);
        match record_for(ts.last(), key) {
            Some(r) => {
                let a = choose|a: int| 0 <= a < ts.last().len() && ts.last()[a] == r && r.key == key;
                assert(ts[n][a] == r);
            },
            None => {
                if let Some(r) = read_level(d, key) {
                    let (i, a) = choose|i: int, a: int|
                        0 <= i < d.len() && 0 <= a < d[i].len() && d[i][a] == r && r.key == key;
                    assert(ts[i] == d[i]);
                } else {
                    assert forall|i: int, a: int| 0 <= i < ts.len() && 0 <= a < ts[i].len() implies ts[i][a].key
                        != key by {
                        if i < n {
                            assert(ts[i] == d[i]);
                        }
                    }
                }
            },
        }
    }
}

/// The newest run holding `key` decides a read.
proof fn lemma_read_level_found(ts: Seq<Seq<RecordView>>, key: Seq<u8>, j: int, idx: int)
    requires
        0 <= j < ts.len(),
        0 <= idx < ts[j].len(),
        ts[j][idx].key == key,
        records_ascending(ts[j]),
        forall|i: int, a: int| j < i < ts.len() && 0 <= a < ts[i].len() ==> ts[i][a].key != key,
    ensures
        read_level(ts, key) == Some(ts[j][idx]),
    decreases ts.len(),
{
    let n = ts.len() - 1;
    if j == n {
        lemma_record_for_found(ts[j], idx);
    } else {
        lemma_record_for_some(ts.last(), key);
        assert forall|a: int| 0 <= a < ts.last().len() implies ts.last()[a].key != key by {
            assert(ts[n][a].key != key);
        }
        let d = ts.drop_last();
        assert(d[j] == ts[j]);
        assert forall|i: int, a: int| j < i < d.len() && 0 <= a < d[i].len() implies d[i][a].key != key by {
            assert(d[i] == ts[i]);
        }
        lemma_read_level_found(d, key, j, idx);
        if record_for(ts.last(), key) is Some {
            let r = record_for(ts.last(), key)->0;
            assert(exists|a: int| 0 <= a < ts.last().len() && ts.last()[a] == r && r.key == key);
        }
    }
}

/// What a promotion merges agrees with reads: for every key, the record
/// that the merge keeps is the one that a read through level 0, newest
/// first, then the merged level-1 tables finds; and the merge keeps a
/// record for every key such a read finds. The level-1 tables must not
/// share keys.
pub proof fn lemma_promotion_keeps_reads(
    l0: Seq<Seq<RecordView>>,
    l1: Seq<Seq<RecordView>>,
    merged: Seq<RecordView>,
)
    requires
        l0.len() <= u32::MAX,
        forall|i: int| 0 <= i < l0.len() ==> records_ascending(#[trigger] l0[i]),
        forall|i: int| 0 <= i < l1.len() ==> records_ascending(#[trigger] l1[i]),
        runs_disjoint(l1),
        merge_result(promotion_runs(l0, l1), merged),
    ensures
        forall|a: int| 0 <= a < merged.len() ==> read_through(l0, l1, (#[trigger] merged[a]).key) == Some(merged[a]),
        forall|key: Seq<u8>| #[trigger] read_through(l0, l1, key) is Some ==> has_key(merged, key),
{
    let runs = promotion_runs(l0, l1);
    let n0 = l0.len() as int;
    assert forall|a: int| 0 <= a < merged.len() implies read_through(l0, l1, (#[trigger] merged[a]).key) == Some(
        merged[a],
    ) by {
        let r = merged[a];
        let key = r.key;
        assert(newest_in(runs, r));
        let (j, idx) = choose|j: int, idx: int|
            #![trigger runs[j].records[idx]]
            0 <= j < runs.len() && 0 <= idx < runs[j].records.len() && runs[j].records[idx] == r && (
            forall|j2: int, k2: int|
                0 <= j2 < runs.len() && 0 <= k2 < runs[j2].records.len() && #[trigger] runs[j2].records[k2].key
                    == r.key ==> j2 == j || run_newer(runs, j, j2));
        if j < n0 {
            assert(runs[j].records == l0[j]);
            assert forall|i: int, x: int| j < i < l0.len() && 0 <= x < l0[i].len() implies l0[i][x].key != key by {
                assert(runs[i].records == l0[i]);
                if l0[i][x].key == key {
                    assert(runs[i].records[x].key == key);
                    assert(run_newer(runs, j, i));
                }
            }
            lemma_read_level_found(l0, key, j, idx);
        } else {
            let j1 = j - n0;
            assert(runs[j].records == l1[j1]);
            assert forall|i: int, x: int| 0 <= i < l0.len() && 0 <= x < l0[i].len() implies l0[i][x].key != key by {
                assert(runs[i].records == l0[i]);
                if l0[i][x].key == key {
                    assert(runs[i].records[x].key == key);
                    assert(run_newer(runs, j, i));
                }
            }
            lemma_read_level_some(l0, key);
            assert forall|i: int, x: int| j1 < i < l1.len() && 0 <= x < l1[i].len() implies l1[i][x].key != key by {
                assert(l1[j1][idx].key == key);
                assert(l1[i][x].key != l1[j1][idx].key);
            }
            lemma_read_level_found(l1, key, j1, idx);
        }
    }
    assert forall|key: Seq<u8>| #[trigger] read_through(l0, l1, key) is Some implies has_key(merged, key) by {
        lemma_read_level_some(l0, key);
        lemma_read_level_some(l1, key);
        if let Some(r) = read_level(l0, key) {
            let (i, x) = choose|i: int, x: int| 0 <= i < l0.len() && 0 <= x < l0[i].len() && l0[i][x] == r && r.key == key;
            assert(runs[i].records == l0[i]);
            assert(has_key(merged, runs[i].records[x].key));
        } else {
            let r = read_level(l1, key)->0;
            let (i, x) = choose|i: int, x: int| 0 <= i < l1.len() && 0 <= x < l1[i].len() && l1[i][x] == r && r.key == key;
            assert(runs[n0 + i].records == l1[i]);
            assert(has_key(merged, runs[n0 + i].records[x].key));
        }
    }
}

proof fn lemma_record_for_concat(a: Seq<RecordView>, b: Seq<RecordView>, key: Seq<u8>)
    ensures
        record_for(a + b, key) == match record_for(b, key) {
            Some(r) => Some(r),
            None => record_for(a, key),
        },
    decreases b.len(),
{
    if b.len() == 0 {
        assert(a + b =~= a);
    } else {
        assert((a + b).last() == b.last());
        assert((a + b).drop_last() =~= a + b.drop_last());
        lemma_record_for_concat(a, b.drop_last(), key);
    }
}

/// Reading through consecutive pieces of a run, newest piece first, reads
/// the run.
proof fn lemma_read_pieces(chunks: Seq<Seq<RecordView>>, key: Seq<u8>)
    ensures
        read_level(chunks, key) == record_for(chunks.flatten(), key),
    decreases chunks.len(),
{
    if chunks.len() > 0 {
        let d = chunks.drop_last();
        lemma_read_pieces(d, key);
        d.lemma_flatten_push(chunks.last());
        assert(d.push(chunks.last()) =~= chunks);
        lemma_record_for_concat(d.flatten(), chunks.last(), key);
    } else {
        assert(chunks.flatten() =~= Seq::<RecordView>::empty());
    }
}

/// A promotion keeps every read: reading any key through the pieces that
/// the merged run is cut into gives what reading it through level 0, newest
/// first, then the merged level-1 tables gave. The level-1 tables must not
/// share keys.
pub proof fn lemma_promotion_preserves_reads(
    l0: Seq<Seq<RecordView>>,
    l1: Seq<Seq<RecordView>>,
    merged: Seq<RecordView>,
    chunks: Seq<Seq<RecordView>>,
    key: Seq<u8>,
)
    requires
        l0.len() <= u32::MAX,
        forall|i: int| 0 <= i < l0.len() ==> records_ascending(#[trigger] l0[i]),
        forall|i: int| 0 <= i < l1.len() ==> records_ascending(#[trigger] l1[i]),
        runs_disjoint(l1),
        merge_result(promotion_runs(l0, l1), merged),
        chunks.flatten() == merged,
    ensures
        read_level(chunks, key) == read_through(l0, l1, key),
{
    lemma_promotion_keeps_reads(l0, l1, merged);
    lemma_read_pieces(chunks, key);
    assert(records_ascending(merged)) by {
        assert(output_ascending(merged));
    }
    if read_through(l0, l1, key) is Some {
        assert(has_key(merged, key));
        let a = choose|a: int| 0 <= a < merged.len() && #[trigger] merged[a].key == key;
        lemma_record_for_found(merged, a);
    } else {
        lemma_record_for_some(merged, key);
        if record_for(merged, key) is Some {
            let r = record_for(merged, key)->0;
            let a = choose|a: int| 0 <= a < merged.len() && merged[a] == r && r.key == key;
            assert(read_through(l0, l1, merged[a].key) == Some(merged[a]));
        }
    }
}

/// The table that building from the records `rs` and opening gives.
pub open spec fn built_table(rs: Seq<RecordView>) -> TableView {
    TableView { data: encode_table(rs), entries: index_entries(rs), index_start: encode_records(rs).len() }
}

/// `rs` can be built into a table: non-empty, ascending, within the format.
pub open spec fn buildable(rs: Seq<RecordView>) -> bool {
    &&& rs.len() > 0
    &&& records_ascending(rs)
    &&& all_encodable(rs)
    &&& encode_table(rs).len() <= u32::MAX
}

proof fn lemma_table_get_built(rs: Seq<RecordView>, key: Seq<u8>)
    requires
        buildable(rs),
    ensures
        table_get(built_table(rs), key) == Ok::<Option<RecordView>, Corruption>(record_for(rs, key)),
{
    lemma_table_round_trip(rs);
    lemma_record_for_some(rs, key);
    if record_for(rs, key) is Some {
        let r = record_for(rs, key)->0;
        let a = choose|a: int| 0 <= a < rs.len() && rs[a] == r && r.key == key;
        assert(table_get(built_table(rs), rs[a].key) == Ok::<Option<RecordView>, Corruption>(Some(rs[a])));
    } else {
        assert(table_get(built_table(rs), key) == Ok::<Option<RecordView>, Corruption>(None));
    }
}

/// Reading a key through tables built from runs, newest table first, reads
/// it through the runs: a record found is returned, and no table fails.
pub proof fn lemma_level_get_built(rss: Seq<Seq<RecordView>>, key: Seq<u8>)
    requires
        forall|i: int| 0 <= i < rss.len() ==> buildable(#[trigger] rss[i]),
    ensures
        level_get(rss.map_values(|rs: Seq<RecordView>| built_table(rs)), key) == Ok::<
            Option<RecordView>,
            Corruption,
        >(read_level(rss, key)),
    decreases rss.len(),
{
    let ts = rss.map_values(|rs: Seq<RecordView>| built_table(rs));
    if rss.len() > 0 {
        let d = rss.drop_last();
        lemma_level_get_built(d, key);
        assert(ts.drop_last() =~= d.map_values(|rs: Seq<RecordView>| built_table(rs)));
        assert(ts.last() == built_table(rss.last()));
        lemma_table_get_built(rss.last(), key);
    }
}

proof fn lemma_ascending_split(a: Seq<RecordView>, b: Seq<RecordView>)
    requires
        records_ascending(a + b),
    ensures
        records_ascending(a),
        records_ascending(b),
{
    assert forall|i: int, j: int| 0 <= i < j < b.len() implies lex_lt(b[i].key, b[j].key) by {
        assert((a + b)[a.len() + i] == b[i] && (a + b)[a.len() + j] == b[j]);
    }
    assert forall|i: int, j: int| 0 <= i < j < a.len() implies lex_lt(a[i].key, a[j].key) by {
        assert((a + b)[i] == a[i] && (a + b)[j] == a[j]);
    }
}

proof fn lemma_pieces_valid(chunks: Seq<Seq<RecordView>>)
    requires
        records_ascending(chunks.flatten()),
        all_encodable(chunks.flatten()),
    ensures
        forall|c: int| 0 <= c < chunks.len() ==> records_ascending(#[trigger] chunks[c]) && all_encodable(chunks[c]),
    decreases chunks.len(),
{
    if chunks.len() > 0 {
        let d = chunks.drop_last();
        d.lemma_flatten_push(chunks.last());
        assert(d.push(chunks.last()) =~= chunks);
        let f = d.flatten();
        let l = chunks.last();
        lemma_ascending_split(f, l);
        assert(all_encodable(f)) by {
            assert forall|i: int| 0 <= i < f.len() implies #[trigger] encodable(f[i]) by {
                assert((f + l)[i] == f[i]);
            }
        }
        assert(all_encodable(l)) by {
            assert forall|i: int| 0 <= i < l.len() implies #[trigger] encodable(l[i]) by {
                assert((f + l)[f.len() + i] == l[i]);
            }
        }
        lemma_pieces_valid(d);
        assert forall|c: int| 0 <= c < chunks.len() implies records_ascending(#[trigger] chunks[c])
            && all_encodable(chunks[c]) by {
            if c < d.len() {
                assert(chunks[c] == d[c]);
            }
        }
    }
}

/// A promotion keeps every read, stated over tables: when the level-0 and
/// the merged level-1 tables were built from their runs (the level-1 runs
/// sharing no keys), the new tables built from the pieces of the merge,
/// read newest first, give for every key what level 0, newest first, and
/// then those level-1 tables gave.
pub proof fn lemma_promotion_preserves_table_reads(
    l0: Seq<Seq<RecordView>>,
    l1: Seq<Seq<RecordView>>,
    merged: Seq<RecordView>,
    chunks: Seq<Seq<RecordView>>,
    limit: nat,
    key: Seq<u8>,
)
    requires
        l0.len() <= u32::MAX,
        forall|i: int| 0 <= i < l0.len() ==> buildable(#[trigger] l0[i]),
        forall|i: int| 0 <= i < l1.len() ==> buildable(#[trigger] l1[i]),
        runs_disjoint(l1),
        merge_result(promotion_runs(l0, l1), merged),
        split_greedy(chunks, merged, limit),
        forall|c: int| 0 <= c < chunks.len() ==> encode_table(#[trigger] chunks[c]).len() <= u32::MAX,
    ensures
        level_get(chunks.map_values(|rs: Seq<RecordView>| built_table(rs)), key) == match level_get(
            l0.map_values(|rs: Seq<RecordView>| built_table(rs)),
            key,
        ) {
            Ok(None) => level_get(l1.map_values(|rs: Seq<RecordView>| built_table(rs)), key),
            other => other,
        },
{
    lemma_promotion_preserves_reads(l0, l1, merged, chunks, key);
    lemma_level_get_built(l0, key);
    lemma_level_get_built(l1, key);
    let runs = promotion_runs(l0, l1);
    assert(records_ascending(merged)) by {
        assert(output_ascending(merged));
    }
    assert(all_encodable(merged)) by {
        assert forall|a: int| 0 <= a < merged.len() implies #[trigger] encodable(merged[a]) by {
            assert(newest_in(runs, merged[a]));
            let (j, k) = choose|j: int, k: int|
                #![trigger runs[j].records[k]]
                0 <= j < runs.len() && 0 <= k < runs[j].records.len() && runs[j].records[k] == merged[a] && (
                forall|j2: int, k2: int|
                    0 <= j2 < runs.len() && 0 <= k2 < runs[j2].records.len() && #[trigger] runs[j2].records[k2].key
                        == merged[a].key ==> j2 == j || run_newer(runs, j, j2));
            if j < l0.len() {
                assert(runs[j].records == l0[j]);
                assert(all_encodable(l0[j]));
            } else {
                assert(runs[j].records == l1[j - l0.len()]);
                assert(all_encodable(l1[j - l0.len()]));
            }
        }
    }
    lemma_pieces_valid(chunks);
    assert forall|c: int| 0 <= c < chunks.len() implies buildable(#[trigger] chunks[c]) by {
        assert(chunks[c].len() > 0);
    }
    lemma_level_get_built(chunks, key);
}

} // verus!
