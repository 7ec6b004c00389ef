//! The k-way merge of sorted runs, newest record first for each key, and the
//! cutting of its output into new tables.
use crate::bytes::{bytes_eq, bytes_lt, lemma_lex_irreflexive, lemma_lex_total, lemma_lex_transitive, lex_lt, to_vec};
use crate::memtable::read_views;
use crate::protocol::{all_encodable, encodable, encode_records, lemma_encode_records_push, Corruption, ReadRecord, RecordView};
use crate::sst::table::{build_table, encode_table, records_ascending};
use vstd::prelude::*;

verus! {

/// `a` holds newer data than `b`: a lower level, or at the same level a
/// higher sequence (a sequence is newer than none). Runs with equal tags fall
/// back to the order in which they were added.
pub open spec fn newer(
    a_level: nat,
    a_seq: Option<u32>,
    a_idx: int,
    b_level: nat,
    b_seq: Option<u32>,
    b_idx: int,
) -> bool {
    if a_level != b_level {
        a_level < b_level
    } else if a_seq != b_seq {
        match (a_seq, b_seq) {
            (Some(x), Some(y)) => x > y,
            (Some(_), None) => true,
            _ => false,
        }
    } else {
        a_idx < b_idx
    }
}

/// A sorted run as the merge sees it: its records and tag.
pub struct RunView {
    pub records: Seq<RecordView>,
    pub level: nat,
    pub sequence: Option<u32>,
}

/// Run `a` of `runs` is newer than run `b`.
pub open spec fn run_newer(runs: Seq<RunView>, a: int, b: int) -> bool {
    newer(runs[a].level, runs[a].sequence, a, runs[b].level, runs[b].sequence, b)
}

/// `rec` is the newest record for its key among all runs: it is record `k`
/// of run `j`, and every other run holding its key is older.
pub open spec fn newest_in(runs: Seq<RunView>, rec: RecordView) -> bool {
    exists|j: int, k: int|
        #![trigger runs[j].records[k]]
        0 <= j < runs.len() && 0 <= k < runs[j].records.len() && runs[j].records[k] == rec && (
        forall|j2: int, k2: int|
            0 <= j2 < runs.len() && 0 <= k2 < runs[j2].records.len() && #[trigger] runs[j2].records[k2].key
                == rec.key ==> j2 == j || run_newer(runs, j, j2))
}

/// The keys of `rs` ascend strictly.
pub open spec fn output_ascending(rs: Seq<RecordView>) -> bool {
    forall|a: int, b: int| 0 <= a < b < rs.len() ==> lex_lt(rs[a].key, rs[b].key)
}

/// `rs` holds a record for `key`.
pub open spec fn has_key(rs: Seq<RecordView>, key: Seq<u8>) -> bool {
    exists|a: int| 0 <= a < rs.len() && #[trigger] rs[a].key == key
}

/// `out` is the merge of `runs`: keys strictly ascending, each record the
/// newest for its key, and every key of every run present.
pub open spec fn merge_result(runs: Seq<RunView>, out: Seq<RecordView>) -> bool {
    &&& output_ascending(out)
    &&& forall|a: int| 0 <= a < out.len() ==> newest_in(runs, #[trigger] out[a])
    &&& forall|j: int, k: int|
        0 <= j < runs.len() && 0 <= k < runs[j].records.len() ==> has_key(
            out,
            #[trigger] runs[j].records[k].key,
        )
}

/// A run of records may form one output table under `limit` bytes of
/// records: it holds a single record or its records fit.
pub open spec fn chunk_fits(c: Seq<RecordView>, limit: nat) -> bool {
    c.len() == 1 || encode_records(c).len() <= limit
}

/// `chunks` cuts `rs` greedily into non-empty pieces that each fit `limit`,
/// each taking as many records as fit.
pub open spec fn split_greedy(chunks: Seq<Seq<RecordView>>, rs: Seq<RecordView>, limit: nat) -> bool {
    &&& chunks.flatten() == rs
    &&& forall|i: int| 0 <= i < chunks.len() ==> (#[trigger] chunks[i]).len() > 0 && chunk_fits(chunks[i], limit)
    &&& forall|i: int|
        0 <= i < chunks.len() - 1 ==> !chunk_fits((#[trigger] chunks[i]).push(chunks[i + 1][0]), limit)
}

proof fn lemma_newer_transitive(runs: Seq<RunView>, a: int, b: int, c: int)
    requires
        run_newer(runs, a, b),
        run_newer(runs, b, c),
    ensures
        run_newer(runs, a, c),
{
}

proof fn lemma_newer_total(runs: Seq<RunView>, a: int, b: int)
    requires
        a != b,
    ensures
        run_newer(runs, a, b) || run_newer(runs, b, a),
        !(run_newer(runs, a, b) && run_newer(runs, b, a)),
{
}

/// The records left in the first `n` runs, given their lengths and
/// positions.
pub open spec fn left_in(lens: Seq<nat>, pos: Seq<nat>, n: int) -> int
    decreases n,
{
    if n <= 0 {
        0
    } else {
        left_in(lens, pos, n - 1) + lens[n - 1] - pos[n - 1]
    }
}

proof fn lemma_left_in_decreases(lens: Seq<nat>, pos: Seq<nat>, pos2: Seq<nat>, n: int, at: int)
    requires
        0 <= n <= lens.len(),
        lens.len() == pos.len() == pos2.len(),
        forall|j: int| 0 <= j < n ==> pos[j] <= #[trigger] pos2[j] <= lens[j],
    ensures
        left_in(lens, pos2, n) <= left_in(lens, pos, n),
        0 <= left_in(lens, pos2, n),
        0 <= at < n && pos[at] < pos2[at] ==> left_in(lens, pos2, n) < left_in(lens, pos, n),
    decreases n,
{
    if n > 0 {
        lemma_left_in_decreases(lens, pos, pos2, n - 1, at);
    }
}

/// A sorted run tagged with where its data comes from.
pub struct CombineTable {
    pub table: Vec<ReadRecord>,
    pub level: usize,
    pub sequence: Option<u32>,
}

/// A run being merged.
struct IterBuf {
    records: Vec<ReadRecord>,
    level: usize,
    sequence: Option<u32>,
}

/// Merges sorted runs into one strictly ascending run holding, for each key,
/// the record of the newest run that has it.
pub struct MergeIter {
    iters: Vec<IterBuf>,
    positions: Vec<usize>,
    emitted: Ghost<Seq<RecordView>>,
}

/// A fresh copy of a record.
pub fn copy_record(r: &ReadRecord) -> (c: ReadRecord)
    ensures
        c@ == r@,
{
    match r {
        ReadRecord::Exists { key, val } => ReadRecord::Exists {
            key: to_vec(key.as_slice()),
            val: to_vec(val.as_slice()),
        },
        ReadRecord::Deleted { key } => ReadRecord::Deleted { key: to_vec(key.as_slice()) },
    }
}

impl MergeIter {
    /// The runs being merged.
    pub closed spec fn runs(&self) -> Seq<RunView> {
        Seq::new(
            self.iters@.len(),
            |j: int|
                RunView {
                    records: read_views(self.iters@[j].records@),
                    level: self.iters@[j].level as nat,
                    sequence: self.iters@[j].sequence,
                },
        )
    }

    /// How far each run was read.
    pub closed spec fn pos(&self) -> Seq<nat> {
        Seq::new(self.positions@.len(), |j: int| self.positions@[j] as nat)
    }

    /// The records handed out so far.
    pub closed spec fn output(&self) -> Seq<RecordView> {
        self.emitted@
    }

    /// The record at run `j`'s position, which must be in range.
    pub open spec fn head(&self, j: int) -> RecordView {
        self.runs()[j].records[self.pos()[j] as int]
    }

    /// Run `j` has records left.
    pub open spec fn active(&self, j: int) -> bool {
        self.pos()[j] < self.runs()[j].records.len()
    }

    /// Every run ascends; what was handed out ascends, and it covers exactly
    /// the keys of the records already passed in each run; what is left in
    /// each run lies beyond it.
    pub closed spec fn wf(&self) -> bool {
        let runs = self.runs();
        let out = self.emitted@;
        &&& self.positions@.len() == self.iters@.len()
        &&& forall|j: int| 0 <= j < runs.len() ==> self.positions@[j] <= #[trigger] self.iters@[j].records@.len()
        &&& forall|j: int| 0 <= j < runs.len() ==> records_ascending(#[trigger] runs[j].records)
        &&& output_ascending(out)
        &&& forall|j: int, k: int|
            0 <= j < runs.len() && 0 <= k < self.positions@[j] ==> has_key(out, #[trigger] runs[j].records[k].key)
        &&& forall|j: int, k: int|
            0 <= j < runs.len() && self.positions@[j] <= k < runs[j].records.len() && out.len() > 0
                ==> lex_lt(out.last().key, #[trigger] runs[j].records[k].key)
        &&& forall|a: int| 0 <= a < out.len() ==> newest_in(runs, #[trigger] out[a])
    }

    /// The records not yet passed, over all runs.
    pub closed spec fn remaining(&self) -> int {
        left_in(
            Seq::new(self.iters@.len(), |j: int| self.iters@[j].records@.len()),
            self.pos(),
            self.iters@.len() as int,
        )
    }

    /// Whether run `a` is newer than run `b`.
    fn is_newer(&self, a: usize, b: usize) -> (r: bool)
        requires
            a < self.iters@.len(),
            b < self.iters@.len(),
        ensures
            r == run_newer(self.runs(), a as int, b as int),
    {
        let la = self.iters[a].level;
        let lb = self.iters[b].level;
        if la != lb {
            return la < lb;
        }
        match (self.iters[a].sequence, self.iters[b].sequence) {
            (Some(x), Some(y)) => {
                if x != y {
                    x > y
                } else {
                    a < b
                }
            },
            (Some(_), None) => true,
            (None, Some(_)) => false,
            (None, None) => a < b,
        }
    }

    /// Hands out the smallest key left in any run, with the record of the
    /// newest run that has it, and moves every run holding that key past it.
    /// `None` once all runs are used up.
    pub fn next(&mut self) -> (r: Option<ReadRecord>)
        requires
            old(self).wf(),
        ensures
            final(self).wf(),
            final(self).runs() == old(self).runs(),
            match r {
                None => final(self).output() == old(self).output() && final(self).pos() == old(
                    self,
                ).pos() && forall|j: int|
                    0 <= j < old(self).runs().len() ==> !old(self).active(j),
                Some(rec) => final(self).output() == old(self).output().push(rec@)
                    && final(self).remaining() < old(self).remaining(),
            },
            output_ascending(final(self).output()),
            forall|a: int|
                0 <= a < final(self).output().len() ==> newest_in(
                    final(self).runs(),
                    #[trigger] final(self).output()[a],
                ),
            r is None ==> merge_result(old(self).runs(), old(self).output()),
            0 <= final(self).remaining() <= old(self).remaining(),
    {
        let n = self.iters.len();
        let ghost runs = self.runs();
        let ghost lens = Seq::new(self.iters@.len(), |j: int| self.iters@[j].records@.len());
        proof {
            lemma_left_in_decreases(lens, self.pos(), self.pos(), n as int, 0);
        }
        let mut best: Option<usize> = None;
        let mut j: usize = 0;
        while j < n
            invariant
                self.wf(),
                n == self.iters@.len(),
                runs == self.runs(),
                j <= n,
                match best {
                    None => forall|x: int| 0 <= x < j ==> !self.active(x),
                    Some(b) => b < j && self.active(b as int) && forall|x: int|
                        0 <= x < j && self.active(x) ==> !lex_lt(
                            #[trigger] self.head(x).key,
                            self.head(b as int).key,
                        ) && (self.head(x).key == self.head(b as int).key ==> x == b
                            || run_newer(runs, b as int, x)),
                },
            decreases n - j,
        {
            let pj = self.positions[j];
            if pj < self.iters[j].records.len() {
                assert(self.head(j as int) == self.iters@[j as int].records@[pj as int]@);
                match best {
                    None => {
                        best = Some(j);
                        proof {
                            lemma_lex_irreflexive(self.head(j as int).key);
                        }
                    },
                    Some(b) => {
                        let pb = self.positions[b];
                        assert(self.head(b as int) == self.iters@[b as int].records@[pb as int]@);
                        let kj = self.iters[j].records[pj].key();
                        let kb = self.iters[b].records[pb].key();
                        let lt = bytes_lt(kj, kb);
                        let eq = bytes_eq(kj, kb);
                        if lt || (eq && self.is_newer(j, b)) {
                            let ghost hb = self.head(b as int).key;
                            let ghost hj = self.head(j as int).key;
                            best = Some(j);
                            assert forall|x: int| 0 <= x < j + 1 && self.active(x) implies !lex_lt(
                                #[trigger] self.head(x).key,
                                hj,
                            ) && (self.head(x).key == hj ==> x == j || run_newer(runs, j as int, x)) by {
                                let hx = self.head(x).key;
                                lemma_lex_total(hx, hj);
                                lemma_lex_total(hx, hb);
                                lemma_lex_total(hj, hb);
                                lemma_lex_irreflexive(hj);
                                if x < j {
                                    if lt {
                                        if lex_lt(hx, hj) {
                                            lemma_lex_transitive(hx, hj, hb);
                                        }
                                    } else {
                                        if x != b && hx == hj {
                                            lemma_newer_transitive(runs, j as int, b as int, x);
                                        }
                                    }
                                }
                            }
                        } else {
                            assert forall|x: int| 0 <= x < j + 1 && self.active(x) implies !lex_lt(
                                #[trigger] self.head(x).key,
                                self.head(b as int).key,
                            ) && (self.head(x).key == self.head(b as int).key ==> x == b
                                || run_newer(runs, b as int, x)) by {
                                if x == j {
                                    lemma_lex_total(self.head(x).key, self.head(b as int).key);
                                    if self.head(x).key == self.head(b as int).key {
                                        lemma_newer_total(runs, j as int, b as int);
                                    }
                                }
                            }
                        }
                    },
                }
            }
            j = j + 1;
        }
        let b = match best {
            None => {
                proof {
                    let rr = self.runs();
                    assert forall|j2: int, k: int|
                        0 <= j2 < rr.len() && 0 <= k < rr[j2].records.len() implies has_key(
                            self.emitted@,
                            #[trigger] rr[j2].records[k].key,
                        ) by {
                        assert(!self.active(j2));
                        assert(self.pos()[j2] == self.positions@[j2]);
                    }
                }
                return None;
            },
            Some(b) => b,
        };
        let pb = self.positions[b];
        let rec = copy_record(&self.iters[b].records[pb]);
        let ghost rk = rec@.key;
        let ghost old_pos = self.pos();
        let ghost out_old = self.emitted@;
        let ghost pre = *self;
        assert(rec@ == self.head(b as int));
        proof {
            if out_old.len() > 0 {
                assert(lex_lt(out_old.last().key, runs[b as int].records[pb as int].key));
            }
        }
        let mut j: usize = 0;
        while j < n
            invariant
                n == self.iters@.len(),
                n == self.positions@.len(),
                runs == self.runs(),
                lens == Seq::new(self.iters@.len(), |x: int| self.iters@[x].records@.len()),
                old_pos.len() == n,
                j <= n,
                rec@.key == rk,
                forall|x: int|
                    0 <= x < n ==> #[trigger] self.positions@[x] as nat == if x < j && old_pos[x]
                        < runs[x].records.len() && runs[x].records[old_pos[x] as int].key == rk {
                        old_pos[x] + 1
                    } else {
                        old_pos[x]
                    },
            decreases n - j,
        {
            let p = self.positions[j];
            if p < self.iters[j].records.len() {
                assert(runs[j as int].records[p as int] == self.iters@[j as int].records@[p as int]@);
                if bytes_eq(self.iters[j].records[p].key(), rec.key()) {
                    self.positions.set(j, p + 1);
                }
            }
            j = j + 1;
        }
        self.emitted = Ghost(out_old.push(rec@));
        let ghost out = self.emitted@;
        let ghost pos = self.pos();
        proof {
            assert forall|x: int| 0 <= x < n implies old_pos[x] <= #[trigger] pos[x] <= lens[x] by {
                assert(pos[x] == self.positions@[x] as nat);
            }
            assert(pos[b as int] == self.positions@[b as int] as nat);
            lemma_left_in_decreases(lens, old_pos, pos, n as int, b as int);
            assert(self.remaining() == left_in(lens, pos, n as int));
            // The key handed out lies beyond everything handed out before.
            assert forall|a: int| 0 <= a < out_old.len() implies lex_lt(#[trigger] out_old[a].key, rk) by {
                if a < out_old.len() - 1 {
                    lemma_lex_transitive(out_old[a].key, out_old.last().key, rk);
                }
            }
            assert(output_ascending(out));
            assert forall|j2: int, k: int|
                0 <= j2 < runs.len() && 0 <= k < self.positions@[j2] implies has_key(
                    out,
                    #[trigger] runs[j2].records[k].key,
                ) by {
                assert(pos[j2] == self.positions@[j2]);
                assert(self.positions@[j2] as nat == if old_pos[j2] < runs[j2].records.len()
                    && runs[j2].records[old_pos[j2] as int].key == rk {
                    old_pos[j2] + 1
                } else {
                    old_pos[j2]
                });
                if k < old_pos[j2] {
                    let a = choose|a: int| 0 <= a < out_old.len() && #[trigger] out_old[a].key
                        == runs[j2].records[k].key;
                    assert(out[a] == out_old[a]);
                } else {
                    assert(out[out_old.len() as int].key == rk);
                }
            }
            assert forall|j2: int, k: int|
                0 <= j2 < runs.len() && self.positions@[j2] <= k < runs[j2].records.len()
                    && out.len() > 0 implies lex_lt(out.last().key, #[trigger] runs[j2].records[k].key) by {
                assert(pos[j2] == self.positions@[j2]);
                assert(self.positions@[j2] as nat == if old_pos[j2] < runs[j2].records.len()
                    && runs[j2].records[old_pos[j2] as int].key == rk {
                    old_pos[j2] + 1
                } else {
                    old_pos[j2]
                });
                let p = old_pos[j2] as int;
                assert(records_ascending(runs[j2].records));
                let h = runs[j2].records[p].key;
                if p < k {
                    assert(lex_lt(h, runs[j2].records[k].key));
                }
                if h != rk {
                    assert(pre.active(j2));
                    assert(pre.head(j2).key == h);
                    lemma_lex_total(h, rk);
                    if p < k {
                        lemma_lex_transitive(rk, h, runs[j2].records[k].key);
                    }
                }
            }
            assert forall|a: int| 0 <= a < out.len() implies newest_in(runs, #[trigger] out[a]) by {
                if a < out_old.len() {
                    assert(out[a] == out_old[a]);
                } else {
                    assert(out[a] == runs[b as int].records[pb as int]);
                    assert forall|j2: int, k2: int|
                        0 <= j2 < runs.len() && 0 <= k2 < runs[j2].records.len()
                            && #[trigger] runs[j2].records[k2].key == rk implies j2 == b
                        || run_newer(runs, b as int, j2) by {
                        let p = old_pos[j2] as int;
                        lemma_lex_irreflexive(rk);
                        if k2 < p {
                            let c = choose|c: int| 0 <= c < out_old.len() && #[trigger] out_old[c].key
                                == runs[j2].records[k2].key;
                            assert(lex_lt(out_old[c].key, rk));
                        } else if k2 > p {
                            assert(records_ascending(runs[j2].records));
                            let h = runs[j2].records[p].key;
                            assert(lex_lt(h, rk));
                            assert(pre.active(j2));
                            assert(pre.head(j2).key == h);
                        } else {
                            assert(pre.active(j2));
                            assert(pre.head(j2).key == rk);
                        }
                    }
                }
            }
        }
        Some(rec)
    }

    /// Runs the merge to its end and returns everything it hands out: keys
    /// strictly ascending, for each key the record of the newest run that
    /// holds it, and every key of every run present.
    pub fn merge_all(self) -> (r: Vec<ReadRecord>)
        requires
            self.wf(),
            self.output().len() == 0,
        ensures
            merge_result(self.runs(), read_views(r@)),
    {
        let ghost runs = self.runs();
        let mut it = self;
        let mut out: Vec<ReadRecord> = Vec::new();
        loop
            invariant
                it.wf(),
                it.runs() == runs,
                runs == self.runs(),
                read_views(out@) == it.output(),
            decreases it.remaining(),
        {
            let ghost prev = it;
            match it.next() {
                None => {
                    proof {
                        assert forall|j: int, k: int|
                            0 <= j < runs.len() && 0 <= k < runs[j].records.len() implies has_key(
                                read_views(out@),
                                #[trigger] runs[j].records[k].key,
                            ) by {
                            assert(!prev.active(j));
                            assert(it.pos()[j] == prev.pos()[j]);
                        }
                    }
                    return out;
                },
                Some(rec) => {
                    let ghost before = read_views(out@);
                    out.push(rec);
                    assert(read_views(out@) =~= before.push(rec@));
                },
            }
        }
    }
    pub fn new() -> (r: MergeIter)
        ensures
            r.wf(),
            r.runs() == Seq::<RunView>::empty(),
            r.output() == Seq::<RecordView>::empty(),
    {
        let r = MergeIter { iters: Vec::new(), positions: Vec::new(), emitted: Ghost(Seq::empty()) };
        assert(r.runs() =~= Seq::<RunView>::empty());
        r
    }

    /// Adds a run, whose keys ascend strictly, before merging starts.
    pub fn push_iter(&mut self, iter: Vec<ReadRecord>, level: usize, sequence: Option<u32>)
        requires
            old(self).wf(),
            old(self).output().len() == 0,
            records_ascending(read_views(iter@)),
        ensures
            final(self).wf(),
            final(self).output().len() == 0,
            final(self).runs() == old(self).runs().push(
                RunView { records: read_views(iter@), level: level as nat, sequence },
            ),
    {
        let ghost old_runs = self.runs();
        self.iters.push(IterBuf { records: iter, level, sequence });
        self.positions.push(0);
        assert(self.runs() =~= old_runs.push(
            RunView { records: read_views(iter@), level: level as nat, sequence },
        ));
        assert forall|j: int| 0 <= j < self.runs().len() implies records_ascending(
            #[trigger] self.runs()[j].records,
        ) by {
            if j < old_runs.len() {
                assert(self.runs()[j] == old_runs[j]);
            }
        }
    }
}

/// The views of each run of records.
pub open spec fn chunk_views(cs: Seq<Vec<ReadRecord>>) -> Seq<Seq<RecordView>> {
    cs.map_values(|c: Vec<ReadRecord>| read_views(c@))
}

/// Cuts `records` greedily into pieces of at most `limit` bytes of record
/// encodings; a record larger than `limit` stands alone.
pub fn split_records(records: &Vec<ReadRecord>, limit: usize) -> (r: Vec<Vec<ReadRecord>>)
    requires
        all_encodable(read_views(records@)),
    ensures
        split_greedy(chunk_views(r@), read_views(records@), limit as nat),
        forall|c: int| 0 <= c < r@.len() ==> all_encodable(#[trigger] chunk_views(r@)[c]),
{
    let ghost rs = read_views(records@);
    let mut chunks: Vec<Vec<ReadRecord>> = Vec::new();
    let mut cur: Vec<ReadRecord> = Vec::new();
    let mut cur_len: u64 = 0;
    let n = records.len();
    let mut i: usize = 0;
    while i < n
        invariant
            n == records@.len(),
            rs == read_views(records@),
            all_encodable(rs),
            i <= n,
            chunk_views(chunks@).flatten() + read_views(cur@) == rs.take(i as int),
            cur_len == encode_records(read_views(cur@)).len(),
            i > 0 ==> cur@.len() > 0,
            i == 0 ==> chunks@.len() == 0 && cur@.len() == 0,
            cur@.len() > 0 ==> chunk_fits(read_views(cur@), limit as nat),
            cur@.len() > 0 ==> cur_len <= limit || cur@.len() == 1,
            cur@.len() == 1 ==> cur_len <= 9 + 2 * 0xffff_ffff,
            all_encodable(read_views(cur@)),
            forall|c: int| 0 <= c < chunks@.len() ==> all_encodable(#[trigger] chunk_views(chunks@)[c]),
            forall|c: int|
                0 <= c < chunks@.len() ==> (#[trigger] chunk_views(chunks@)[c]).len() > 0
                    && chunk_fits(chunk_views(chunks@)[c], limit as nat),
            forall|c: int|
                0 <= c < chunks@.len() - 1 ==> !chunk_fits(
                    (#[trigger] chunk_views(chunks@)[c]).push(chunk_views(chunks@)[c + 1][0]),
                    limit as nat,
                ),
            chunks@.len() > 0 && cur@.len() > 0 ==> !chunk_fits(
                chunk_views(chunks@).last().push(read_views(cur@)[0]),
                limit as nat,
            ),
        decreases n - i,
    {
        assert(encodable(rs[i as int]));
        let l = records[i].size();
        let ghost rv = rs[i as int];
        proof {
            crate::protocol::lemma_record_len(rv);
        }
        if cur.len() > 0 && (l > limit as u64 || cur_len > limit as u64 - l) {
            let ghost cv = read_views(cur@);
            let ghost old_chunks = chunk_views(chunks@);
            proof {
                lemma_encode_records_push(cv, rv);
            }
            assert(!chunk_fits(cv.push(rv), limit as nat));
            chunks.push(cur);
            cur = Vec::new();
            cur_len = 0;
            assert(chunk_views(chunks@) =~= old_chunks.push(cv));
            proof {
                old_chunks.lemma_flatten_push(cv);
                assert(read_views(cur@) =~= Seq::<RecordView>::empty());
            }
            assert(chunk_views(chunks@).flatten() + read_views(cur@) =~= rs.take(i as int));
            assert(encode_records(read_views(cur@)) =~= Seq::<u8>::empty());
        }
        let ghost cv = read_views(cur@);
        proof {
            lemma_encode_records_push(cv, rv);
        }
        cur.push(copy_record(&records[i]));
        assert(read_views(cur@) =~= cv.push(rv));
        assert(all_encodable(read_views(cur@))) by {
            assert forall|x: int| 0 <= x < read_views(cur@).len() implies #[trigger] encodable(
                read_views(cur@)[x],
            ) by {
                if x < cv.len() {
                    assert(encodable(cv[x]));
                }
            }
        }
        cur_len = cur_len + l;
        assert(rs.take(i + 1) =~= rs.take(i as int).push(rv));
        assert(chunk_views(chunks@).flatten() + read_views(cur@) =~= rs.take(i + 1));
        i = i + 1;
    }
    assert(rs.take(n as int) =~= rs);
    if cur.len() > 0 {
        let ghost cv = read_views(cur@);
        let ghost old_chunks = chunk_views(chunks@);
        chunks.push(cur);
        assert(chunk_views(chunks@) =~= old_chunks.push(cv));
        proof {
            old_chunks.lemma_flatten_push(cv);
        }
    } else {
        assert(read_views(cur@) =~= Seq::<RecordView>::empty());
        assert(chunk_views(chunks@).flatten() + Seq::<RecordView>::empty() =~= chunk_views(chunks@).flatten());
    }
    chunks
}

/// A table made by a compaction: its bytes. The embedding program gives it
/// a fresh file name.
pub struct NewTable {
    pub data: Vec<u8>,
}

/// The runs that a list of tagged tables gives the merge.
pub open spec fn runs_of(tables: Seq<CombineTable>) -> Seq<RunView> {
    Seq::new(
        tables.len(),
        |j: int|
            RunView {
                records: read_views(tables[j].table@),
                level: tables[j].level as nat,
                sequence: tables[j].sequence,
            },
    )
}

/// Every table holds strictly ascending, encodable records.
pub open spec fn tables_valid(tables: Seq<CombineTable>) -> bool {
    forall|j: int|
        0 <= j < tables.len() ==> records_ascending(read_views((#[trigger] tables[j]).table@))
            && all_encodable(read_views(tables[j].table@))
}

/// `outs` are the new tables of the merge of `runs`: the merge cut greedily
/// under `limit`, one table per piece, each within the format's limits.
pub open spec fn combined(runs: Seq<RunView>, outs: Seq<NewTable>, limit: nat) -> bool {
    exists|merged: Seq<RecordView>, chunks: Seq<Seq<RecordView>>|
        merge_result(runs, merged) && split_greedy(chunks, merged, limit) && outs.len()
            == chunks.len() && forall|i: int|
            0 <= i < outs.len() ==> (#[trigger] outs[i]).data@ == encode_table(chunks[i])
                && encode_table(chunks[i]).len() <= u32::MAX
}

/// Merges `tables` and writes the result as new tables, each with at most
/// `size_limit` bytes of records (a single larger record stands alone). No
/// records give no tables.
pub fn combine_tables(tables: Vec<CombineTable>, size_limit: usize) -> (r: Result<
    Vec<NewTable>,
    Corruption,
>)
    requires
        tables_valid(tables@),
    ensures
        match r {
            Ok(outs) => combined(runs_of(tables@), outs@, size_limit as nat),
            Err(e) => e == Corruption::TooLarge && exists|
                merged: Seq<RecordView>,
                chunks: Seq<Seq<RecordView>>,
                i: int,
            |
                #![trigger split_greedy(chunks, merged, size_limit as nat), chunks[i]]
                merge_result(runs_of(tables@), merged) && split_greedy(
                    chunks,
                    merged,
                    size_limit as nat,
                ) && 0 <= i < chunks.len() && encode_table(chunks[i]).len() > u32::MAX,
        },
{
    let ghost all = tables@;
    let total = tables.len();
    let mut rest = tables;
    let mut merge = MergeIter::new();
    let mut j: usize = 0;
    while rest.len() > 0
        invariant
            merge.wf(),
            merge.output().len() == 0,
            all.len() == total,
            j + rest@.len() == all.len(),
            rest@ == all.skip(j as int),
            tables_valid(all),
            merge.runs() == runs_of(all).take(j as int),
        decreases rest@.len(),
    {
        let t = rest.remove(0);
        assert(t == all[j as int]);
        merge.push_iter(t.table, t.level, t.sequence);
        assert(runs_of(all).take(j + 1) =~= runs_of(all).take(j as int).push(runs_of(all)[j as int]));
        assert(rest@ =~= all.skip(j + 1));
        j = j + 1;
    }
    assert(runs_of(all).take(j as int) =~= runs_of(all));
    let ghost runs = runs_of(all);
    let merged = merge.merge_all();
    let ghost mv = read_views(merged@);
    assert(all_encodable(mv)) by {
        assert forall|a: int| 0 <= a < mv.len() implies #[trigger] encodable(mv[a]) by {
            assert(newest_in(runs, mv[a]));
            let (x, k) = choose|x: int, k: int|
                #![trigger runs[x].records[k]]
                0 <= x < runs.len() && 0 <= k < runs[x].records.len() && runs[x].records[k] == mv[a] && (
                forall|j2: int, k2: int|
                    0 <= j2 < runs.len() && 0 <= k2 < runs[j2].records.len() && #[trigger] runs[j2].records[k2].key
                        == mv[a].key ==> j2 == x || run_newer(runs, x, j2));
            assert(all_encodable(read_views(all[x].table@)));
            assert(encodable(read_views(all[x].table@)[k]));
        }
    }
    let chunks = split_records(&merged, size_limit);
    let ghost cs = chunk_views(chunks@);
    let mut outs: Vec<NewTable> = Vec::new();
    let mut i: usize = 0;
    while i < chunks.len()
        invariant
            cs == chunk_views(chunks@),
            split_greedy(cs, mv, size_limit as nat),
            merge_result(runs, mv),
            runs == runs_of(all),
            all == tables@,
            forall|c: int| 0 <= c < chunks@.len() ==> all_encodable(#[trigger] cs[c]),
            i <= chunks@.len(),
            outs@.len() == i,
            forall|c: int|
                0 <= c < i ==> (#[trigger] outs@[c]).data@ == encode_table(cs[c])
                    && encode_table(cs[c]).len() <= u32::MAX,
        decreases chunks@.len() - i,
    {
        assert(cs[i as int].len() > 0);
        assert(all_encodable(cs[i as int]));
        match build_table(&chunks[i]) {
            Ok(data) => {
                outs.push(NewTable { data });
            },
            Err(e) => {
                assert(encode_table(cs[i as int]).len() > u32::MAX);
                assert(merge_result(runs_of(tables@), mv) && split_greedy(cs, mv, size_limit as nat)
                    && 0 <= i < cs.len() && encode_table(cs[i as int]).len() > u32::MAX);
                return Err(e);
            },
        }
        i = i + 1;
    }
    assert(merge_result(runs_of(tables@), mv) && split_greedy(cs, mv, size_limit as nat)
        && outs@.len() == cs.len());
    Ok(outs)
}

} // verus!
