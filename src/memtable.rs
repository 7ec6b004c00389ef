//! The in-memory overlay of the newest writes.
use crate::bytes::{
    bytes_eq, bytes_lt, lemma_lex_irreflexive, lemma_lex_total, lemma_lex_transitive, lex_lt, to_vec,
};
use crate::protocol::{ReadRecord, RecordView, WriteRecord};
use vstd::prelude::*;

verus! {

/// What a stored value means: `Some` bytes, or `None` for a deletion.
pub open spec fn opt_view(o: Option<Vec<u8>>) -> Option<Seq<u8>> {
    match o {
        Some(v) => Some(v@),
        None => None,
    }
}

/// The map that replaying `rs` in order onto an empty map leaves: each record
/// sets its key, to its value or to a deletion, over what came before.
pub open spec fn replay(rs: Seq<RecordView>) -> Map<Seq<u8>, Option<Seq<u8>>>
    decreases rs.len(),
{
    if rs.len() == 0 {
        Map::empty()
    } else {
        replay(rs.drop_last()).insert(rs.last().key, rs.last().val)
    }
}

/// No two records of `rs` share a key.
pub open spec fn keys_unique(rs: Seq<RecordView>) -> bool {
    forall|i: int, j: int| 0 <= i < j < rs.len() ==> rs[i].key != rs[j].key
}

/// `rs` lists the entries of `m`, one record per key.
pub open spec fn lists_map(rs: Seq<RecordView>, m: Map<Seq<u8>, Option<Seq<u8>>>) -> bool {
    &&& keys_unique(rs)
    &&& forall|i: int| 0 <= i < rs.len() ==> #[trigger] m.contains_key(rs[i].key) && m[rs[i].key] == rs[i].val
    &&& forall|k: Seq<u8>| #[trigger] m.contains_key(k) ==> exists|i: int| 0 <= i < rs.len() && rs[i].key == k
}

/// The views of a sequence of write records.
pub open spec fn write_views<'a>(rs: Seq<WriteRecord<'a>>) -> Seq<RecordView> {
    rs.map_values(|r: WriteRecord<'a>| r@)
}

/// The views of a sequence of read records.
pub open spec fn read_views(rs: Seq<ReadRecord>) -> Seq<RecordView> {
    rs.map_values(|r: ReadRecord| r@)
}

/// Maps each key to its newest state: a value, or a deletion. The entries
/// are kept in ascending key order.
pub struct MemTable {
    entries: Vec<(Vec<u8>, Option<Vec<u8>>)>,
    contents: Ghost<Map<Seq<u8>, Option<Seq<u8>>>>,
}

impl View for MemTable {
    type V = Map<Seq<u8>, Option<Seq<u8>>>;

    closed spec fn view(&self) -> Map<Seq<u8>, Option<Seq<u8>>> {
        self.contents@
    }
}

impl MemTable {
    /// The entries ascend strictly by key and agree with the contents.
    pub closed spec fn wf(&self) -> bool {
        let e = self.entries@;
        let m = self.contents@;
        &&& forall|i: int, j: int| 0 <= i < j < e.len() ==> lex_lt(e[i].0@, e[j].0@)
        &&& forall|i: int|
            0 <= i < e.len() ==> #[trigger] m.contains_key(e[i].0@) && m[e[i].0@] == opt_view(
                e[i].1,
            )
        &&& forall|k: Seq<u8>| #[trigger] m.contains_key(k) ==> exists|i: int| 0 <= i < e.len() && e[i].0@ == k
    }

    /// An empty memtable.
    pub fn new() -> (r: MemTable)
        ensures
            r.wf(),
            r@ == Map::<Seq<u8>, Option<Seq<u8>>>::empty(),
    {
        MemTable { entries: Vec::new(), contents: Ghost(Map::empty()) }
    }

    /// The position of `key` among the entries, or where it would go.
    fn find(&self, key: &[u8]) -> (r: Result<usize, usize>)
        requires
            self.wf(),
        ensures
            match r {
                Ok(i) => i < self.entries@.len() && self.entries@[i as int].0@ == key@,
                Err(p) => p <= self.entries@.len() && !self@.contains_key(key@) && (forall|i: int|
                    0 <= i < p ==> lex_lt(#[trigger] self.entries@[i].0@, key@)) && (forall|i: int|
                    p <= i < self.entries@.len() ==> lex_lt(key@, #[trigger] self.entries@[i].0@)),
            },
    {
        let ghost e = self.entries@;
        let mut lo: usize = 0;
        let mut hi: usize = self.entries.len();
        while lo < hi
            invariant
                self.wf(),
                e == self.entries@,
                lo <= hi <= e.len(),
                forall|i: int| 0 <= i < lo ==> lex_lt(#[trigger] e[i].0@, key@),
                forall|i: int| hi <= i < e.len() ==> lex_lt(key@, #[trigger] e[i].0@),
            decreases hi - lo,
        {
            let mid = lo + (hi - lo) / 2;
            let k = self.entries[mid].0.as_slice();
            if bytes_eq(k, key) {
                return Ok(mid);
            }
            if bytes_lt(k, key) {
                assert forall|i: int| 0 <= i < mid + 1 implies lex_lt(#[trigger] e[i].0@, key@) by {
                    if i < mid {
                        lemma_lex_transitive(e[i].0@, e[mid as int].0@, key@);
                    }
                }
                lo = mid + 1;
            } else {
                proof {
                    lemma_lex_total(k@, key@);
                }
                assert forall|i: int| mid <= i < e.len() implies lex_lt(key@, #[trigger] e[i].0@) by {
                    if i > mid {
                        lemma_lex_transitive(key@, e[mid as int].0@, e[i].0@);
                    }
                }
                hi = mid;
            }
        }
        proof {
            lemma_lex_irreflexive(key@);
            if self@.contains_key(key@) {
                let j = choose|j: int| 0 <= j < e.len() && e[j].0@ == key@;
                assert(lex_lt(e[j].0@, key@) || lex_lt(key@, e[j].0@));
            }
        }
        Err(lo)
    }

    /// Sets `key` to `val`, or to a deletion when `val` is `None`.
    fn set(&mut self, key: &[u8], val: Option<Vec<u8>>)
        requires
            old(self).wf(),
        ensures
            final(self).wf(),
            final(self)@ == old(self)@.insert(key@, opt_view(val)),
    {
        let ghost m = self@.insert(key@, opt_view(val));
        let ghost old_e = self.entries@;
        match self.find(key) {
            Ok(i) => {
                self.entries.set(i, (to_vec(key), val));
                self.contents = Ghost(m);
                assert forall|a: int| 0 <= a < self.entries@.len() implies (#[trigger] self.entries@[a]).0@
                    == old_e[a].0@ by {}
                assert forall|a: int| 0 <= a < self.entries@.len() implies #[trigger] m.contains_key(
                    self.entries@[a].0@,
                ) && m[self.entries@[a].0@] == opt_view(self.entries@[a].1) by {
                    if a != i {
                        lemma_lex_irreflexive(old_e[a].0@);
                        if a < i {
                            assert(lex_lt(old_e[a].0@, old_e[i as int].0@));
                        } else {
                            assert(lex_lt(old_e[i as int].0@, old_e[a].0@));
                        }
                        assert(old(self)@.contains_key(old_e[a].0@));
                    }
                }
                assert forall|k: Seq<u8>| #[trigger] m.contains_key(k) implies exists|j: int|
                    0 <= j < self.entries@.len() && self.entries@[j].0@ == k by {
                    if k != key@ {
                        let j = choose|j: int| 0 <= j < old_e.len() && old_e[j].0@ == k;
                        assert(self.entries@[j].0@ == k);
                    } else {
                        assert(self.entries@[i as int].0@ == k);
                    }
                }
            },
            Err(p) => {
                let x = (to_vec(key), val);
                let ghost xv = x;
                self.entries.insert(p, x);
                self.contents = Ghost(m);
                let ghost e = self.entries@;
                assert(e =~= old_e.insert(p as int, xv));
                assert forall|a: int, b: int| 0 <= a < b < e.len() implies lex_lt(e[a].0@, e[b].0@) by {
                    if b < p {
                        assert(e[a] == old_e[a] && e[b] == old_e[b]);
                    } else if b == p {
                        assert(e[a] == old_e[a]);
                    } else if a < p {
                        assert(e[a] == old_e[a] && e[b] == old_e[b - 1]);
                        if a < b - 1 {
                            assert(lex_lt(old_e[a].0@, old_e[b - 1].0@));
                        }
                    } else if a == p {
                        assert(e[b] == old_e[b - 1]);
                    } else {
                        assert(e[a] == old_e[a - 1] && e[b] == old_e[b - 1]);
                    }
                }
                assert forall|a: int| 0 <= a < e.len() implies #[trigger] m.contains_key(e[a].0@)
                    && m[e[a].0@] == opt_view(e[a].1) by {
                    lemma_lex_irreflexive(key@);
                    if a < p {
                        assert(e[a] == old_e[a]);
                        assert(lex_lt(old_e[a].0@, key@));
                        assert(old(self)@.contains_key(old_e[a].0@));
                    } else if a > p {
                        assert(e[a] == old_e[a - 1]);
                        assert(lex_lt(key@, old_e[a - 1].0@));
                        assert(old(self)@.contains_key(old_e[a - 1].0@));
                    }
                }
                assert forall|k: Seq<u8>| #[trigger] m.contains_key(k) implies exists|j: int|
                    0 <= j < e.len() && e[j].0@ == k by {
                    if k != key@ {
                        let j = choose|j: int| 0 <= j < old_e.len() && old_e[j].0@ == k;
                        if j < p {
                            assert(e[j] == old_e[j]);
                        } else {
                            assert(e[j + 1] == old_e[j]);
                        }
                    } else {
                        assert(e[p as int].0@ == k);
                    }
                }
            },
        }
    }

    /// Records `val` as the value of `key`.
    pub fn put(&mut self, key: &[u8], val: &[u8])
        requires
            old(self).wf(),
        ensures
            final(self).wf(),
            final(self)@ == old(self)@.insert(key@, Some(val@)),
    {
        self.set(key, Some(to_vec(val)));
    }

    /// Records a deletion of `key`.
    pub fn del(&mut self, key: &[u8])
        requires
            old(self).wf(),
        ensures
            final(self).wf(),
            final(self)@ == old(self)@.insert(key@, None),
    {
        self.set(key, None);
    }

    /// The state of `key`: `None` when nothing is known of it, `Some(None)`
    /// when it was deleted, `Some(Some(v))` when its value is `v`.
    pub fn lookup(&self, key: &[u8]) -> (r: Option<Option<&Vec<u8>>>)
        requires
            self.wf(),
        ensures
            match r {
                None => !self@.contains_key(key@),
                Some(None) => self@.contains_key(key@) && self@[key@] == None::<Seq<u8>>,
                Some(Some(v)) => self@.contains_key(key@) && self@[key@] == Some(v@),
            },
    {
        match self.find(key) {
            Ok(i) => {
                assert(self@.contains_key(self.entries@[i as int].0@));
                match &self.entries[i].1 {
                    Some(v) => Some(Some(v)),
                    None => Some(None),
                }
            },
            Err(_) => None,
        }
    }

    /// The value of `key`; `None` both when nothing is known of it and when
    /// it was deleted.
    pub fn get(&self, key: &[u8]) -> (r: Option<&Vec<u8>>)
        requires
            self.wf(),
        ensures
            match r {
                Some(v) => self@.contains_key(key@) && self@[key@] == Some(v@),
                None => !self@.contains_key(key@) || self@[key@] == None::<Seq<u8>>,
            },
    {
        match self.lookup(key) {
            Some(v) => v,
            None => None,
        }
    }

    /// Whether nothing was written.
    pub fn is_empty(&self) -> (r: bool)
        requires
            self.wf(),
        ensures
            r == (self@ == Map::<Seq<u8>, Option<Seq<u8>>>::empty()),
    {
        if self.entries.len() == 0 {
            assert(self@ =~= Map::<Seq<u8>, Option<Seq<u8>>>::empty());
            true
        } else {
            assert(self@.contains_key(self.entries@[0].0@));
            false
        }
    }

    /// Every entry as a record, in no particular order.
    pub fn drain(&self) -> (r: Vec<WriteRecord<'_>>)
        requires
            self.wf(),
        ensures
            lists_map(write_views(r@), self@),
    {
        let mut r: Vec<WriteRecord<'_>> = Vec::new();
        let mut i: usize = 0;
        while i < self.entries.len()
            invariant
                self.wf(),
                i <= self.entries@.len(),
                r@.len() == i,
                forall|j: int|
                    0 <= j < i ==> #[trigger] r@[j]@ == (RecordView {
                        key: self.entries@[j].0@,
                        val: opt_view(self.entries@[j].1),
                    }),
            decreases self.entries@.len() - i,
        {
            let entry = &self.entries[i];
            let rec = match &entry.1 {
                Some(v) => WriteRecord::Exists { key: entry.0.as_slice(), val: v.as_slice() },
                None => WriteRecord::Deleted { key: entry.0.as_slice() },
            };
            r.push(rec);
            i = i + 1;
        }
        let ghost rs = write_views(r@);
        assert forall|a: int, b: int| 0 <= a < b < rs.len() implies rs[a].key != rs[b].key by {
            lemma_lex_irreflexive(rs[a].key);
        }
        assert forall|k: Seq<u8>| #[trigger] self@.contains_key(k) implies exists|j: int|
            0 <= j < rs.len() && rs[j].key == k by {
            let j = choose|j: int| 0 <= j < self.entries@.len() && self.entries@[j].0@ == k;
            assert(rs[j].key == k);
        }
        r
    }

    /// Replays `records` in order: a value sets its key, a deletion marks it.
    pub fn from_iter(records: Vec<ReadRecord>) -> (r: MemTable)
        ensures
            r.wf(),
            r@ == replay(read_views(records@)),
    {
        let mut out = MemTable::new();
        let mut i: usize = 0;
        while i < records.len()
            invariant
                out.wf(),
                i <= records@.len(),
                out@ == replay(read_views(records@).subrange(0, i as int)),
            decreases records@.len() - i,
        {
            let ghost before = read_views(records@).subrange(0, i as int);
            match &records[i] {
                ReadRecord::Exists { key, val } => out.put(key.as_slice(), val.as_slice()),
                ReadRecord::Deleted { key } => out.del(key.as_slice()),
            }
            let ghost after = read_views(records@).subrange(0, i + 1);
            assert(after.drop_last() =~= before);
            i = i + 1;
        }
        assert(read_views(records@).subrange(0, i as int) =~= read_views(records@));
        out
    }
}

} // verus!
