//! The store's engine: the memtable over the catalog, and the decisions of
//! the write path. The embedding program appends each write to the log
//! before handing it here, writes the tables that a flush or a compaction
//! plans, and reopens the catalog after a compaction.
use crate::compactor::compactor::{Compaction, Compactor};
use crate::memtable::{lists_map, write_views, MemTable};
use crate::memtable::replay;
use crate::protocol::{
    all_encodable, decode_record, decode_records, encodable, encode_records, Corruption, ReadRecord,
    RecordView,
};
use crate::{Cause, StoreError};
use crate::sst::catalog::{level_get, levels_get, Catalog, LevelZeroTable};
use crate::sst::table::{
    encode_table, index_entries, lemma_table_round_trip, parse_table, records_ascending, table_get,
    Table, TableView,
};
use vstd::prelude::*;

verus! {

/// Default log size, in bytes, past which the memtable is flushed.
pub const WAL_SIZE_LIMIT: u32 = 4194304;

/// Default records budget, in bytes, of a table made by compaction.
pub const TABLE_SIZE_LIMIT: usize = 4194304;

/// Default level-0 table count that triggers a compaction.
pub const LEVEL_0_FILE_LIMIT: usize = 5;

/// Reading `key` from a memtable over the catalog's levels: the memtable's
/// state when it has one (a deletion reads as absent), else the newest
/// table record, a deletion reading as absent.
pub open spec fn store_get(
    mem: Map<Seq<u8>, Option<Seq<u8>>>,
    levels: Seq<Seq<TableView>>,
    key: Seq<u8>,
) -> Result<Option<Seq<u8>>, Corruption> {
    if mem.contains_key(key) {
        Ok(mem[key])
    } else {
        match levels_get(levels, key) {
            Ok(Some(r)) => Ok(r.val),
            Ok(None) => Ok(None),
            Err(e) => Err(e),
        }
    }
}

/// `n`, or the largest `u64` where `n` exceeds it.
pub open spec fn saturating(n: int) -> nat {
    if n > u64::MAX {
        u64::MAX as nat
    } else {
        n as nat
    }
}

/// Every key and value of `mem` fits the record format's lengths.
pub open spec fn mem_encodable(mem: Map<Seq<u8>, Option<Seq<u8>>>) -> bool {
    forall|k: Seq<u8>|
        #[trigger] mem.contains_key(k) ==> k.len() <= u32::MAX && (mem[k] matches Some(v)
            ==> v.len() <= u32::MAX)
}

/// A sequence with the same elements as one that lists a map lists it too.
proof fn lemma_same_multiset_lists(
    rs: Seq<RecordView>,
    s: Seq<RecordView>,
    m: Map<Seq<u8>, Option<Seq<u8>>>,
)
    requires
        lists_map(rs, m),
        s.to_multiset() == rs.to_multiset(),
        records_ascending(s),
    ensures
        lists_map(s, m),
{
    broadcast use vstd::seq_lib::group_to_multiset_ensures;

    assert forall|i: int, j: int| 0 <= i < j < s.len() implies s[i].key != s[j].key by {
        crate::bytes::lemma_lex_irreflexive(s[i].key);
    }
    assert forall|i: int| 0 <= i < s.len() implies #[trigger] m.contains_key(s[i].key) && m[s[i].key]
        == s[i].val by {
        assert(s.to_multiset().count(s[i]) > 0);
        assert(rs.contains(s[i]));
        let j = choose|j: int| 0 <= j < rs.len() && rs[j] == s[i];
        assert(m.contains_key(rs[j].key));
    }
    assert forall|k: Seq<u8>| #[trigger] m.contains_key(k) implies exists|i: int|
        0 <= i < s.len() && s[i].key == k by {
        let j = choose|j: int| 0 <= j < rs.len() && rs[j].key == k;
        assert(rs.to_multiset().count(rs[j]) > 0);
        assert(s.contains(rs[j]));
    }
}

/// The store's in-memory state.
pub struct Store {
    memtable: MemTable,
    catalog: Catalog,
    wal_size: u64,
    wal_size_limit: u32,
    compactor: Compactor,
}

impl Store {
    /// The memtable's contents.
    pub closed spec fn mem(&self) -> Map<Seq<u8>, Option<Seq<u8>>> {
        self.memtable@
    }

    /// The tables, by level.
    pub closed spec fn levels(&self) -> Seq<Seq<TableView>> {
        self.catalog.levels()
    }

    /// Bytes appended to the log since it was last truncated.
    pub closed spec fn log_size(&self) -> nat {
        self.wal_size as nat
    }

    /// The log size past which the memtable is flushed.
    pub closed spec fn log_limit(&self) -> nat {
        self.wal_size_limit as nat
    }

    /// The catalog.
    pub closed spec fn tables(&self) -> Catalog {
        self.catalog
    }

    /// The compaction parameters.
    pub closed spec fn policy(&self) -> Compactor {
        self.compactor
    }

    /// The catalog's largest level-0 sequence.
    pub closed spec fn mark(&self) -> u32 {
        self.catalog.mark()
    }

    /// The memtable and the catalog are well formed, and every key and
    /// value in the memtable fits the record format.
    pub closed spec fn wf(&self) -> bool {
        &&& self.memtable.wf()
        &&& self.catalog.wf()
        &&& mem_encodable(self.memtable@)
    }

    /// A store over `catalog` with an empty memtable and an empty log;
    /// unset limits take their defaults.
    pub fn new(
        catalog: Catalog,
        wal_size_limit: Option<u32>,
        table_size_limit: Option<usize>,
        level_0_file_limit: Option<usize>,
    ) -> (r: Store)
        requires
            catalog.wf(),
        ensures
            r.wf(),
            r.mem() == Map::<Seq<u8>, Option<Seq<u8>>>::empty(),
            r.levels() == catalog.levels(),
            r.mark() == catalog.mark(),
            r.log_size() == 0,
            r.log_limit() == match wal_size_limit {
                Some(l) => l,
                None => WAL_SIZE_LIMIT,
            },
            r.policy().size_limit() == match table_size_limit {
                Some(l) => l,
                None => TABLE_SIZE_LIMIT,
            },
            r.policy().file_limit() == match level_0_file_limit {
                Some(l) => l,
                None => LEVEL_0_FILE_LIMIT,
            },
    {
        let wal_size_limit = match wal_size_limit {
            Some(l) => l,
            None => WAL_SIZE_LIMIT,
        };
        let table_size_limit = match table_size_limit {
            Some(l) => l,
            None => TABLE_SIZE_LIMIT,
        };
        let level_0_file_limit = match level_0_file_limit {
            Some(l) => l,
            None => LEVEL_0_FILE_LIMIT,
        };
        let memtable = MemTable::new();
        assert(mem_encodable(memtable@));
        Store {
            memtable,
            catalog,
            wal_size: 0,
            wal_size_limit,
            compactor: Compactor::new(level_0_file_limit, table_size_limit),
        }
    }

    /// Applies a write of `val` to `key` that the log already holds, and
    /// tells whether the log has outgrown its limit, so that the memtable
    /// is due for a flush.
    pub fn put(&mut self, key: &[u8], val: &[u8]) -> (flush_due: bool)
        requires
            old(self).wf(),
            key@.len() <= u32::MAX,
            val@.len() <= u32::MAX,
        ensures
            final(self).wf(),
            final(self).mem() == old(self).mem().insert(key@, Some(val@)),
            final(self).levels() == old(self).levels(),
            final(self).mark() == old(self).mark(),
            final(self).log_size() == saturating((old(self).log_size() + 9 + key@.len() + val@.len()) as int),
            final(self).log_limit() == old(self).log_limit(),
            final(self).policy() == old(self).policy(),
            flush_due == (final(self).log_size() > final(self).log_limit()),
    {
        self.memtable.put(key, val);
        assert(mem_encodable(self.memtable@));
        self.grow_log(9 + key.len() as u64 + val.len() as u64)
    }

    /// Applies a deletion of `key` that the log already holds, and tells
    /// whether the memtable is due for a flush.
    pub fn del(&mut self, key: &[u8]) -> (flush_due: bool)
        requires
            old(self).wf(),
            key@.len() <= u32::MAX,
        ensures
            final(self).wf(),
            final(self).mem() == old(self).mem().insert(key@, None),
            final(self).levels() == old(self).levels(),
            final(self).mark() == old(self).mark(),
            final(self).log_size() == saturating((old(self).log_size() + 9 + key@.len()) as int),
            final(self).log_limit() == old(self).log_limit(),
            final(self).policy() == old(self).policy(),
            flush_due == (final(self).log_size() > final(self).log_limit()),
    {
        self.memtable.del(key);
        assert(mem_encodable(self.memtable@));
        self.grow_log(9 + key.len() as u64)
    }

    fn grow_log(&mut self, n: u64) -> (flush_due: bool)
        ensures
            final(self).memtable == old(self).memtable,
            final(self).catalog == old(self).catalog,
            final(self).wal_size_limit == old(self).wal_size_limit,
            final(self).compactor == old(self).compactor,
            final(self).log_size() == saturating(old(self).log_size() + n),
            flush_due == (final(self).log_size() > final(self).log_limit()),
    {
        if self.wal_size > u64::MAX - n {
            self.wal_size = u64::MAX;
        } else {
            self.wal_size = self.wal_size + n;
        }
        self.wal_size > self.wal_size_limit as u64
    }

    /// Plans the flush of the memtable into a new level-0 table; `None`
    /// when the memtable is empty.
    pub fn flush_memtable(&self) -> (r: Result<Option<LevelZeroTable>, Corruption>)
        requires
            self.wf(),
        ensures
            match r {
                Ok(None) => self.mem() == Map::<Seq<u8>, Option<Seq<u8>>>::empty(),
                Ok(Some(t)) => self.mem() != Map::<Seq<u8>, Option<Seq<u8>>>::empty()
                    && self.mark() < u32::MAX && t.sequence == self.mark() + 1 && exists|
                    s: Seq<RecordView>,
                |
                    #![trigger encode_table(s)]
                    records_ascending(s) && lists_map(s, self.mem()) && t.data@ == encode_table(s)
                        && encode_table(s).len() <= u32::MAX,
                Err(e) => e == Corruption::TooLarge && (self.mark() == u32::MAX || exists|
                    s: Seq<RecordView>,
                |
                    #![trigger encode_table(s)]
                    records_ascending(s) && lists_map(s, self.mem()) && encode_table(s).len()
                        > u32::MAX),
            },
    {
        if self.memtable.is_empty() {
            return Ok(None);
        }
        let records = self.memtable.drain();
        let ghost rs = write_views(records@);
        proof {
            if rs.len() == 0 {
                assert(self.memtable@ =~= Map::<Seq<u8>, Option<Seq<u8>>>::empty());
            }
            assert forall|i: int| 0 <= i < rs.len() implies #[trigger] encodable(rs[i]) by {
                assert(self.memtable@.contains_key(rs[i].key));
            }
        }
        match self.catalog.write_records(records) {
            Ok(t) => {
                proof {
                    let s = choose|s: Seq<RecordView>|
                        #![trigger encode_table(s)]
                        records_ascending(s) && s.to_multiset() == rs.to_multiset() && t.data@
                            == encode_table(s);
                    lemma_same_multiset_lists(rs, s, self.memtable@);
                }
                Ok(Some(t))
            },
            Err(e) => {
                proof {
                    if self.mark() != u32::MAX {
                        let s = choose|s: Seq<RecordView>|
                            #![trigger encode_table(s)]
                            records_ascending(s) && s.to_multiset() == rs.to_multiset()
                                && encode_table(s).len() > u32::MAX;
                        lemma_same_multiset_lists(rs, s, self.memtable@);
                    }
                }
                Err(e)
            },
        }
    }

    /// Installs the flushed level-0 table, which the embedding program has
    /// made durable and opened, and starts an empty memtable over an empty
    /// log.
    pub fn finish_flush(&mut self, table: Table)
        requires
            old(self).wf(),
            table.wf(),
            old(self).mark() < u32::MAX,
        ensures
            final(self).wf(),
            final(self).mem() == Map::<Seq<u8>, Option<Seq<u8>>>::empty(),
            final(self).log_size() == 0,
            final(self).mark() == old(self).mark() + 1,
            old(self).levels().len() > 0 ==> final(self).levels() == old(self).levels().update(
                0,
                old(self).levels()[0].push(table@),
            ),
            old(self).levels().len() == 0 ==> final(self).levels() == seq![seq![table@]],
            final(self).log_limit() == old(self).log_limit(),
            final(self).policy() == old(self).policy(),
    {
        self.catalog.add_level_0_table(table);
        self.memtable = MemTable::new();
        self.wal_size = 0;
    }

    /// Plans a promotion of level 0 when it has reached the file limit.
    pub fn maybe_compact(&self) -> (r: Result<Option<Compaction>, Corruption>)
        requires
            self.wf(),
        ensures
            !self.policy().due(&self.tables()) <==> r == Ok::<Option<Compaction>, Corruption>(None),
            self.policy().due(&self.tables()) ==> match r {
                Ok(Some(c)) => self.policy().promotes(&self.tables(), c),
                Ok(None) => false,
                Err(e) => self.policy().fails_with(&self.tables(), e),
            },
    {
        self.compactor.maybe_compact(&self.catalog)
    }

    /// Replaces the catalog, reopened after a promotion changed the tables.
    pub fn set_catalog(&mut self, catalog: Catalog)
        requires
            old(self).wf(),
            catalog.wf(),
        ensures
            final(self).wf(),
            final(self).levels() == catalog.levels(),
            final(self).mark() == catalog.mark(),
            final(self).mem() == old(self).mem(),
            final(self).log_size() == old(self).log_size(),
            final(self).log_limit() == old(self).log_limit(),
            final(self).policy() == old(self).policy(),
    {
        self.catalog = catalog;
    }

    /// The value of `key`: the memtable decides when it knows the key, a
    /// deletion there reading as absent without looking further; otherwise
    /// the newest table that holds the key does.
    pub fn get(&self, key: &[u8]) -> (r: Result<Option<Vec<u8>>, Corruption>)
        requires
            self.wf(),
        ensures
            match r {
                Ok(Some(v)) => store_get(self.mem(), self.levels(), key@) == Ok::<
                    Option<Seq<u8>>,
                    Corruption,
                >(Some(v@)),
                Ok(None) => store_get(self.mem(), self.levels(), key@) == Ok::<
                    Option<Seq<u8>>,
                    Corruption,
                >(None),
                Err(e) => store_get(self.mem(), self.levels(), key@) == Err::<
                    Option<Seq<u8>>,
                    Corruption,
                >(e),
            },
    {
        match self.memtable.lookup(key) {
            Some(Some(v)) => Ok(Some(crate::bytes::to_vec(v.as_slice()))),
            Some(None) => Ok(None),
            None => match self.catalog.get(key) {
                Ok(Some(ReadRecord::Exists { val, .. })) => Ok(Some(val)),
                Ok(Some(ReadRecord::Deleted { .. })) => Ok(None),
                Ok(None) => Ok(None),
                Err(e) => Err(e),
            },
        }
    }
}

/// The memtable contents after the writes `ops` (a value, or `None` for a
/// deletion) are applied in order on top of `mem`.
pub open spec fn apply_writes(
    mem: Map<Seq<u8>, Option<Seq<u8>>>,
    ops: Seq<RecordView>,
) -> Map<Seq<u8>, Option<Seq<u8>>>
    decreases ops.len(),
{
    if ops.len() == 0 {
        mem
    } else {
        apply_writes(mem, ops.drop_last()).insert(ops.last().key, ops.last().val)
    }
}

/// The last write of `ops` to `key`, if any: `Some(v)` for a value, `None`
/// for a deletion.
pub open spec fn last_write(ops: Seq<RecordView>, key: Seq<u8>) -> Option<Option<Seq<u8>>>
    decreases ops.len(),
{
    if ops.len() == 0 {
        None
    } else if ops.last().key == key {
        Some(ops.last().val)
    } else {
        last_write(ops.drop_last(), key)
    }
}

/// Read-your-writes: after a sequence of puts and deletions, reading a key
/// gives the value of its last put, or nothing when its last write was a
/// deletion; a key that no write touched reads as it did before.
pub proof fn lemma_read_your_writes(
    mem: Map<Seq<u8>, Option<Seq<u8>>>,
    levels: Seq<Seq<TableView>>,
    ops: Seq<RecordView>,
    key: Seq<u8>,
)
    ensures
        store_get(apply_writes(mem, ops), levels, key) == match last_write(ops, key) {
            Some(v) => Ok::<Option<Seq<u8>>, Corruption>(v),
            None => store_get(mem, levels, key),
        },
    decreases ops.len(),
{
    if ops.len() > 0 {
        lemma_read_your_writes(mem, levels, ops.drop_last(), key);
    }
}

/// One put or deletion applied by the store is one more write in order.
pub proof fn lemma_write_extends(mem: Map<Seq<u8>, Option<Seq<u8>>>, ops: Seq<RecordView>, op: RecordView)
    ensures
        apply_writes(mem, ops.push(op)) == apply_writes(mem, ops).insert(op.key, op.val),
{
    assert(ops.push(op).drop_last() =~= ops);
}

/// The levels after a flushed table `t` joins level 0 as its newest table.
pub open spec fn with_level_0_table(levels: Seq<Seq<TableView>>, t: TableView) -> Seq<Seq<TableView>> {
    if levels.len() > 0 {
        levels.update(0, levels[0].push(t))
    } else {
        seq![seq![t]]
    }
}

/// Flushing keeps every read: when the records `s` list the memtable, the
/// table built from them, opened and added as the newest of level 0 under
/// an empty memtable, reads every key as the memtable over the old levels
/// did.
pub proof fn lemma_flush_preserves_reads(
    mem: Map<Seq<u8>, Option<Seq<u8>>>,
    levels: Seq<Seq<TableView>>,
    s: Seq<RecordView>,
    key: Seq<u8>,
)
    requires
        s.len() > 0,
        lists_map(s, mem),
        records_ascending(s),
        all_encodable(s),
        encode_table(s).len() <= u32::MAX,
    ensures
        parse_table(encode_table(s)) matches Ok(t) && store_get(mem, levels, key) == store_get(
            Map::empty(),
            with_level_0_table(levels, t),
            key,
        ),
{
    lemma_table_round_trip(s);
    let t = TableView {
        data: encode_table(s),
        entries: index_entries(s),
        index_start: encode_records(s).len(),
    };
    let l2 = with_level_0_table(levels, t);
    let ts = if levels.len() > 0 {
        levels[0]
    } else {
        Seq::<TableView>::empty()
    };
    assert(l2[0] == ts.push(t));
    assert(ts.push(t).last() == t);
    assert(ts.push(t).drop_last() =~= ts);
    if mem.contains_key(key) {
        let i = choose|i: int| 0 <= i < s.len() && s[i].key == key;
        assert(table_get(t, s[i].key) == Ok::<Option<RecordView>, Corruption>(Some(s[i])));
        assert(mem[s[i].key] == s[i].val);
        assert(level_get(l2[0], key) == Ok::<Option<RecordView>, Corruption>(Some(s[i])));
        assert(levels_get(l2, key) == Ok::<Option<RecordView>, Corruption>(Some(s[i])));
        assert(!Map::<Seq<u8>, Option<Seq<u8>>>::empty().contains_key(key));
    } else {
        assert forall|i: int| 0 <= i < s.len() implies s[i].key != key by {
            assert(mem.contains_key(s[i].key));
        }
        assert(table_get(t, key) == Ok::<Option<RecordView>, Corruption>(None));
        assert(level_get(l2[0], key) == level_get(ts, key));
        assert(!Map::<Seq<u8>, Option<Seq<u8>>>::empty().contains_key(key));
        if levels.len() > 0 {
            assert(l2.drop_first() =~= levels.drop_first());
            assert(ts == levels[0]);
            assert(l2.len() == levels.len());
            assert(level_get(l2[0], key) == level_get(levels[0], key));
            match level_get(levels[0], key) {
                Ok(None) => {
                    assert(levels_get(l2, key) == levels_get(l2.drop_first(), key));
                    assert(levels_get(levels, key) == levels_get(levels.drop_first(), key));
                },
                Ok(Some(r)) => {
                    assert(levels_get(l2, key) == Ok::<Option<RecordView>, Corruption>(Some(r)));
                    assert(levels_get(levels, key) == Ok::<Option<RecordView>, Corruption>(Some(r)));
                },
                Err(e) => {
                    assert(levels_get(l2, key) == Err::<Option<RecordView>, Corruption>(e));
                    assert(levels_get(levels, key) == Err::<Option<RecordView>, Corruption>(e));
                },
            }
            assert(levels_get(l2, key) == levels_get(levels, key));
        } else {
            assert(level_get(ts, key) == Ok::<Option<RecordView>, Corruption>(None));
            assert(l2.drop_first() =~= Seq::<Seq<TableView>>::empty());
            assert(levels_get(l2, key) == levels_get(levels, key));
        }
    }
}

/// Crash recovery: the memtable that the writes `ops` built since the log
/// was last truncated is lost in a crash; reopening decodes `ops` from the
/// log, replays them, and flushes the result, as the records `s`, into a new
/// level-0 table. Every key then reads as it did before the crash.
pub proof fn lemma_crash_recovery(
    levels: Seq<Seq<TableView>>,
    ops: Seq<RecordView>,
    s: Seq<RecordView>,
    key: Seq<u8>,
)
    requires
        all_encodable(ops),
        s.len() > 0,
        lists_map(s, replay(ops)),
        records_ascending(s),
        all_encodable(s),
        encode_table(s).len() <= u32::MAX,
    ensures
        crate::protocol::decode_records(encode_records(ops)) == Ok::<Seq<RecordView>, Corruption>(ops),
        parse_table(encode_table(s)) matches Ok(t) && store_get(
            apply_writes(Map::empty(), ops),
            levels,
            key,
        ) == store_get(Map::empty(), with_level_0_table(levels, t), key),
{
    crate::wal::lemma_log_recovers_writes(ops);
    lemma_flush_preserves_reads(replay(ops), levels, s, key);
}

/// Every record decoded from bytes fits the format's lengths.
proof fn lemma_decoded_encodable(bytes: Seq<u8>)
    ensures
        decode_records(bytes) matches Ok(rs) ==> all_encodable(rs),
    decreases bytes.len(),
{
    if let Ok(Some((r, n))) = decode_record(bytes) {
        if 0 < n <= bytes.len() {
            lemma_decoded_encodable(bytes.skip(n as int));
            if let Ok(rest) = decode_records(bytes.skip(n as int)) {
                let rs = seq![r] + rest;
                assert forall|i: int| 0 <= i < rs.len() implies #[trigger] encodable(rs[i]) by {
                    if i > 0 {
                        assert(rs[i] == rest[i - 1]);
                    }
                }
            }
        }
    }
}

/// Replaying writes that fit the format leaves keys and values that fit.
proof fn lemma_replay_encodable(rs: Seq<RecordView>)
    requires
        all_encodable(rs),
    ensures
        mem_encodable(replay(rs)),
    decreases rs.len(),
{
    if rs.len() > 0 {
        let d = rs.drop_last();
        assert(all_encodable(d)) by {
            assert forall|i: int| 0 <= i < d.len() implies #[trigger] encodable(d[i]) by {
                assert(d[i] == rs[i]);
            }
        }
        lemma_replay_encodable(d);
        assert(encodable(rs[rs.len() - 1]));
    }
}

/// On opening, turns a non-empty left-over log into the plan of a level-0
/// table after `catalog`'s watermark: the log's writes, replayed in order,
/// sorted by key. `None` when the log holds no writes. A log that cannot be
/// read fails as a recovery error, a table that cannot be planned as a
/// conversion error.
pub fn recover_log(catalog: &Catalog, log: Vec<u8>) -> (r: Result<Option<LevelZeroTable>, StoreError>)
    ensures
        match r {
            Ok(None) => exists|ops: Seq<RecordView>|
                decode_records(log@) == Ok::<Seq<RecordView>, Corruption>(ops) && #[trigger] replay(ops)
                    == Map::<Seq<u8>, Option<Seq<u8>>>::empty(),
            Ok(Some(t)) => catalog.mark() < u32::MAX && t.sequence == catalog.mark() + 1 && exists|
                ops: Seq<RecordView>,
                s: Seq<RecordView>,
            |
                #![trigger replay(ops), encode_table(s)]
                decode_records(log@) == Ok::<Seq<RecordView>, Corruption>(ops) && s.len() > 0
                    && lists_map(s, replay(ops)) && records_ascending(s) && all_encodable(s)
                    && t.data@ == encode_table(s) && encode_table(s).len() <= u32::MAX,
            Err(StoreError::WalRecovery(Cause::Corruption(e))) => decode_records(log@) == Err::<
                Seq<RecordView>,
                Corruption,
            >(e),
            Err(StoreError::WalConversion(Cause::Corruption(e))) => e == Corruption::TooLarge
                && exists|ops: Seq<RecordView>|
                #![trigger replay(ops)]
                decode_records(log@) == Ok::<Seq<RecordView>, Corruption>(ops) && (catalog.mark()
                    == u32::MAX || exists|s: Seq<RecordView>|
                    #![trigger encode_table(s)]
                    records_ascending(s) && lists_map(s, replay(ops)) && encode_table(s).len()
                        > u32::MAX),
            Err(_) => false,
        },
{
    let mem = match crate::wal::recover(log) {
        Ok(m) => m,
        Err(e) => {
            return Err(StoreError::WalRecovery(Cause::Corruption(e)));
        },
    };
    let ghost ops = choose|ops: Seq<RecordView>|
        decode_records(log@) == Ok::<Seq<RecordView>, Corruption>(ops) && mem@ == replay(ops);
    proof {
        lemma_decoded_encodable(log@);
        lemma_replay_encodable(ops);
    }
    if mem.is_empty() {
        return Ok(None);
    }
    let records = mem.drain();
    let ghost rs = write_views(records@);
    proof {
        if rs.len() == 0 {
            assert(mem@ =~= Map::<Seq<u8>, Option<Seq<u8>>>::empty());
        }
        assert forall|i: int| 0 <= i < rs.len() implies #[trigger] encodable(rs[i]) by {
            assert(mem@.contains_key(rs[i].key));
        }
    }
    match catalog.write_records(records) {
        Ok(t) => {
            proof {
                let s = choose|s: Seq<RecordView>|
                    #![trigger encode_table(s)]
                    records_ascending(s) && s.to_multiset() == rs.to_multiset() && t.data@
                        == encode_table(s);
                lemma_same_multiset_lists(rs, s, mem@);
                assert(s.len() == rs.len()) by {
                    broadcast use vstd::seq_lib::group_to_multiset_ensures;

                    assert(s.to_multiset().len() == s.len());
                    assert(rs.to_multiset().len() == rs.len());
                }
                assert(all_encodable(s)) by {
                    assert forall|i: int| 0 <= i < s.len() implies #[trigger] encodable(s[i]) by {
                        assert(mem@.contains_key(s[i].key));
                    }
                }
            }
            Ok(Some(t))
        },
        Err(e) => {
            proof {
                if catalog.mark() != u32::MAX {
                    let s = choose|s: Seq<RecordView>|
                        #![trigger encode_table(s)]
                        records_ascending(s) && s.to_multiset() == rs.to_multiset()
                            && encode_table(s).len() > u32::MAX;
                    lemma_same_multiset_lists(rs, s, mem@);
                }
                assert(replay(ops) == mem@);
            }
            Err(StoreError::WalConversion(Cause::Corruption(e)))
        },
    }
}

} // verus!
