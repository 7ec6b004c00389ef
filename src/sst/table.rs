//! One table: `records | index | footer`, held as its bytes with its index.
use crate::bytes::{copy_range, lex_lt, push_all, push_u32};
use crate::memtable::read_views;
use crate::protocol::{
    all_encodable, decode_footer, decode_record, decode_records, encode_footer, encode_record,
    encode_records, footer_len, lemma_encode_records_push, Corruption, Footer, FooterView,
    ReadRecord, RecordView, FOOTER_FIXED_LEN,
};
use crate::sst::index::{
    decode_index, entries_ascending, entry_offset, lemma_entry_offset_found,
    lemma_entry_offset_missing, parse_index, EntryView, Index,
};
use crate::wal::read_log;
use vstd::bytes::spec_u32_to_le_bytes;
use vstd::prelude::*;

verus! {

/// The largest table the format's 32-bit offsets can describe.
pub const MAX_TABLE_LEN: usize = 4294967295;

/// The offset of record `i` of `rs` within the records section.
pub open spec fn record_offset(rs: Seq<RecordView>, i: int) -> nat {
    encode_records(rs.take(i)).len()
}

/// The index entry of record `i` of `rs`.
pub open spec fn index_entry(rs: Seq<RecordView>, i: int) -> Seq<u8> {
    spec_u32_to_le_bytes(record_offset(rs, i) as u32) + spec_u32_to_le_bytes(
        rs[i].key.len() as u32,
    ) + rs[i].key
}

/// The index entries of the first `n` records of `rs`.
pub open spec fn encode_index(rs: Seq<RecordView>, n: nat) -> Seq<u8>
    decreases n,
{
    if n == 0 {
        Seq::empty()
    } else {
        encode_index(rs, (n - 1) as nat) + index_entry(rs, n - 1)
    }
}

/// The footer of a table holding `rs`.
pub open spec fn table_footer(rs: Seq<RecordView>) -> FooterView {
    FooterView {
        start_key: rs[0].key,
        end_key: rs.last().key,
        index_start: encode_records(rs).len(),
    }
}

/// The bytes of a table holding `rs`, which ascend strictly by key.
pub open spec fn encode_table(rs: Seq<RecordView>) -> Seq<u8> {
    encode_records(rs) + encode_index(rs, rs.len()) + encode_footer(table_footer(rs))
}

/// The keys of `rs` ascend strictly.
pub open spec fn records_ascending(rs: Seq<RecordView>) -> bool {
    forall|i: int, j: int| 0 <= i < j < rs.len() ==> lex_lt(rs[i].key, rs[j].key)
}

/// Whether the keys of `records` ascend strictly.
pub fn is_ascending(records: &Vec<ReadRecord>) -> (r: bool)
    ensures
        r == records_ascending(read_views(records@)),
{
    let ghost rs = read_views(records@);
    let mut i: usize = 1;
    while i < records.len()
        invariant
            rs == read_views(records@),
            1 <= i,
            forall|a: int, b: int| 0 <= a < b < i && b < rs.len() ==> lex_lt(rs[a].key, rs[b].key),
        decreases records@.len() - i,
    {
        if !crate::bytes::bytes_lt(records[i - 1].key(), records[i].key()) {
            assert(!lex_lt(rs[i - 1].key, rs[i as int].key));
            return false;
        }
        assert forall|a: int, b: int| 0 <= a < b < i + 1 && b < rs.len() implies lex_lt(rs[a].key, rs[b].key) by {
            if b == i && a < i - 1 {
                crate::bytes::lemma_lex_transitive(rs[a].key, rs[i - 1].key, rs[b].key);
            }
        }
        i = i + 1;
    }
    true
}

/// Builds the bytes of a table holding `records`, or fails when they would
/// not fit the format's 32-bit offsets.
pub fn build_table(records: &Vec<ReadRecord>) -> (r: Result<Vec<u8>, Corruption>)
    requires
        records@.len() > 0,
        all_encodable(read_views(records@)),
    ensures
        match r {
            Ok(img) => img@ == encode_table(read_views(records@)) && img@.len() <= u32::MAX,
            Err(e) => e == Corruption::TooLarge && encode_table(read_views(records@)).len()
                > u32::MAX,
        },
{
    let ghost rs = read_views(records@);
    let mut out: Vec<u8> = Vec::new();
    let mut offsets: Vec<usize> = Vec::new();
    let n = records.len();
    let mut i: usize = 0;
    while i < n
        invariant
            n == records@.len(),
            rs == read_views(records@),
            all_encodable(rs),
            i <= n,
            out@ == encode_records(rs.take(i as int)),
            offsets@.len() == i,
            forall|j: int| 0 <= j < i ==> offsets@[j] == record_offset(rs, j),
            forall|j: int| 0 <= j < i ==> offsets@[j] <= out@.len(),
        decreases n - i,
    {
        offsets.push(out.len());
        assert(crate::protocol::encodable(rs[i as int]));
        records[i].write_to(&mut out);
        proof {
            lemma_encode_records_push(rs.take(i as int), rs[i as int]);
            assert(rs.take(i + 1) =~= rs.take(i as int).push(rs[i as int]));
        }
        i = i + 1;
    }
    assert(rs.take(n as int) =~= rs);
    let index_start = out.len();
    if index_start > MAX_TABLE_LEN {
        return Err(Corruption::TooLarge);
    }
    let mut i: usize = 0;
    while i < n
        invariant
            n == records@.len(),
            rs == read_views(records@),
            i <= n,
            offsets@.len() == n,
            forall|j: int| 0 <= j < n ==> offsets@[j] == record_offset(rs, j),
            forall|j: int| 0 <= j < n ==> offsets@[j] <= index_start,
            index_start <= MAX_TABLE_LEN,
            all_encodable(rs),
            out@ == encode_records(rs) + encode_index(rs, i as nat),
        decreases n - i,
    {
        let key = records[i].key();
        assert(crate::protocol::encodable(rs[i as int]));
        push_u32(&mut out, offsets[i] as u32);
        push_u32(&mut out, key.len() as u32);
        push_all(&mut out, key);
        assert(out@ =~= encode_records(rs) + encode_index(rs, (i + 1) as nat));
        i = i + 1;
    }
    let footer = Footer {
        start_key: crate::bytes::to_vec(records[0].key()),
        end_key: crate::bytes::to_vec(records[n - 1].key()),
        index_start: index_start as u32,
        footer_length: None,
    };
    assert(crate::protocol::encodable(rs[0]));
    assert(crate::protocol::encodable(rs[n - 1]));
    proof {
        crate::protocol::lemma_footer_len(table_footer(rs));
    }
    let footer_total = FOOTER_FIXED_LEN as u64 + records[0].key().len() as u64
        + records[n - 1].key().len() as u64;
    if footer_total > MAX_TABLE_LEN as u64 || out.len() as u64 > MAX_TABLE_LEN as u64 - footer_total {
        return Err(Corruption::TooLarge);
    }
    footer.write_to(&mut out);
    assert(footer@ == table_footer(rs));
    Ok(out)
}

/// What a table means: its bytes, its index entries and where the index
/// starts.
pub struct TableView {
    pub data: Seq<u8>,
    pub entries: Seq<EntryView>,
    pub index_start: nat,
}

/// Opening a table's bytes: the footer, then the index section between
/// `index_start` and the footer, whose first and last keys must be the
/// footer's.
pub open spec fn parse_table(s: Seq<u8>) -> Result<TableView, Corruption> {
    match decode_footer(s) {
        Err(e) => Err(e),
        Ok(f) => {
            let end = s.len() - footer_len(f);
            if f.index_start > end {
                Err(Corruption::IndexOverrun)
            } else {
                match parse_index(s.subrange(f.index_start as int, end)) {
                    Err(e) => Err(e),
                    Ok(es) => if es[0].0 != f.start_key || es.last().0 != f.end_key {
                        Err(Corruption::Inconsistent)
                    } else {
                        Ok(TableView { data: s, entries: es, index_start: f.index_start })
                    },
                }
            }
        },
    }
}

/// Looking `key` up in a table: absent when the index lacks it, else the
/// record at its offset, which must carry that key.
pub open spec fn table_get(t: TableView, key: Seq<u8>) -> Result<Option<RecordView>, Corruption> {
    match entry_offset(t.entries, key) {
        None => Ok(None),
        Some(off) => if off > t.data.len() {
            Err(Corruption::Inconsistent)
        } else {
            match decode_record(t.data.subrange(off as int, t.data.len() as int)) {
                Ok(Some((r, _))) => if r.key == key {
                    Ok(Some(r))
                } else {
                    Err(Corruption::Inconsistent)
                },
                Ok(None) => Err(Corruption::UnexpectedEnd),
                Err(e) => Err(e),
            }
        },
    }
}

/// Reading every record of a table, in order, from its records section.
pub open spec fn table_scan(t: TableView) -> Result<Seq<RecordView>, Corruption> {
    decode_records(t.data.subrange(0, t.index_start as int))
}

/// An open table.
pub struct Table {
    data: Vec<u8>,
    index: Index,
    index_start: u32,
    name: Vec<u8>,
}

impl View for Table {
    type V = TableView;

    closed spec fn view(&self) -> TableView {
        TableView { data: self.data@, entries: self.index@, index_start: self.index_start as nat }
    }
}

impl Table {
    /// The table is what opening its bytes gives.
    pub closed spec fn wf(&self) -> bool {
        &&& self.index.wf()
        &&& parse_table(self.data@) == Ok::<TableView, Corruption>(self@)
    }

    /// The table's file name within its level.
    pub closed spec fn file_name(&self) -> Seq<u8> {
        self.name@
    }

    /// The table's file name within its level.
    pub fn name(&self) -> (r: &Vec<u8>)
        ensures
            r@ == self.file_name(),
    {
        &self.name
    }

    /// The smallest key of a table.
    pub open spec fn first_key(&self) -> Seq<u8> {
        self@.entries[0].0
    }

    /// The largest key of a table.
    pub open spec fn last_key(&self) -> Seq<u8> {
        self@.entries.last().0
    }

    /// Opens the bytes of a table named `name`.
    pub fn new(name: Vec<u8>, data: Vec<u8>) -> (r: Result<Table, Corruption>)
        ensures
            match r {
                Ok(t) => t.wf() && t.file_name() == name@ && parse_table(data@) == Ok::<
                    TableView,
                    Corruption,
                >(t@),
                Err(e) => parse_table(data@) == Err::<TableView, Corruption>(e),
            },
    {
        let footer = match Footer::new_from_reader(data.as_slice()) {
            Ok(f) => f,
            Err(e) => {
                return Err(e);
            },
        };
        let end = data.len() - footer.footer_length.unwrap() as usize;
        if footer.index_start as usize > end {
            return Err(Corruption::IndexOverrun);
        }
        let section = copy_range(data.as_slice(), footer.index_start as usize, end);
        let index = match Index::from_index_reader(section.as_slice()) {
            Ok(i) => i,
            Err(e) => {
                return Err(e);
            },
        };
        proof {
            index.lemma_ends();
        }
        let ks = index.key_start();
        let ke = index.key_end();
        if !crate::bytes::bytes_eq(ks.as_slice(), footer.start_key.as_slice())
            || !crate::bytes::bytes_eq(ke.as_slice(), footer.end_key.as_slice()) {
            return Err(Corruption::Inconsistent);
        }
        Ok(Table { data, index, index_start: footer.index_start, name })
    }

    /// The record stored under `key`, if the table holds it.
    pub fn get(&self, key: &[u8]) -> (r: Result<Option<ReadRecord>, Corruption>)
        requires
            self.wf(),
        ensures
            match r {
                Ok(Some(rec)) => table_get(self@, key@) == Ok::<Option<RecordView>, Corruption>(
                    Some(rec@),
                ),
                Ok(None) => table_get(self@, key@) == Ok::<Option<RecordView>, Corruption>(None),
                Err(e) => table_get(self@, key@) == Err::<Option<RecordView>, Corruption>(e),
            },
    {
        match self.index.get_offset(key) {
            None => Ok(None),
            Some(off) => {
                let off = *off as usize;
                if off > self.data.len() {
                    return Err(Corruption::Inconsistent);
                }
                match ReadRecord::read_from(self.data.as_slice(), off) {
                    Ok(Some((rec, _))) => {
                        if crate::bytes::bytes_eq(rec.key(), key) {
                            Ok(Some(rec))
                        } else {
                            Err(Corruption::Inconsistent)
                        }
                    },
                    Ok(None) => Err(Corruption::UnexpectedEnd),
                    Err(e) => Err(e),
                }
            },
        }
    }

    /// Every record of the table, in ascending key order.
    pub fn scan(&self) -> (r: Result<Vec<ReadRecord>, Corruption>)
        requires
            self.wf(),
        ensures
            match r {
                Ok(rs) => table_scan(self@) == Ok::<Seq<RecordView>, Corruption>(
                    read_views(rs@),
                ),
                Err(e) => table_scan(self@) == Err::<Seq<RecordView>, Corruption>(e),
            },
    {
        let records = copy_range(self.data.as_slice(), 0, self.index_start as usize);
        read_log(records)
    }

    /// The smallest key.
    pub fn key_start(&self) -> (r: Vec<u8>)
        requires
            self.wf(),
        ensures
            r@ == self.first_key(),
    {
        proof {
            self.index.lemma_ends();
        }
        self.index.key_start()
    }

    /// The largest key.
    pub fn key_end(&self) -> (r: Vec<u8>)
        requires
            self.wf(),
        ensures
            r@ == self.last_key(),
    {
        proof {
            self.index.lemma_ends();
        }
        self.index.key_end()
    }
}

/// The index entries that a table holding `rs` carries.
pub open spec fn index_entries(rs: Seq<RecordView>) -> Seq<EntryView> {
    Seq::new(rs.len(), |i: int| (rs[i].key, record_offset(rs, i)))
}

/// The index entries of records `lo` up to `hi`, front to back.
pub open spec fn index_part(rs: Seq<RecordView>, lo: int, hi: int) -> Seq<u8>
    decreases hi - lo,
{
    if lo >= hi {
        Seq::empty()
    } else {
        index_entry(rs, lo) + index_part(rs, lo + 1, hi)
    }
}

proof fn lemma_index_part_push(rs: Seq<RecordView>, lo: int, hi: int)
    requires
        lo <= hi,
    ensures
        index_part(rs, lo, hi + 1) == index_part(rs, lo, hi) + index_entry(rs, hi),
    decreases hi - lo,
{
    if lo < hi {
        lemma_index_part_push(rs, lo + 1, hi);
        assert(index_part(rs, lo, hi + 1) =~= index_part(rs, lo, hi) + index_entry(rs, hi));
    } else {
        assert(index_part(rs, lo + 1, hi + 1) =~= Seq::<u8>::empty());
        assert(index_part(rs, lo, hi + 1) =~= index_part(rs, lo, hi) + index_entry(rs, hi));
    }
}

proof fn lemma_index_is_part(rs: Seq<RecordView>, n: nat)
    ensures
        encode_index(rs, n) == index_part(rs, 0, n as int),
    decreases n,
{
    if n > 0 {
        lemma_index_is_part(rs, (n - 1) as nat);
        lemma_index_part_push(rs, 0, n - 1);
    }
}

/// The records section splits at any record.
proof fn lemma_records_split(rs: Seq<RecordView>, i: int)
    requires
        0 <= i <= rs.len(),
    ensures
        encode_records(rs) == encode_records(rs.take(i)) + encode_records(rs.skip(i)),
    decreases i,
{
    if i == 0 {
        assert(rs.take(0) =~= Seq::<RecordView>::empty());
        assert(rs.skip(0) =~= rs);
        assert(encode_records(rs.take(0)) =~= Seq::<u8>::empty());
        assert(encode_records(rs) =~= encode_records(rs.take(0)) + encode_records(rs.skip(0)));
    } else {
        lemma_records_split(rs, i - 1);
        lemma_encode_records_push(rs.take(i - 1), rs[i - 1]);
        assert(rs.take(i) =~= rs.take(i - 1).push(rs[i - 1]));
        assert(rs.skip(i - 1).drop_first() =~= rs.skip(i));
        assert(rs.skip(i - 1)[0] == rs[i - 1]);
        assert(encode_records(rs.skip(i - 1)) == encode_record(rs[i - 1]) + encode_records(rs.skip(i)));
        assert(encode_records(rs) =~= encode_records(rs.take(i)) + encode_records(rs.skip(i)));
    }
}

proof fn lemma_offset_bound(rs: Seq<RecordView>, i: int)
    requires
        0 <= i <= rs.len(),
    ensures
        record_offset(rs, i) <= encode_records(rs).len(),
{
    lemma_records_split(rs, i);
}

proof fn lemma_decode_index_part(rs: Seq<RecordView>, lo: int, hi: int)
    requires
        0 <= lo <= hi <= rs.len(),
        all_encodable(rs),
        encode_records(rs).len() <= u32::MAX,
    ensures
        decode_index(index_part(rs, lo, hi)) == Ok::<Seq<EntryView>, Corruption>(
            index_entries(rs).subrange(lo, hi),
        ),
    decreases hi - lo,
{
    if lo == hi {
        assert(index_entries(rs).subrange(lo, hi) =~= Seq::<EntryView>::empty());
    } else {
        lemma_decode_index_part(rs, lo + 1, hi);
        let e = index_entry(rs, lo);
        let s = index_part(rs, lo, hi);
        let off = record_offset(rs, lo);
        lemma_offset_bound(rs, lo);
        assert(crate::protocol::encodable(rs[lo]));
        let kl = rs[lo].key.len();
        crate::bytes::lemma_u32_round_trip(off as u32);
        crate::bytes::lemma_u32_round_trip(kl as u32);
        assert(s == e + index_part(rs, lo + 1, hi));
        assert(s.subrange(0, 4) =~= spec_u32_to_le_bytes(off as u32));
        assert(s.subrange(4, 8) =~= spec_u32_to_le_bytes(kl as u32));
        assert(s.subrange(8, 8 + kl as int) =~= rs[lo].key);
        assert(s.skip(8 + kl as int) =~= index_part(rs, lo + 1, hi));
        assert(index_entries(rs).subrange(lo, hi) =~= seq![(rs[lo].key, off)]
            + index_entries(rs).subrange(lo + 1, hi));
    }
}

/// Building a table from records with strictly ascending keys and opening
/// it gives one index entry per record, in order, at the record's offset;
/// scanning it gives the records back; looking a record's key up gives that
/// record, and any other key gives nothing.
pub proof fn lemma_table_round_trip(rs: Seq<RecordView>)
    requires
        rs.len() > 0,
        all_encodable(rs),
        records_ascending(rs),
        encode_table(rs).len() <= u32::MAX,
    ensures
        parse_table(encode_table(rs)) == Ok::<TableView, Corruption>(
            TableView {
                data: encode_table(rs),
                entries: index_entries(rs),
                index_start: encode_records(rs).len(),
            },
        ),
        table_scan(
            TableView {
                data: encode_table(rs),
                entries: index_entries(rs),
                index_start: encode_records(rs).len(),
            },
        ) == Ok::<Seq<RecordView>, Corruption>(rs),
        forall|i: int|
            0 <= i < rs.len() ==> table_get(
                TableView {
                    data: encode_table(rs),
                    entries: index_entries(rs),
                    index_start: encode_records(rs).len(),
                },
                #[trigger] rs[i].key,
            ) == Ok::<Option<RecordView>, Corruption>(Some(rs[i])),
        forall|k: Seq<u8>|
            (forall|i: int| 0 <= i < rs.len() ==> rs[i].key != k) ==> #[trigger] table_get(
                TableView {
                    data: encode_table(rs),
                    entries: index_entries(rs),
                    index_start: encode_records(rs).len(),
                },
                k,
            ) == Ok::<Option<RecordView>, Corruption>(None),
{
    let recs = encode_records(rs);
    let n = rs.len();
    let idx = encode_index(rs, n);
    let f = table_footer(rs);
    let data = encode_table(rs);
    let es = index_entries(rs);
    let t = TableView { data, entries: es, index_start: recs.len() };
    crate::protocol::lemma_footer_len(f);
    crate::protocol::lemma_footer_round_trip(f, recs + idx);
    assert(data == (recs + idx) + encode_footer(f));
    assert(decode_footer(data) == Ok::<FooterView, Corruption>(f));
    let end = data.len() - footer_len(f);
    assert(end == recs.len() + idx.len());
    assert(data.subrange(recs.len() as int, end) =~= idx);
    lemma_index_is_part(rs, n);
    lemma_decode_index_part(rs, 0, n as int);
    assert(es.subrange(0, n as int) =~= es);
    assert(entries_ascending(es));
    assert(parse_index(idx) == Ok::<Seq<EntryView>, Corruption>(es));
    assert(es[0].0 == f.start_key);
    assert(es.last().0 == f.end_key);
    assert(parse_table(data) == Ok::<TableView, Corruption>(t));
    assert(data.subrange(0, recs.len() as int) =~= recs);
    crate::protocol::lemma_records_round_trip(rs);
    assert forall|i: int| 0 <= i < rs.len() implies table_get(t, #[trigger] rs[i].key) == Ok::<
        Option<RecordView>,
        Corruption,
    >(Some(rs[i])) by {
        lemma_entry_offset_found(es, i);
        let off = record_offset(rs, i);
        lemma_records_split(rs, i);
        assert(rs.skip(i)[0] == rs[i]);
        let rest = encode_records(rs.skip(i).drop_first()) + idx + encode_footer(f);
        assert(data.subrange(off as int, data.len() as int) =~= encode_record(rs[i]) + rest);
        assert(crate::protocol::encodable(rs[i]));
        crate::protocol::lemma_record_round_trip(rs[i], rest);
    }
    assert forall|k: Seq<u8>|
        (forall|i: int| 0 <= i < rs.len() ==> rs[i].key != k) implies #[trigger] table_get(t, k)
        == Ok::<Option<RecordView>, Corruption>(None) by {
        assert forall|i: int| 0 <= i < es.len() implies es[i].0 != k by {
            assert(es[i].0 == rs[i].key);
        }
        lemma_entry_offset_missing(es, k);
    }
}

} // verus!
