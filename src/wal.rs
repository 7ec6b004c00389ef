//! Framing of the write-ahead log: a sequence of record encodings in write
//! order, replayed on start-up to rebuild the memtable.
use crate::protocol::{all_encodable, decode_record, decode_records, encode_records, Corruption, ReadRecord, RecordView};
use crate::memtable::{read_views, replay, MemTable};
use vstd::prelude::*;

verus! {

/// Reads the records of a log's bytes one at a time. It ends exactly where
/// the bytes do; bytes that end inside a record are an error, after which it
/// yields nothing more.
pub struct Reader {
    data: Vec<u8>,
    pos: usize,
    done: bool,
}

/// What a reader has left: the bytes not yet read, and whether it stopped.
pub struct ReaderView {
    pub rest: Seq<u8>,
    pub done: bool,
}

impl View for Reader {
    type V = ReaderView;

    closed spec fn view(&self) -> ReaderView {
        ReaderView {
            rest: self.data@.subrange(self.pos as int, self.data@.len() as int),
            done: self.done,
        }
    }
}

impl Reader {
    /// Position within the bytes.
    pub closed spec fn wf(&self) -> bool {
        self.pos <= self.data@.len()
    }

    /// A reader over all of `data`.
    pub fn new(data: Vec<u8>) -> (r: Reader)
        ensures
            r.wf(),
            r@.rest == data@,
            !r@.done,
    {
        let r = Reader { data, pos: 0, done: false };
        assert(r.data@.subrange(0, r.data@.len() as int) =~= r.data@);
        r
    }

    /// The next record, `None` once the bytes are used up or after an error.
    pub fn next(&mut self) -> (r: Option<Result<ReadRecord, Corruption>>)
        requires
            old(self).wf(),
        ensures
            final(self).wf(),
            old(self)@.done ==> r is None && final(self)@ == old(self)@,
            !old(self)@.done ==> match decode_record(old(self)@.rest) {
                Ok(None) => r is None && final(self)@.done,
                Ok(Some((rec, n))) => (r matches Some(Ok(x)) && x@ == rec)
                    && final(self)@.rest == old(self)@.rest.skip(n as int) && !final(self)@.done,
                Err(e) => r == Some(Err::<ReadRecord, Corruption>(e)) && final(self)@.done,
            },
    {
        if self.done {
            return None;
        }
        let ghost rest = self@.rest;
        match ReadRecord::read_from(self.data.as_slice(), self.pos) {
            Ok(None) => {
                self.done = true;
                None
            },
            Ok(Some((rec, next))) => {
                let ghost n = (next - self.pos) as int;
                self.pos = next;
                assert(self@.rest =~= rest.skip(n));
                Some(Ok(rec))
            },
            Err(e) => {
                self.done = true;
                Some(Err(e))
            },
        }
    }
}

/// Reads every record of a log, in order, or the first error.
pub fn read_log(data: Vec<u8>) -> (r: Result<Vec<ReadRecord>, Corruption>)
    ensures
        match r {
            Ok(rs) => decode_records(data@) == Ok::<Seq<RecordView>, Corruption>(read_views(rs@)),
            Err(e) => decode_records(data@) == Err::<Seq<RecordView>, Corruption>(e),
        },
{
    let ghost all = data@;
    let mut reader = Reader::new(data);
    let mut out: Vec<ReadRecord> = Vec::new();
    loop
        invariant
            all == data@,
            reader.wf(),
            !reader@.done,
            decode_records(all) == match decode_records(reader@.rest) {
                Ok(tail) => Ok(read_views(out@) + tail),
                Err(e) => Err::<Seq<RecordView>, Corruption>(e),
            },
        decreases reader@.rest.len(),
    {
        let ghost rest = reader@.rest;
        match reader.next() {
            None => {
                assert(decode_record(rest) == Ok::<Option<(RecordView, nat)>, Corruption>(None));
                assert(decode_records(rest) == Ok::<Seq<RecordView>, Corruption>(Seq::empty()));
                assert(read_views(out@) + Seq::<RecordView>::empty() =~= read_views(out@));
                return Ok(out);
            },
            Some(Ok(rec)) => {
                let ghost before = read_views(out@);
                let ghost rv = rec@;
                out.push(rec);
                assert(read_views(out@) =~= before.push(rv));
                proof {
                    match decode_records(reader@.rest) {
                        Ok(tail) => {
                            assert(before + (seq![rv] + tail) =~= read_views(out@) + tail);
                        },
                        Err(_) => {},
                    }
                }
            },
            Some(Err(e)) => {
                assert(decode_records(rest) == Err::<Seq<RecordView>, Corruption>(e));
                return Err(e);
            },
        }
    }
}

/// Rebuilds the memtable that a log's records describe, replaying them in
/// order; fails on the first record that cannot be read.
pub fn recover(data: Vec<u8>) -> (r: Result<MemTable, Corruption>)
    ensures
        match r {
            Ok(m) => m.wf() && exists|rs: Seq<RecordView>|
                decode_records(data@) == Ok::<Seq<RecordView>, Corruption>(rs) && m@ == replay(rs),
            Err(e) => decode_records(data@) == Err::<Seq<RecordView>, Corruption>(e),
        },
{
    match read_log(data) {
        Ok(records) => {
            let ghost rs = read_views(records@);
            let m = MemTable::from_iter(records);
            assert(m@ == replay(rs));
            Ok(m)
        },
        Err(e) => Err(e),
    }
}

/// Crash recovery of the memtable: a log holding the encodings of the
/// writes `ops` rebuilds the memtable that those writes, applied in order
/// to an empty memtable, left.
pub proof fn lemma_log_recovers_writes(ops: Seq<RecordView>)
    requires
        all_encodable(ops),
    ensures
        decode_records(encode_records(ops)) == Ok::<Seq<RecordView>, Corruption>(ops),
        replay(ops) == crate::store::apply_writes(Map::empty(), ops),
    decreases ops.len(),
{
    crate::protocol::lemma_records_round_trip(ops);
    lemma_replay_is_apply(ops);
}

proof fn lemma_replay_is_apply(ops: Seq<RecordView>)
    ensures
        replay(ops) == crate::store::apply_writes(Map::empty(), ops),
    decreases ops.len(),
{
    if ops.len() > 0 {
        lemma_replay_is_apply(ops.drop_last());
    }
}

} // verus!
