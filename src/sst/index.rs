//! The index section of a table: for each record, in key order, its offset
//! and key.
use crate::bytes::{
    bytes_eq, bytes_lt, copy_range, lemma_lex_irreflexive, lemma_lex_total, lemma_lex_transitive,
    lex_lt, load_u32, to_vec, u32_at,
};
use crate::protocol::Corruption;
use vstd::prelude::*;

verus! {

/// What an index entry means: a key and the offset of its record.
pub type EntryView = (Seq<u8>, nat);

/// Decoding index entries `offset | key_len | key` until the bytes end.
pub open spec fn decode_index(s: Seq<u8>) -> Result<Seq<EntryView>, Corruption>
    decreases s.len(),
{
    if s.len() == 0 {
        Ok(Seq::empty())
    } else if s.len() < 8 {
        Err(Corruption::UnexpectedEnd)
    } else {
        let kl = u32_at(s, 4);
        if 8 + kl > s.len() {
            Err(Corruption::UnexpectedEnd)
        } else {
            match decode_index(s.skip(8 + kl)) {
                Ok(rest) => Ok(seq![(s.subrange(8, 8 + kl), u32_at(s, 0) as nat)] + rest),
                Err(e) => Err(e),
            }
        }
    }
}

/// The keys of `es` are strictly ascending.
pub open spec fn entries_ascending(es: Seq<EntryView>) -> bool {
    forall|i: int, j: int| 0 <= i < j < es.len() ==> lex_lt(es[i].0, es[j].0)
}

/// The offset that `es` gives `key`, if any.
pub open spec fn entry_offset(es: Seq<EntryView>, key: Seq<u8>) -> Option<nat>
    decreases es.len(),
{
    if es.len() == 0 {
        None
    } else if es[0].0 == key {
        Some(es[0].1)
    } else {
        entry_offset(es.drop_first(), key)
    }
}

/// An ascending index gives each of its keys the offset of its entry.
pub proof fn lemma_entry_offset_found(es: Seq<EntryView>, i: int)
    requires
        0 <= i < es.len(),
        entries_ascending(es),
    ensures
        entry_offset(es, es[i].0) == Some(es[i].1),
    decreases i,
{
    if i > 0 {
        lemma_lex_irreflexive(es[i].0);
        assert(lex_lt(es[0].0, es[i].0));
        assert(es[0].0 != es[i].0);
        let d = es.drop_first();
        assert(entries_ascending(d)) by {
            assert forall|a: int, b: int| 0 <= a < b < d.len() implies lex_lt(d[a].0, d[b].0) by {
                assert(d[a] == es[a + 1] && d[b] == es[b + 1]);
            }
        }
        lemma_entry_offset_found(d, i - 1);
        assert(d[i - 1] == es[i]);
    }
}

/// An index gives no offset to a key it lacks.
pub proof fn lemma_entry_offset_missing(es: Seq<EntryView>, key: Seq<u8>)
    requires
        forall|i: int| 0 <= i < es.len() ==> es[i].0 != key,
    ensures
        entry_offset(es, key) == None::<nat>,
    decreases es.len(),
{
    if es.len() > 0 {
        let d = es.drop_first();
        assert forall|i: int| 0 <= i < d.len() implies d[i].0 != key by {
            assert(d[i] == es[i + 1]);
        }
        lemma_entry_offset_missing(d, key);
    }
}

/// Decoding a non-empty index section whose keys ascend strictly.
pub open spec fn parse_index(s: Seq<u8>) -> Result<Seq<EntryView>, Corruption> {
    match decode_index(s) {
        Ok(es) => if es.len() == 0 {
            Err(Corruption::Inconsistent)
        } else if !entries_ascending(es) {
            Err(Corruption::KeysNotAscending)
        } else {
            Ok(es)
        },
        Err(e) => Err(e),
    }
}

/// One index entry.
pub struct IndexEntry {
    pub key: Vec<u8>,
    pub offset: u32,
}

impl View for IndexEntry {
    type V = EntryView;

    open spec fn view(&self) -> EntryView {
        (self.key@, self.offset as nat)
    }
}

/// The views of a sequence of index entries.
pub open spec fn entry_views(es: Seq<IndexEntry>) -> Seq<EntryView> {
    es.map_values(|e: IndexEntry| e@)
}

/// A table's index: its entries in ascending key order, with the first and
/// last key.
pub struct Index {
    entries: Vec<IndexEntry>,
    key_start: Vec<u8>,
    key_end: Vec<u8>,
}

impl View for Index {
    type V = Seq<EntryView>;

    closed spec fn view(&self) -> Seq<EntryView> {
        entry_views(self.entries@)
    }
}

impl Index {
    /// Non-empty, ascending, and the end keys are those of the entries.
    pub closed spec fn wf(&self) -> bool {
        &&& self@.len() > 0
        &&& entries_ascending(self@)
        &&& self.key_start@ == self@[0].0
        &&& self.key_end@ == self@.last().0
    }

    /// The smallest key of the index.
    pub closed spec fn first_key(&self) -> Seq<u8> {
        self.key_start@
    }

    /// The largest key of the index.
    pub closed spec fn last_key(&self) -> Seq<u8> {
        self.key_end@
    }

    /// The offset of `key`'s record, if the index holds the key.
    pub fn get_offset(&self, key: &[u8]) -> (r: Option<&u32>)
        requires
            self.wf(),
        ensures
            match r {
                Some(o) => entry_offset(self@, key@) == Some(*o as nat),
                None => entry_offset(self@, key@) == None::<nat>,
            },
    {
        let ghost es = self@;
        let mut lo: usize = 0;
        let mut hi: usize = self.entries.len();
        while lo < hi
            invariant
                es == self@,
                self.wf(),
                es.len() == self.entries@.len(),
                lo <= hi <= es.len(),
                forall|i: int| 0 <= i < lo ==> lex_lt(#[trigger] es[i].0, key@),
                forall|i: int| hi <= i < es.len() ==> lex_lt(key@, #[trigger] es[i].0),
            decreases hi - lo,
        {
            let mid = lo + (hi - lo) / 2;
            let k = self.entries[mid].key.as_slice();
            assert(es[mid as int].0 == k@);
            if bytes_eq(k, key) {
                proof {
                    lemma_entry_offset_found(es, mid as int);
                }
                return Some(&self.entries[mid].offset);
            }
            if bytes_lt(k, key) {
                assert forall|i: int| 0 <= i < mid + 1 implies lex_lt(#[trigger] es[i].0, key@) by {
                    if i < mid {
                        lemma_lex_transitive(es[i].0, es[mid as int].0, key@);
                    }
                }
                lo = mid + 1;
            } else {
                proof {
                    lemma_lex_total(k@, key@);
                }
                assert forall|i: int| mid <= i < es.len() implies lex_lt(key@, #[trigger] es[i].0) by {
                    if i > mid {
                        lemma_lex_transitive(key@, es[mid as int].0, es[i].0);
                    }
                }
                hi = mid;
            }
        }
        proof {
            assert forall|i: int| 0 <= i < es.len() implies es[i].0 != key@ by {
                lemma_lex_irreflexive(key@);
            }
            lemma_entry_offset_missing(es, key@);
        }
        None
    }

    /// Reads the entries of an index section, which must fill it exactly,
    /// be non-empty and ascend strictly by key.
    pub fn from_index_reader(section: &[u8]) -> (r: Result<Index, Corruption>)
        ensures
            match r {
                Ok(idx) => idx.wf() && parse_index(section@) == Ok::<Seq<EntryView>, Corruption>(
                    idx@,
                ),
                Err(e) => parse_index(section@) == Err::<Seq<EntryView>, Corruption>(e),
            },
    {
        let mut entries: Vec<IndexEntry> = Vec::new();
        let mut pos: usize = 0;
        let len = section.len();
        let ghost s = section@;
        assert(s.skip(0) =~= s);
        while pos < len
            invariant
                len == s.len(),
                s == section@,
                pos <= len,
                decode_index(s) == match decode_index(s.skip(pos as int)) {
                    Ok(tail) => Ok(entry_views(entries@) + tail),
                    Err(e) => Err::<Seq<EntryView>, Corruption>(e),
                },
            decreases len - pos,
        {
            let ghost t = s.skip(pos as int);
            if len - pos < 8 {
                return Err(Corruption::UnexpectedEnd);
            }
            let offset = load_u32(section, pos);
            let kl = load_u32(section, pos + 4) as usize;
            assert(s.subrange(pos as int, pos + 4) =~= t.subrange(0, 4));
            assert(s.subrange(pos + 4, pos + 8) =~= t.subrange(4, 8));
            if kl > len - pos - 8 {
                return Err(Corruption::UnexpectedEnd);
            }
            let key = copy_range(section, pos + 8, pos + 8 + kl);
            assert(key@ =~= t.subrange(8, 8 + kl as int));
            let ghost before = entry_views(entries@);
            entries.push(IndexEntry { key, offset });
            assert(entry_views(entries@) =~= before.push((key@, offset as nat)));
            assert(t.skip(8 + kl as int) =~= s.skip(pos + 8 + kl));
            proof {
                match decode_index(s.skip(pos + 8 + kl)) {
                    Ok(tail) => {
                        assert(before + (seq![(key@, offset as nat)] + tail) =~= entry_views(
                            entries@,
                        ) + tail);
                    },
                    Err(_) => {},
                }
            }
            pos = pos + 8 + kl;
        }
        assert(s.skip(pos as int).len() == 0);
        assert(entry_views(entries@) + Seq::<EntryView>::empty() =~= entry_views(entries@));
        let ghost es = entry_views(entries@);
        if entries.len() == 0 {
            return Err(Corruption::Inconsistent);
        }
        let mut i: usize = 1;
        while i < entries.len()
            invariant
                es == entry_views(entries@),
                decode_index(section@) == Ok::<Seq<EntryView>, Corruption>(es),
                1 <= i <= es.len(),
                forall|a: int, b: int| 0 <= a < b < i ==> lex_lt(es[a].0, es[b].0),
            decreases es.len() - i,
        {
            assert(es[i - 1].0 == entries@[i - 1].key@);
            assert(es[i as int].0 == entries@[i as int].key@);
            if !bytes_lt(entries[i - 1].key.as_slice(), entries[i].key.as_slice()) {
                assert(!lex_lt(es[i - 1].0, es[i as int].0));
                assert(!entries_ascending(es));
                return Err(Corruption::KeysNotAscending);
            }
            assert forall|a: int, b: int| 0 <= a < b < i + 1 implies lex_lt(es[a].0, es[b].0) by {
                if b == i && a < i - 1 {
                    lemma_lex_transitive(es[a].0, es[i - 1].0, es[b].0);
                }
            }
            i = i + 1;
        }
        assert(es[0].0 == entries@[0].key@);
        assert(es.last().0 == entries@[entries@.len() - 1].key@);
        let key_start = to_vec(entries[0].key.as_slice());
        let key_end = to_vec(entries[entries.len() - 1].key.as_slice());
        Ok(Index { entries, key_start, key_end })
    }

    /// The end keys are those of the first and last entry.
    pub proof fn lemma_ends(&self)
        requires
            self.wf(),
        ensures
            self@.len() > 0,
            self.first_key() == self@[0].0,
            self.last_key() == self@.last().0,
    {
    }

    /// The smallest key.
    pub fn key_start(&self) -> (r: Vec<u8>)
        ensures
            r@ == self.first_key(),
    {
        to_vec(self.key_start.as_slice())
    }

    /// The largest key.
    pub fn key_end(&self) -> (r: Vec<u8>)
        ensures
            r@ == self.last_key(),
    {
        to_vec(self.key_end.as_slice())
    }
}

} // verus!
