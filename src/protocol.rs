//! The on-wire forms shared by the write-ahead log and the tables: records
//! and table footers.
use crate::bytes::{copy_range, lemma_u32_round_trip, load_u32, push_all, push_u32, u32_at};
use vstd::bytes::spec_u32_to_le_bytes;
use vstd::prelude::*;

verus! {

/// Operation byte of a record that carries a value.
pub const EXISTS_OP_BYTE: u8 = 48;

/// Operation byte of a tombstone.
pub const DELETED_OP_BYTE: u8 = 49;

/// Bytes taken by a record's operation byte and its two lengths.
pub const HEADER_LEN: usize = 9;

/// Bytes taken by a footer besides its two keys.
pub const FOOTER_FIXED_LEN: usize = 16;

/// Ways in which stored bytes can fail to follow the formats.
#[derive(Debug, PartialEq, Eq, Clone, Copy)]
pub enum Corruption {
    /// The bytes end inside an item whose length was declared.
    UnexpectedEnd,
    /// A record starts with a byte that names no operation.
    BadOpByte(u8),
    /// The footer claims more bytes than the table holds.
    FooterTooLong,
    /// The footer's declared length does not match its fields.
    BadFooter,
    /// The index does not fill its section exactly.
    IndexOverrun,
    /// The index keys are not strictly ascending.
    KeysNotAscending,
    /// The footer's keys or offsets disagree with the table's contents.
    Inconsistent,
    /// A table would outgrow the format's 32-bit offsets.
    TooLarge,
    /// A level-0 table file's name is not a decimal sequence.
    BadTableName,
}

/// What a record means: a key, and its value or `None` for a deletion.
pub struct RecordView {
    pub key: Seq<u8>,
    pub val: Option<Seq<u8>>,
}

/// The value bytes that a record's encoding carries.
pub open spec fn val_bytes(r: RecordView) -> Seq<u8> {
    match r.val {
        Some(v) => v,
        None => Seq::empty(),
    }
}

/// The operation byte of a record.
pub open spec fn op_of(r: RecordView) -> u8 {
    if r.val is Some {
        EXISTS_OP_BYTE
    } else {
        DELETED_OP_BYTE
    }
}

/// A record whose lengths fit the format's 32-bit length fields.
pub open spec fn encodable(r: RecordView) -> bool {
    r.key.len() <= u32::MAX && val_bytes(r).len() <= u32::MAX
}

/// `op | key_len | val_len | key | value`, lengths little-endian.
pub open spec fn encode_record(r: RecordView) -> Seq<u8> {
    seq![op_of(r)] + spec_u32_to_le_bytes(r.key.len() as u32) + spec_u32_to_le_bytes(
        val_bytes(r).len() as u32,
    ) + r.key + val_bytes(r)
}

/// The length of a record's encoding.
pub open spec fn encoded_len(r: RecordView) -> nat {
    9 + r.key.len() + val_bytes(r).len()
}

/// Decoding one record from the front of `s`: `Ok(None)` when `s` is empty,
/// else the record and the number of bytes it took, or why there is none.
pub open spec fn decode_record(s: Seq<u8>) -> Result<Option<(RecordView, nat)>, Corruption> {
    if s.len() == 0 {
        Ok(None)
    } else if s.len() < 9 {
        Err(Corruption::UnexpectedEnd)
    } else {
        let klen = u32_at(s, 1);
        let vlen = u32_at(s, 5);
        if s[0] == EXISTS_OP_BYTE {
            if 9 + klen + vlen <= s.len() {
                Ok(
                    Some(
                        (
                            RecordView {
                                key: s.subrange(9, 9 + klen),
                                val: Some(s.subrange(9 + klen, 9 + klen + vlen)),
                            },
                            (9 + klen + vlen) as nat,
                        ),
                    ),
                )
            } else {
                Err(Corruption::UnexpectedEnd)
            }
        } else if s[0] == DELETED_OP_BYTE {
            if 9 + klen <= s.len() {
                Ok(Some((RecordView { key: s.subrange(9, 9 + klen), val: None }, (9 + klen) as nat)))
            } else {
                Err(Corruption::UnexpectedEnd)
            }
        } else {
            Err(Corruption::BadOpByte(s[0]))
        }
    }
}

/// The concatenated encodings of `rs`, in order.
pub open spec fn encode_records(rs: Seq<RecordView>) -> Seq<u8>
    decreases rs.len(),
{
    if rs.len() == 0 {
        Seq::empty()
    } else {
        encode_record(rs[0]) + encode_records(rs.drop_first())
    }
}

/// Every record of `rs` fits the format.
pub open spec fn all_encodable(rs: Seq<RecordView>) -> bool {
    forall|i: int| 0 <= i < rs.len() ==> #[trigger] encodable(rs[i])
}

/// Decoding records one after another until the bytes end exactly.
pub open spec fn decode_records(s: Seq<u8>) -> Result<Seq<RecordView>, Corruption>
    decreases s.len(),
{
    match decode_record(s) {
        Ok(None) => Ok(Seq::empty()),
        Ok(Some((r, n))) => if 0 < n <= s.len() {
            match decode_records(s.skip(n as int)) {
                Ok(rest) => Ok(seq![r] + rest),
                Err(e) => Err(e),
            }
        } else {
            Err(Corruption::UnexpectedEnd)
        },
        Err(e) => Err(e),
    }
}

/// A record to be written, borrowing its bytes.
pub enum WriteRecord<'a> {
    Exists { key: &'a [u8], val: &'a [u8] },
    Deleted { key: &'a [u8] },
}

/// A record read back, owning its bytes.
#[derive(PartialEq, Eq, Debug)]
pub enum ReadRecord {
    Exists { key: Vec<u8>, val: Vec<u8> },
    Deleted { key: Vec<u8> },
}

impl<'a> View for WriteRecord<'a> {
    type V = RecordView;

    open spec fn view(&self) -> RecordView {
        match self {
            WriteRecord::Exists { key, val } => RecordView { key: key@, val: Some(val@) },
            WriteRecord::Deleted { key } => RecordView { key: key@, val: None },
        }
    }
}

impl View for ReadRecord {
    type V = RecordView;

    open spec fn view(&self) -> RecordView {
        match self {
            ReadRecord::Exists { key, val } => RecordView { key: key@, val: Some(val@) },
            ReadRecord::Deleted { key } => RecordView { key: key@, val: None },
        }
    }
}

/// Appends the encoding of the record with `key` and, unless it is a
/// deletion, `val`.
fn encode_parts(out: &mut Vec<u8>, key: &[u8], val: Option<&[u8]>) -> (written: u64)
    requires
        key@.len() <= u32::MAX,
        val matches Some(v) ==> v@.len() <= u32::MAX,
    ensures
        ({
            let r = RecordView {
                key: key@,
                val: match val {
                    Some(v) => Some(v@),
                    None => None,
                },
            };
            &&& final(out)@ == old(out)@ + encode_record(r)
            &&& written == encoded_len(r)
        }),
{
    let ghost r = RecordView {
        key: key@,
        val: match val {
            Some(v) => Some(v@),
            None => None,
        },
    };
    let ghost start = out@;
    let op = if val.is_some() {
        EXISTS_OP_BYTE
    } else {
        DELETED_OP_BYTE
    };
    let val_len: usize = match val {
        Some(v) => v.len(),
        None => 0,
    };
    out.push(op);
    push_u32(out, key.len() as u32);
    push_u32(out, val_len as u32);
    push_all(out, key);
    match val {
        Some(v) => push_all(out, v),
        None => {},
    }
    assert(out@ =~= start + encode_record(r));
    HEADER_LEN as u64 + key.len() as u64 + val_len as u64
}

impl<'a> WriteRecord<'a> {
    /// Appends this record's encoding to `out` and returns its length.
    pub fn write_to(&self, out: &mut Vec<u8>) -> (written: u64)
        requires
            encodable(self@),
        ensures
            final(out)@ == old(out)@ + encode_record(self@),
            written == encoded_len(self@),
    {
        match self {
            WriteRecord::Exists { key, val } => encode_parts(out, key, Some(val)),
            WriteRecord::Deleted { key } => encode_parts(out, key, None),
        }
    }

    /// The record's key.
    pub fn key(&self) -> (k: &[u8])
        ensures
            k@ == self@.key,
    {
        match self {
            WriteRecord::Exists { key, .. } => key,
            WriteRecord::Deleted { key } => key,
        }
    }
}

/// Reads `n` bytes at `pos`: none when exactly `trailer` bytes are left,
/// an error when fewer than `n` others are.
pub fn fill_buf(data: &[u8], pos: usize, n: usize, trailer: usize) -> (r: Result<
    Option<Vec<u8>>,
    Corruption,
>)
    requires
        pos <= data@.len(),
    ensures
        data@.len() - pos >= n ==> (r matches Ok(Some(b)) && b@ == data@.subrange(
            pos as int,
            pos + n,
        )),
        data@.len() - pos < n && data@.len() - pos == trailer ==> r == Ok::<
            Option<Vec<u8>>,
            Corruption,
        >(None),
        data@.len() - pos < n && data@.len() - pos != trailer ==> r == Err::<
            Option<Vec<u8>>,
            Corruption,
        >(Corruption::UnexpectedEnd),
{
    let left = data.len() - pos;
    if left >= n {
        Ok(Some(copy_range(data, pos, pos + n)))
    } else if left == trailer {
        Ok(None)
    } else {
        Err(Corruption::UnexpectedEnd)
    }
}

/// Reads the little-endian `u32` at `pos`, failing where the bytes end first.
pub fn read_u32(data: &[u8], pos: usize) -> (r: Result<u32, Corruption>)
    requires
        pos <= data@.len(),
    ensures
        pos + 4 <= data@.len() ==> (r matches Ok(n) && n as int == u32_at(data@, pos as int)),
        pos + 4 > data@.len() ==> r == Err::<u32, Corruption>(Corruption::UnexpectedEnd),
{
    if data.len() - pos < 4 {
        Err(Corruption::UnexpectedEnd)
    } else {
        Ok(load_u32(data, pos))
    }
}

impl ReadRecord {
    /// Decodes the record that starts at `pos`: `Ok(None)` at the end of
    /// `data`, else the record and the position after it.
    pub fn read_from(data: &[u8], pos: usize) -> (r: Result<Option<(ReadRecord, usize)>, Corruption>)
        requires
            pos <= data@.len(),
        ensures
            ({
                let s = data@.subrange(pos as int, data@.len() as int);
                match r {
                    Ok(None) => decode_record(s) == Ok::<Option<(RecordView, nat)>, Corruption>(
                        None,
                    ),
                    Ok(Some((rec, next))) => pos < next <= data@.len() && decode_record(s) == Ok::<
                        Option<(RecordView, nat)>,
                        Corruption,
                    >(Some((rec@, (next - pos) as nat))),
                    Err(e) => decode_record(s) == Err::<Option<(RecordView, nat)>, Corruption>(e),
                }
            }),
    {
        let ghost s = data@.subrange(pos as int, data@.len() as int);
        let header = match fill_buf(data, pos, HEADER_LEN, 0) {
            Ok(Some(h)) => h,
            Ok(None) => {
                return Ok(None);
            },
            Err(e) => {
                return Err(e);
            },
        };
        assert(header@.subrange(1, 5) =~= s.subrange(1, 5));
        assert(header@.subrange(5, 9) =~= s.subrange(5, 9));
        let op = header[0];
        let klen = load_u32(header.as_slice(), 1) as usize;
        let vlen = load_u32(header.as_slice(), 5) as usize;
        let left = data.len() - pos - HEADER_LEN;
        let key_start = pos + HEADER_LEN;
        if op == EXISTS_OP_BYTE {
            if klen > left || vlen > left - klen {
                return Err(Corruption::UnexpectedEnd);
            }
            let key = copy_range(data, key_start, key_start + klen);
            let val = copy_range(data, key_start + klen, key_start + klen + vlen);
            assert(key@ =~= s.subrange(9, 9 + klen));
            assert(val@ =~= s.subrange(9 + klen, 9 + klen + vlen));
            Ok(Some((ReadRecord::Exists { key, val }, key_start + klen + vlen)))
        } else if op == DELETED_OP_BYTE {
            if klen > left {
                return Err(Corruption::UnexpectedEnd);
            }
            let key = copy_range(data, key_start, key_start + klen);
            assert(key@ =~= s.subrange(9, 9 + klen));
            Ok(Some((ReadRecord::Deleted { key }, key_start + klen)))
        } else {
            Err(Corruption::BadOpByte(op))
        }
    }

    /// Appends this record's encoding to `out` and returns its length.
    pub fn write_to(&self, out: &mut Vec<u8>) -> (written: u64)
        requires
            encodable(self@),
        ensures
            final(out)@ == old(out)@ + encode_record(self@),
            written == encoded_len(self@),
    {
        match self {
            ReadRecord::Exists { key, val } => encode_parts(out, key.as_slice(), Some(val.as_slice())),
            ReadRecord::Deleted { key } => encode_parts(out, key.as_slice(), None),
        }
    }

    /// The record's key.
    pub fn key(&self) -> (k: &[u8])
        ensures
            k@ == self@.key,
    {
        match self {
            ReadRecord::Exists { key, .. } => key.as_slice(),
            ReadRecord::Deleted { key } => key.as_slice(),
        }
    }

    /// The length of this record's encoding.
    pub fn size(&self) -> (n: u64)
        requires
            encodable(self@),
        ensures
            n == encoded_len(self@),
    {
        match self {
            ReadRecord::Exists { key, val } => HEADER_LEN as u64 + key.len() as u64
                + val.len() as u64,
            ReadRecord::Deleted { key } => HEADER_LEN as u64 + key.len() as u64,
        }
    }
}

/// Decoding a record's own encoding gives the record back and consumes
/// exactly the encoding, whatever bytes follow it.
pub proof fn lemma_record_round_trip(r: RecordView, rest: Seq<u8>)
    requires
        encodable(r),
    ensures
        encode_record(r).len() == encoded_len(r),
        decode_record(encode_record(r) + rest) == Ok::<Option<(RecordView, nat)>, Corruption>(
            Some((r, encoded_len(r))),
        ),
{
    let e = encode_record(r);
    let s = e + rest;
    let klen = r.key.len() as int;
    let vlen = val_bytes(r).len() as int;
    lemma_u32_round_trip(klen as u32);
    lemma_u32_round_trip(vlen as u32);
    assert(s.subrange(1, 5) =~= spec_u32_to_le_bytes(klen as u32));
    assert(s.subrange(5, 9) =~= spec_u32_to_le_bytes(vlen as u32));
    assert(s.subrange(9, 9 + klen) =~= r.key);
    assert(s.subrange(9 + klen, 9 + klen + vlen) =~= val_bytes(r));
    match r.val {
        Some(v) => {},
        None => {
            assert(r =~= RecordView { key: s.subrange(9, 9 + klen), val: None });
        },
    }
}

/// A record's encoding is `encoded_len` bytes long.
pub proof fn lemma_record_len(r: RecordView)
    ensures
        encode_record(r).len() == encoded_len(r),
{
    vstd::bytes::lemma_auto_spec_u32_to_from_le_bytes();
    assert(spec_u32_to_le_bytes(r.key.len() as u32).len() == 4);
    assert(spec_u32_to_le_bytes(val_bytes(r).len() as u32).len() == 4);
}

/// Encoding one more record appends its encoding.
pub proof fn lemma_encode_records_push(rs: Seq<RecordView>, r: RecordView)
    ensures
        encode_records(rs.push(r)) == encode_records(rs) + encode_record(r),
    decreases rs.len(),
{
    if rs.len() == 0 {
        assert(rs.push(r).drop_first() =~= Seq::<RecordView>::empty());
        assert(encode_records(rs.push(r).drop_first()) =~= Seq::<u8>::empty());
        assert(encode_records(rs) =~= Seq::<u8>::empty());
        assert(rs.push(r)[0] == r);
        assert(encode_records(rs.push(r)) =~= encode_records(rs) + encode_record(r));
    } else {
        lemma_encode_records_push(rs.drop_first(), r);
        assert(rs.push(r).drop_first() =~= rs.drop_first().push(r));
        assert(rs.push(r)[0] == rs[0]);
        assert(encode_records(rs.push(r)) == encode_record(rs[0]) + encode_records(
            rs.drop_first().push(r),
        ));
        assert(encode_records(rs.push(r)) =~= encode_records(rs) + encode_record(r));
    }
}

/// Decoding the concatenated encodings of records gives those records back.
pub proof fn lemma_records_round_trip(rs: Seq<RecordView>)
    requires
        all_encodable(rs),
    ensures
        decode_records(encode_records(rs)) == Ok::<Seq<RecordView>, Corruption>(rs),
    decreases rs.len(),
{
    if rs.len() > 0 {
        let tail = encode_records(rs.drop_first());
        assert(all_encodable(rs.drop_first())) by {
            assert forall|i: int| 0 <= i < rs.drop_first().len() implies #[trigger] encodable(
                rs.drop_first()[i],
            ) by {
                assert(encodable(rs[i + 1]));
            }
        }
        assert(encodable(rs[0]));
        lemma_record_round_trip(rs[0], tail);
        lemma_records_round_trip(rs.drop_first());
        let s = encode_records(rs);
        assert(s == encode_record(rs[0]) + tail);
        let n = encoded_len(rs[0]);
        assert(decode_record(s) == Ok::<Option<(RecordView, nat)>, Corruption>(Some((rs[0], n))));
        assert(0 < n <= s.len());
        assert(s.skip(n as int) =~= tail);
        assert(decode_records(s.skip(n as int)) == Ok::<Seq<RecordView>, Corruption>(rs.drop_first()));
        assert(seq![rs[0]] + rs.drop_first() =~= rs);
    } else {
        assert(encode_records(rs).len() == 0);
        assert(rs =~= Seq::<RecordView>::empty());
    }
}

/// What a footer means.
pub struct FooterView {
    pub start_key: Seq<u8>,
    pub end_key: Seq<u8>,
    pub index_start: nat,
}

/// `start_key_len | start_key | end_key_len | end_key | index_start |
/// footer_len`, where `footer_len` counts the whole footer.
pub open spec fn encode_footer(f: FooterView) -> Seq<u8> {
    spec_u32_to_le_bytes(f.start_key.len() as u32) + f.start_key + spec_u32_to_le_bytes(
        f.end_key.len() as u32,
    ) + f.end_key + spec_u32_to_le_bytes(f.index_start as u32) + spec_u32_to_le_bytes(
        footer_len(f) as u32,
    )
}

/// The length of a footer's encoding.
pub open spec fn footer_len(f: FooterView) -> nat {
    16 + f.start_key.len() + f.end_key.len()
}

/// A footer whose numbers fit their 32-bit fields.
pub open spec fn footer_encodable(f: FooterView) -> bool {
    &&& footer_len(f) <= u32::MAX
    &&& f.index_start <= u32::MAX
}

/// Decoding the footer at the end of a table's bytes `s`.
pub open spec fn decode_footer(s: Seq<u8>) -> Result<FooterView, Corruption> {
    if s.len() < 4 {
        Err(Corruption::UnexpectedEnd)
    } else {
        let flen = u32_at(s, s.len() - 4);
        if flen > s.len() {
            Err(Corruption::FooterTooLong)
        } else {
            let f = s.subrange(s.len() - flen, s.len() as int);
            if f.len() < 8 {
                Err(Corruption::BadFooter)
            } else {
                let sk = u32_at(f, 0);
                if 12 + sk > f.len() {
                    Err(Corruption::BadFooter)
                } else {
                    let ek = u32_at(f, 4 + sk);
                    if 16 + sk + ek != f.len() {
                        Err(Corruption::BadFooter)
                    } else {
                        Ok(
                            FooterView {
                                start_key: f.subrange(4, 4 + sk),
                                end_key: f.subrange(8 + sk, 8 + sk + ek),
                                index_start: u32_at(f, 8 + sk + ek) as nat,
                            },
                        )
                    }
                }
            }
        }
    }
}

/// A table's footer. `footer_length` is known once the footer was read.
pub struct Footer {
    pub start_key: Vec<u8>,
    pub end_key: Vec<u8>,
    pub index_start: u32,
    pub footer_length: Option<u32>,
}

impl View for Footer {
    type V = FooterView;

    open spec fn view(&self) -> FooterView {
        FooterView {
            start_key: self.start_key@,
            end_key: self.end_key@,
            index_start: self.index_start as nat,
        }
    }
}

impl Footer {
    /// Reads the footer at the end of a table's bytes.
    pub fn new_from_reader(data: &[u8]) -> (r: Result<Footer, Corruption>)
        ensures
            match r {
                Ok(f) => decode_footer(data@) == Ok::<FooterView, Corruption>(f@)
                    && f.footer_length == Some(footer_len(f@) as u32) && footer_len(f@)
                    <= data@.len(),
                Err(e) => decode_footer(data@) == Err::<FooterView, Corruption>(e),
            },
    {
        let len = data.len();
        if len < 4 {
            return Err(Corruption::UnexpectedEnd);
        }
        let flen = load_u32(data, len - 4) as usize;
        if flen > len {
            return Err(Corruption::FooterTooLong);
        }
        let base = len - flen;
        let ghost f = data@.subrange(base as int, len as int);
        if flen < 8 {
            return Err(Corruption::BadFooter);
        }
        let sk = load_u32(data, base) as usize;
        assert(data@.subrange(base as int, base + 4) =~= f.subrange(0, 4));
        if flen < 12 || sk > flen - 12 {
            return Err(Corruption::BadFooter);
        }
        let ek = load_u32(data, base + 4 + sk) as usize;
        assert(data@.subrange(base + 4 + sk, base + 8 + sk) =~= f.subrange(
            4 + sk as int,
            8 + sk as int,
        ));
        if flen - 12 - sk < 4 || ek != flen - 16 - sk {
            return Err(Corruption::BadFooter);
        }
        let start_key = copy_range(data, base + 4, base + 4 + sk);
        let end_key = copy_range(data, base + 8 + sk, base + 8 + sk + ek);
        let index_start = load_u32(data, base + 8 + sk + ek);
        assert(start_key@ =~= f.subrange(4, 4 + sk as int));
        assert(end_key@ =~= f.subrange(8 + sk as int, 8 + sk + ek as int));
        assert(data@.subrange(base + 8 + sk + ek, base + 12 + sk + ek) =~= f.subrange(
            8 + sk + ek as int,
            12 + sk + ek as int,
        ));
        Ok(Footer { start_key, end_key, index_start, footer_length: Some(flen as u32) })
    }

    /// Appends this footer's encoding to `out` and returns its length.
    pub fn write_to(&self, out: &mut Vec<u8>) -> (written: usize)
        requires
            footer_encodable(self@),
        ensures
            final(out)@ == old(out)@ + encode_footer(self@),
            written == footer_len(self@),
    {
        let ghost start = out@;
        push_u32(out, self.start_key.len() as u32);
        push_all(out, self.start_key.as_slice());
        push_u32(out, self.end_key.len() as u32);
        push_all(out, self.end_key.as_slice());
        push_u32(out, self.index_start);
        let written = FOOTER_FIXED_LEN + self.start_key.len() + self.end_key.len();
        push_u32(out, written as u32);
        assert(out@ =~= start + encode_footer(self@));
        written
    }
}

/// A footer's encoding is `footer_len` bytes long.
pub proof fn lemma_footer_len(f: FooterView)
    ensures
        encode_footer(f).len() == footer_len(f),
{
    vstd::bytes::lemma_auto_spec_u32_to_from_le_bytes();
    assert(spec_u32_to_le_bytes(f.start_key.len() as u32).len() == 4);
    assert(spec_u32_to_le_bytes(f.end_key.len() as u32).len() == 4);
    assert(spec_u32_to_le_bytes(f.index_start as u32).len() == 4);
    assert(spec_u32_to_le_bytes(footer_len(f) as u32).len() == 4);
}

/// Decoding a footer at the end of any bytes gives the footer back.
pub proof fn lemma_footer_round_trip(f: FooterView, front: Seq<u8>)
    requires
        footer_encodable(f),
    ensures
        encode_footer(f).len() == footer_len(f),
        decode_footer(front + encode_footer(f)) == Ok::<FooterView, Corruption>(f),
{
    let e = encode_footer(f);
    let s = front + e;
    let sk = f.start_key.len() as int;
    let ek = f.end_key.len() as int;
    lemma_u32_round_trip(sk as u32);
    lemma_u32_round_trip(ek as u32);
    lemma_u32_round_trip(f.index_start as u32);
    lemma_u32_round_trip(footer_len(f) as u32);
    let flen = footer_len(f) as int;
    assert(s.subrange(s.len() - 4, s.len() as int) =~= spec_u32_to_le_bytes(flen as u32));
    let g = s.subrange(s.len() - flen, s.len() as int);
    assert(g =~= e);
    assert(g.subrange(0, 4) =~= spec_u32_to_le_bytes(sk as u32));
    assert(g.subrange(4 + sk, 8 + sk) =~= spec_u32_to_le_bytes(ek as u32));
    assert(g.subrange(8 + sk + ek, 12 + sk + ek) =~= spec_u32_to_le_bytes(f.index_start as u32));
    assert(g.subrange(4, 4 + sk) =~= f.start_key);
    assert(g.subrange(8 + sk, 8 + sk + ek) =~= f.end_key);
}

} // verus!
