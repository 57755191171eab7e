//! The record codec: one on-disk entry, its byte layout, and its checksum.
//!
//! A record's on-disk layout, little-endian throughout:
//!
//! `crc` (4 B) | `timestamp` (8 B) | `key_size` (4 B) | `value_size` (8 B) |
//! `op` (1 B) | key bytes | value bytes
//!
//! The header is 25 bytes; the full record is `25 + key_size + value_size`
//! bytes. `crc` is the CRC-32 of every field after it, in order. `timestamp`
//! is an absolute expiry in milliseconds since the Unix epoch, `0` meaning
//! "no expiry". `op` is `0` for an addition, `1` for an update (reserved),
//! `2` for a deletion (a tombstone, whose value is empty).

use vstd::bytes::*;
use vstd::prelude::*;
use vstd::slice::*;

use crate::crc::{crc32, crc32_of};
use crate::time::current_milliseconds;

verus! {

/// Width of the fixed record header in bytes.
pub const HEADER_SIZE: usize = 25;

/// What a record does to its key.
#[derive(Debug, Clone, Copy, PartialEq, Eq, Structural)]
pub enum Op {
    Add,
    Put,
    Del,
}

/// The byte that encodes an operation.
pub open spec fn op_byte(op: Op) -> u8 {
    match op {
        Op::Add => 0,
        Op::Put => 1,
        Op::Del => 2,
    }
}

/// The operation a byte encodes; meaningful only for bytes `0`, `1`, `2`.
pub open spec fn op_of_byte(b: u8) -> Op {
    if b == 0 {
        Op::Add
    } else if b == 1 {
        Op::Put
    } else {
        Op::Del
    }
}

impl Op {
    /// The operation encoded by `value`, if `value` is `0`, `1` or `2`.
    pub fn from_u8(value: u8) -> (r: Option<Op>)
        ensures
            r == if value <= 2 {
                Some(op_of_byte(value))
            } else {
                None::<Op>
            },
    {
        match value {
            0 => Some(Op::Add),
            1 => Some(Op::Put),
            2 => Some(Op::Del),
            _ => None,
        }
    }

    /// The byte encoding this operation.
    pub fn to_u8(self) -> (r: u8)
        ensures
            r == op_byte(self),
    {
        match self {
            Op::Add => 0,
            Op::Put => 1,
            Op::Del => 2,
        }
    }

    /// This operation as a one-byte little-endian sequence.
    pub fn to_le_bytes(self) -> (r: Vec<u8>)
        ensures
            r@ == seq![op_byte(self)],
    {
        let mut v: Vec<u8> = Vec::new();
        v.push(self.to_u8());
        v
    }

    /// Decodes an operation from a one-byte slice.
    pub fn from_le_bytes(bytes: &[u8]) -> (r: Result<Op, &'static str>)
        ensures
            bytes@.len() == 1 && bytes@[0] <= 2 ==> r == Ok::<Op, &'static str>(
                op_of_byte(bytes@[0]),
            ),
            bytes@.len() != 1 || bytes@[0] > 2 ==> r is Err,
    {
        if bytes.len() != 1 {
            return Err("Invalid byte array length for Op");
        }
        let value = *slice_index_get(bytes, 0);
        match Op::from_u8(value) {
            Some(op) => Ok(op),
            None => Err("Invalid value for Op"),
        }
    }
}

/// The mathematical model of one record.
pub ghost struct RecordView {
    pub crc: u32,
    pub timestamp: u64,
    pub key_size: u32,
    pub value_size: u64,
    pub op: Op,
    pub key: Seq<u8>,
    pub value: Seq<u8>,
}

impl RecordView {
    /// The bytes the checksum is computed over: every field after `crc`.
    pub open spec fn crc_payload(self) -> Seq<u8> {
        spec_u64_to_le_bytes(self.timestamp) + spec_u32_to_le_bytes(self.key_size)
            + spec_u64_to_le_bytes(self.value_size) + seq![op_byte(self.op)] + self.key + self.value
    }

    /// The full on-disk encoding of the record.
    pub open spec fn to_bytes(self) -> Seq<u8> {
        spec_u32_to_le_bytes(self.crc) + self.crc_payload()
    }

    /// The record's total on-disk width.
    pub open spec fn size(self) -> int {
        25 + self.key.len() + self.value.len() as int
    }

    /// The size fields agree with the key and value actually held.
    pub open spec fn sizes_ok(self) -> bool {
        self.key_size == self.key.len() && self.value_size == self.value.len()
    }

    /// The stored checksum matches the record's own bytes.
    pub open spec fn crc_ok(self) -> bool {
        self.crc == crc32_of(self.crc_payload())
    }

    /// A record fit to be appended: sizes agree and the checksum is right.
    pub open spec fn wf(self) -> bool {
        self.sizes_ok() && self.crc_ok()
    }

    /// The record is past its expiry at `now_ms`.
    pub open spec fn expired_at(self, now_ms: u64) -> bool {
        self.timestamp != 0 && now_ms > self.timestamp
    }
}

/// The record starting at byte `pos` of `b`, if a complete one lies there:
/// the header must fit, the operation byte must be meaningful, and the key
/// and value must be present in full. The checksum is read, not verified.
pub open spec fn parse_record_at(b: Seq<u8>, pos: int) -> Option<RecordView> {
    if 0 <= pos && pos + 25 <= b.len() {
        let crc = spec_u32_from_le_bytes(b.subrange(pos, pos + 4));
        let timestamp = spec_u64_from_le_bytes(b.subrange(pos + 4, pos + 12));
        let key_size = spec_u32_from_le_bytes(b.subrange(pos + 12, pos + 16));
        let value_size = spec_u64_from_le_bytes(b.subrange(pos + 16, pos + 24));
        let opb = b[pos + 24];
        if opb <= 2 && pos + 25 + key_size + value_size <= b.len() {
            Some(
                RecordView {
                    crc,
                    timestamp,
                    key_size,
                    value_size,
                    op: op_of_byte(opb),
                    key: b.subrange(pos + 25, pos + 25 + key_size),
                    value: b.subrange(
                        pos + 25 + key_size,
                        pos + 25 + key_size + value_size,
                    ),
                },
            )
        } else {
            None
        }
    } else {
        None
    }
}

/// The records laid end to end from byte `pos` of `b`, each with its offset.
/// Parsing stops cleanly at the first position where no complete record lies:
/// a truncated header or body ends the stream, as does a meaningless
/// operation byte.
pub open spec fn parse_stream(b: Seq<u8>, pos: int) -> Seq<(int, RecordView)>
    decreases b.len() - pos,
    when 0 <= pos <= b.len()
{
    match parse_record_at(b, pos) {
        None => Seq::empty(),
        Some(r) => seq![(pos, r)] + parse_stream(b, pos + r.size()),
    }
}

/// The position where parsing stops when it walks the records laid end to
/// end from byte `pos` of `b`. A log is cleanly parsed from `pos` when this
/// reaches `b.len()`: every byte belongs to a complete record.
pub open spec fn parse_end(b: Seq<u8>, pos: int) -> int
    decreases b.len() - pos,
    when 0 <= pos <= b.len()
{
    match parse_record_at(b, pos) {
        None => pos,
        Some(r) => parse_end(b, pos + r.size()),
    }
}

/// Parsing never stops before where it started nor past the image's end.
pub proof fn lemma_parse_end_bounds(b: Seq<u8>, pos: int)
    requires
        0 <= pos <= b.len(),
    ensures
        pos <= parse_end(b, pos) <= b.len(),
    decreases b.len() - pos,
{
    match parse_record_at(b, pos) {
        Option::None => {},
        Option::Some(r) => {
            lemma_parse_end_bounds(b, pos + r.size());
        },
    }
}

/// A record that parses at `pos` still parses there, unchanged, after more
/// bytes are appended to the image: parsing reads nothing past the record.
pub proof fn lemma_parse_record_at_extend(b: Seq<u8>, ext: Seq<u8>, pos: int)
    requires
        parse_record_at(b, pos) is Some,
    ensures
        parse_record_at(b + ext, pos) == parse_record_at(b, pos),
{
    let b2 = b + ext;
    let r = parse_record_at(b, pos)->Some_0;
    let ks = spec_u32_from_le_bytes(b.subrange(pos + 12, pos + 16)) as int;
    let vs = spec_u64_from_le_bytes(b.subrange(pos + 16, pos + 24)) as int;
    assert(b2.subrange(pos, pos + 4) =~= b.subrange(pos, pos + 4));
    assert(b2.subrange(pos + 4, pos + 12) =~= b.subrange(pos + 4, pos + 12));
    assert(b2.subrange(pos + 12, pos + 16) =~= b.subrange(pos + 12, pos + 16));
    assert(b2.subrange(pos + 16, pos + 24) =~= b.subrange(pos + 16, pos + 24));
    assert(b2[pos + 24] == b[pos + 24]);
    assert(b2.subrange(pos + 25, pos + 25 + ks) =~= b.subrange(pos + 25, pos + 25 + ks));
    assert(b2.subrange(pos + 25 + ks, pos + 25 + ks + vs) =~= b.subrange(
        pos + 25 + ks,
        pos + 25 + ks + vs,
    ));
}

/// Splitting a parse at a clean boundary: when the image parses cleanly
/// from `pos` to its end, appending more bytes leaves every old record in
/// place and parsing continues at the old end. A log is never reread
/// differently because something was appended after it.
pub proof fn lemma_parse_stream_extend(b: Seq<u8>, ext: Seq<u8>, pos: int)
    requires
        0 <= pos <= b.len(),
        parse_end(b, pos) == b.len(),
    ensures
        parse_stream(b + ext, pos) == parse_stream(b, pos) + parse_stream(
            b + ext,
            b.len() as int,
        ),
        parse_end(b + ext, pos) == parse_end(b + ext, b.len() as int),
    decreases b.len() - pos,
{
    match parse_record_at(b, pos) {
        Option::None => {
            assert(parse_end(b, pos) == pos);
            assert(parse_stream(b, pos) =~= Seq::<(int, RecordView)>::empty());
            assert(parse_stream(b + ext, pos) =~= Seq::<(int, RecordView)>::empty()
                + parse_stream(b + ext, pos));
        },
        Option::Some(r) => {
            lemma_parse_end_bounds(b, pos + r.size());
            lemma_parse_record_at_extend(b, ext, pos);
            lemma_parse_stream_extend(b, ext, pos + r.size());
            assert(parse_stream(b + ext, pos) == seq![(pos, r)] + parse_stream(
                b + ext,
                pos + r.size(),
            ));
            assert(seq![(pos, r)] + (parse_stream(b, pos + r.size()) + parse_stream(
                b + ext,
                b.len() as int,
            )) =~= (seq![(pos, r)] + parse_stream(b, pos + r.size())) + parse_stream(
                b + ext,
                b.len() as int,
            ));
        },
    }
}

/// Appending one complete, well-sized record to a cleanly-parsed log
/// recovers exactly the old records followed by the new one, and the log
/// stays cleanly parsed: what was written is what a restart reads back.
pub proof fn lemma_append_recovers(b: Seq<u8>, r: RecordView)
    requires
        parse_end(b, 0) == b.len(),
        r.sizes_ok(),
    ensures
        parse_stream(b + r.to_bytes(), 0) == parse_stream(b, 0).push(((b.len() as int), r)),
        parse_end(b + r.to_bytes(), 0) == b.len() + r.size(),
{
    let rb = r.to_bytes();
    let b2 = b + rb;
    lemma_auto_spec_u32_to_from_le_bytes();
    lemma_auto_spec_u64_to_from_le_bytes();
    assert(rb.len() == r.size());
    lemma_parse_end_bounds(b, 0);
    lemma_parse_stream_extend(b, rb, 0);
    assert(b2.subrange(b.len() as int, b.len() + r.size()) =~= rb);
    lemma_parse_record_at(b2, b.len() as int, r);
    assert(parse_record_at(b2, b.len() + r.size()) is None);
    assert(parse_stream(b2, b.len() + r.size()) =~= Seq::<(int, RecordView)>::empty());
    assert(parse_stream(b2, b.len() as int) == seq![((b.len() as int), r)] + parse_stream(
        b2,
        b.len() + r.size(),
    ));
    assert(parse_stream(b2, b.len() as int) =~= seq![((b.len() as int), r)]);
    assert(parse_stream(b, 0) + seq![((b.len() as int), r)] =~= parse_stream(b, 0).push(
        ((b.len() as int), r),
    ));
    assert(parse_end(b2, b.len() + r.size()) == b.len() + r.size());
    assert(parse_end(b2, b.len() as int) == b.len() + r.size());
}

/// A torn tail shorter than a record header is invisible to recovery:
/// parsing a cleanly-parsed log with such a tail appended yields exactly
/// the log's own records.
pub proof fn lemma_torn_tail_ignored(b: Seq<u8>, junk: Seq<u8>)
    requires
        parse_end(b, 0) == b.len(),
        junk.len() < 25,
    ensures
        parse_stream(b + junk, 0) == parse_stream(b, 0),
{
    lemma_parse_end_bounds(b, 0);
    lemma_parse_stream_extend(b, junk, 0);
    assert(parse_record_at(b + junk, b.len() as int) is None);
    assert(parse_stream(b + junk, b.len() as int) =~= Seq::<(int, RecordView)>::empty());
    assert(parse_stream(b, 0) + Seq::<(int, RecordView)>::empty() =~= parse_stream(b, 0));
}

/// Every item of a parsed stream is the record parsed at its own offset,
/// lies wholly within the image, and carries sizes that agree with its key
/// and value.
pub proof fn lemma_parse_stream_items(b: Seq<u8>, pos: int)
    requires
        0 <= pos <= b.len(),
    ensures
        forall|j: int|
            0 <= j < parse_stream(b, pos).len() ==> {
                let item = #[trigger] parse_stream(b, pos)[j];
                &&& pos <= item.0
                &&& item.0 + item.1.size() <= b.len()
                &&& parse_record_at(b, item.0) == Some(item.1)
                &&& item.1.sizes_ok()
            },
    decreases b.len() - pos,
{
    match parse_record_at(b, pos) {
        Option::None => {},
        Option::Some(r) => {
            lemma_parse_stream_items(b, pos + r.size());
            assert forall|j: int| 0 <= j < parse_stream(b, pos).len() implies {
                let item = #[trigger] parse_stream(b, pos)[j];
                &&& pos <= item.0
                &&& item.0 + item.1.size() <= b.len()
                &&& parse_record_at(b, item.0) == Some(item.1)
                &&& item.1.sizes_ok()
            } by {
                if j > 0 {
                    assert(parse_stream(b, pos)[j] == parse_stream(b, pos + r.size())[j - 1]);
                }
            }
        },
    }
}

/// A complete, well-sized record written at `pos` parses back to itself.
pub proof fn lemma_parse_record_at(b: Seq<u8>, pos: int, r: RecordView)
    requires
        r.sizes_ok(),
        0 <= pos,
        pos + r.size() <= b.len(),
        b.subrange(pos, pos + r.size()) == r.to_bytes(),
    ensures
        parse_record_at(b, pos) == Some(r),
{
    lemma_auto_spec_u32_to_from_le_bytes();
    lemma_auto_spec_u64_to_from_le_bytes();
    let rb = r.to_bytes();
    let sub = b.subrange(pos, pos + r.size());
    let ks = r.key.len() as int;
    let vs = r.value.len() as int;
    assert(rb.len() == r.size());
    assert(b.subrange(pos, pos + 4) =~= spec_u32_to_le_bytes(r.crc)) by {
        assert forall|i: int| 0 <= i < 4 implies b.subrange(pos, pos + 4)[i]
            == spec_u32_to_le_bytes(r.crc)[i] by {
            assert(sub[i] == b[pos + i]);
            assert(rb[i] == spec_u32_to_le_bytes(r.crc)[i]);
        }
    }
    assert(b.subrange(pos + 4, pos + 12) =~= spec_u64_to_le_bytes(r.timestamp)) by {
        assert forall|i: int| 0 <= i < 8 implies b.subrange(pos + 4, pos + 12)[i]
            == spec_u64_to_le_bytes(r.timestamp)[i] by {
            assert(sub[4 + i] == b[pos + 4 + i]);
            assert(rb[4 + i] == spec_u64_to_le_bytes(r.timestamp)[i]);
        }
    }
    assert(b.subrange(pos + 12, pos + 16) =~= spec_u32_to_le_bytes(r.key_size)) by {
        assert forall|i: int| 0 <= i < 4 implies b.subrange(pos + 12, pos + 16)[i]
            == spec_u32_to_le_bytes(r.key_size)[i] by {
            assert(sub[12 + i] == b[pos + 12 + i]);
            assert(rb[12 + i] == spec_u32_to_le_bytes(r.key_size)[i]);
        }
    }
    assert(b.subrange(pos + 16, pos + 24) =~= spec_u64_to_le_bytes(r.value_size)) by {
        assert forall|i: int| 0 <= i < 8 implies b.subrange(pos + 16, pos + 24)[i]
            == spec_u64_to_le_bytes(r.value_size)[i] by {
            assert(sub[16 + i] == b[pos + 16 + i]);
            assert(rb[16 + i] == spec_u64_to_le_bytes(r.value_size)[i]);
        }
    }
    assert(b[pos + 24] == op_byte(r.op)) by {
        assert(sub[24] == b[pos + 24]);
        assert(rb[24] == op_byte(r.op));
    }
    assert(op_of_byte(op_byte(r.op)) == r.op);
    assert(b.subrange(pos + 25, pos + 25 + ks) =~= r.key) by {
        assert forall|i: int| 0 <= i < ks implies b.subrange(pos + 25, pos + 25 + ks)[i]
            == r.key[i] by {
            assert(sub[25 + i] == b[pos + 25 + i]);
            assert(rb[25 + i] == r.key[i]);
        }
    }
    assert(b.subrange(pos + 25 + ks, pos + 25 + ks + vs) =~= r.value) by {
        assert forall|i: int| 0 <= i < vs implies b.subrange(pos + 25 + ks, pos + 25 + ks + vs)[i]
            == r.value[i] by {
            assert(sub[25 + ks + i] == b[pos + 25 + ks + i]);
            assert(rb[25 + ks + i] == r.value[i]);
        }
    }
}

/// One record held in memory, with its checksum field.
#[derive(Debug)]
pub struct Entry {
    pub crc: u32,
    pub timestamp: u64,
    pub key_size: u32,
    pub value_size: u64,
    pub op: Op,
    pub key: Vec<u8>,
    pub value: Vec<u8>,
}

impl View for Entry {
    type V = RecordView;

    open spec fn view(&self) -> RecordView {
        RecordView {
            crc: self.crc,
            timestamp: self.timestamp,
            key_size: self.key_size,
            value_size: self.value_size,
            op: self.op,
            key: self.key@,
            value: self.value@,
        }
    }
}

impl Entry {
    /// Builds an `Add` record for `key`/`value` expiring at `timestamp`
    /// (`0` for no expiry), with its checksum filled in.
    pub fn new(key: Vec<u8>, value: Vec<u8>, timestamp: u64) -> (e: Entry)
        requires
            key@.len() <= u32::MAX,
        ensures
            e@ == (RecordView {
                crc: crc32_of(e@.crc_payload()),
                timestamp,
                key_size: key@.len() as u32,
                value_size: value@.len() as u64,
                op: Op::Add,
                key: key@,
                value: value@,
            }),
            e@.wf(),
    {
        let key_size = key.len() as u32;
        let value_size = value.len() as u64;
        let mut entry = Entry {
            crc: 0,
            timestamp,
            key_size,
            value_size,
            op: Op::Add,
            key,
            value,
        };
        entry.refresh_crc();
        entry
    }

    /// The same record with a new expiry and a recomputed checksum.
    pub fn with_timestamp(self, ts: u64) -> (e: Entry)
        ensures
            e@ == (RecordView { timestamp: ts, crc: crc32_of(e@.crc_payload()), ..self@ }),
            self@.sizes_ok() ==> e@.wf(),
    {
        let mut e = self;
        e.timestamp = ts;
        e.refresh_crc();
        e
    }

    /// The same record marked as an update, with a recomputed checksum.
    pub fn set_updated(self) -> (e: Entry)
        ensures
            e@ == (RecordView { op: Op::Put, crc: crc32_of(e@.crc_payload()), ..self@ }),
            self@.sizes_ok() ==> e@.wf(),
    {
        let mut e = self;
        e.op = Op::Put;
        e.refresh_crc();
        e
    }

    /// The same record marked as a tombstone, with a recomputed checksum.
    pub fn set_removed(self) -> (e: Entry)
        ensures
            e@ == (RecordView { op: Op::Del, crc: crc32_of(e@.crc_payload()), ..self@ }),
            self@.sizes_ok() ==> e@.wf(),
    {
        let mut e = self;
        e.op = Op::Del;
        e.refresh_crc();
        e
    }

    /// Recomputes the stored checksum from the other fields.
    fn refresh_crc(&mut self)
        ensures
            *final(self) == (Entry { crc: final(self).crc, ..*old(self) }),
            final(self)@.crc_ok(),
    {
        let crc = self.calculate_crc();
        proof {
            assert(self@.crc_payload() == (RecordView { crc: crc, ..self@ }).crc_payload());
        }
        self.crc = crc;
    }

    /// The CRC-32 of every field after `crc`, in on-disk order.
    fn calculate_crc(&self) -> (r: u32)
        ensures
            r == crc32_of(self@.crc_payload()),
    {
        let mut payload: Vec<u8> = Vec::new();
        let ts_bytes = u64_to_le_bytes(self.timestamp);
        payload.extend_from_slice(ts_bytes.as_slice());
        let ks_bytes = u32_to_le_bytes(self.key_size);
        payload.extend_from_slice(ks_bytes.as_slice());
        let vs_bytes = u64_to_le_bytes(self.value_size);
        payload.extend_from_slice(vs_bytes.as_slice());
        payload.push(self.op.to_u8());
        payload.extend_from_slice(self.key.as_slice());
        payload.extend_from_slice(self.value.as_slice());
        proof {
            assert(payload@ == self@.crc_payload());
        }
        crc32(payload.as_slice())
    }

    /// Whether the stored checksum matches the record's own bytes.
    pub fn is_valid(&self) -> (r: bool)
        ensures
            r == self@.crc_ok(),
    {
        self.crc == self.calculate_crc()
    }

    /// Whether the record is past its expiry at `now_ms`.
    pub fn is_expired_at(&self, now_ms: u64) -> (r: bool)
        ensures
            r == self@.expired_at(now_ms),
    {
        self.timestamp != 0 && now_ms > self.timestamp
    }

    /// Whether the record is past its expiry at the wall clock's present
    /// reading. A record without an expiry is never expired.
    pub fn is_expired(&self) -> (r: bool)
        ensures
            self@.timestamp == 0 ==> !r,
            r ==> self@.timestamp != 0,
    {
        if self.timestamp == 0 {
            return false;
        }
        let now = current_milliseconds();
        now > self.timestamp
    }

    /// Whether the record is a tombstone.
    pub fn is_removed(&self) -> (r: bool)
        ensures
            r == (self@.op == Op::Del),
    {
        match self.op {
            Op::Del => true,
            _ => false,
        }
    }

    /// The fixed width of the record header.
    pub fn header_size(&self) -> (r: usize)
        ensures
            r == HEADER_SIZE,
    {
        HEADER_SIZE
    }

    /// The record's total on-disk width.
    pub fn size(&self) -> (r: usize)
        requires
            25 + self@.key.len() + self@.value.len() <= usize::MAX,
        ensures
            r == self@.size(),
    {
        HEADER_SIZE + self.key.len() + self.value.len()
    }

    /// The value bytes.
    pub fn get_value(&self) -> (r: &Vec<u8>)
        ensures
            r@ == self@.value,
    {
        &self.value
    }

    /// The record's full on-disk encoding.
    pub fn as_bytes(&self) -> (r: Vec<u8>)
        ensures
            r@ == self@.to_bytes(),
            r@.len() == self@.size(),
    {
        let mut result: Vec<u8> = Vec::new();
        let crc_bytes = u32_to_le_bytes(self.crc);
        result.extend_from_slice(crc_bytes.as_slice());
        let ts_bytes = u64_to_le_bytes(self.timestamp);
        result.extend_from_slice(ts_bytes.as_slice());
        let ks_bytes = u32_to_le_bytes(self.key_size);
        result.extend_from_slice(ks_bytes.as_slice());
        let vs_bytes = u64_to_le_bytes(self.value_size);
        result.extend_from_slice(vs_bytes.as_slice());
        result.push(self.op.to_u8());
        result.extend_from_slice(self.key.as_slice());
        result.extend_from_slice(self.value.as_slice());
        proof {
            assert(result@ == self@.to_bytes());
        }
        result
    }

    /// Decodes one record from the front of `bytes`. Trailing bytes are
    /// ignored. Fails if the header is truncated, the operation byte is
    /// meaningless, or the key and value are not present in full; the
    /// checksum is read, not verified.
    pub fn try_from_bytes(bytes: &Vec<u8>) -> (r: Result<Entry, &'static str>)
        ensures
            match r {
                Ok(e) => parse_record_at(bytes@, 0) == Some(e@),
                Err(_) => parse_record_at(bytes@, 0) is None,
            },
    {
        let data = bytes.as_slice();
        if data.len() < HEADER_SIZE {
            return Err("Input Vec<u8> is too short");
        }
        let crc = u32_from_le_bytes(slice_subrange(data, 0, 4));
        let timestamp = u64_from_le_bytes(slice_subrange(data, 4, 12));
        let key_size = u32_from_le_bytes(slice_subrange(data, 12, 16));
        let value_size = u64_from_le_bytes(slice_subrange(data, 16, 24));
        let opb = *slice_index_get(data, 24);
        let op = match Op::from_u8(opb) {
            Some(op) => op,
            None => {
                return Err("Invalid op data");
            },
        };
        let remaining = (data.len() - HEADER_SIZE) as u64;
        if key_size as u64 > remaining || value_size > remaining - key_size as u64 {
            return Err("Input Vec<u8> is too short for the key and value");
        }
        let ks = key_size as usize;
        let vs = value_size as usize;
        let key = slice_to_vec(slice_subrange(data, HEADER_SIZE, HEADER_SIZE + ks));
        let value = slice_to_vec(
            slice_subrange(data, HEADER_SIZE + ks, HEADER_SIZE + ks + vs),
        );
        Ok(Entry { crc, timestamp, key_size, value_size, op, key, value })
    }
}

/// One record recovered from a log image, with the offset it began at.
pub struct EntryParseResult {
    pub value_pos: u64,
    pub entry: Entry,
}

impl View for EntryParseResult {
    type V = (int, RecordView);

    open spec fn view(&self) -> (int, RecordView) {
        (self.value_pos as int, self.entry@)
    }
}

/// Decodes every complete record of a log image, in offset order, stopping
/// cleanly at the first truncated or meaningless tail.
pub fn parse_entries(data: &[u8]) -> (r: Vec<EntryParseResult>)
    ensures
        r@.map_values(|x: EntryParseResult| x@) == parse_stream(data@, 0),
{
    let mut results: Vec<EntryParseResult> = Vec::new();
    let mut pos: usize = 0;
    loop
        invariant
            pos <= data@.len(),
            parse_stream(data@, 0) == results@.map_values(|x: EntryParseResult| x@)
                + parse_stream(data@, pos as int),
        ensures
            parse_stream(data@, pos as int) == Seq::<(int, RecordView)>::empty(),
        decreases data@.len() - pos,
    {
        let ghost prefix = results@.map_values(|x: EntryParseResult| x@);
        if data.len() - pos < HEADER_SIZE {
            proof {
                assert(parse_stream(data@, pos as int) =~= Seq::empty());
            }
            break;
        }
        let crc = u32_from_le_bytes(slice_subrange(data, pos, pos + 4));
        let timestamp = u64_from_le_bytes(slice_subrange(data, pos + 4, pos + 12));
        let key_size = u32_from_le_bytes(slice_subrange(data, pos + 12, pos + 16));
        let value_size = u64_from_le_bytes(slice_subrange(data, pos + 16, pos + 24));
        let opb = *slice_index_get(data, pos + 24);
        let op = match Op::from_u8(opb) {
            Some(op) => op,
            None => {
                proof {
                    assert(parse_stream(data@, pos as int) =~= Seq::empty());
                }
                break;
            },
        };
        let remaining = (data.len() - pos - HEADER_SIZE) as u64;
        if key_size as u64 > remaining || value_size > remaining - key_size as u64 {
            proof {
                assert(parse_stream(data@, pos as int) =~= Seq::empty());
            }
            break;
        }
        let ks = key_size as usize;
        let vs = value_size as usize;
        let key = slice_to_vec(slice_subrange(data, pos + HEADER_SIZE, pos + HEADER_SIZE + ks));
        let value = slice_to_vec(
            slice_subrange(data, pos + HEADER_SIZE + ks, pos + HEADER_SIZE + ks + vs),
        );
        let entry = Entry { crc, timestamp, key_size, value_size, op, key, value };
        let item = EntryParseResult { value_pos: pos as u64, entry };
        let ghost rv = item.entry@;
        proof {
            assert(parse_record_at(data@, pos as int) == Some(rv));
            assert(parse_stream(data@, pos as int) == seq![(pos as int, rv)] + parse_stream(
                data@,
                pos as int + rv.size(),
            ));
        }
        results.push(item);
        proof {
            assert(results@.map_values(|x: EntryParseResult| x@) =~= prefix.push(
                (pos as int, rv),
            ));
            assert(prefix.push((pos as int, rv)) + parse_stream(data@, pos as int + rv.size())
                =~= prefix + parse_stream(data@, pos as int));
        }
        pos = pos + HEADER_SIZE + ks + vs;
    }
    proof {
        assert(results@.map_values(|x: EntryParseResult| x@) + Seq::<(int, RecordView)>::empty()
            =~= results@.map_values(|x: EntryParseResult| x@));
    }
    results
}

} // verus!
