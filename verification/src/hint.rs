//! The hint codec: one index entry for a compacted data file.
//!
//! A hint's on-disk layout, little-endian throughout:
//!
//! `timestamp` (8 B) | `key_size` (4 B) | `value_size` (8 B) |
//! `value_pos` (8 B) | key bytes
//!
//! The header is 28 bytes. `value_size` holds the *full record size* of the
//! paired record — header, key and value together — not the length of the
//! value; `value_pos` is the byte offset where that record starts in the
//! paired data file. Together they let recovery rebuild a directory entry
//! without scanning the data file.

use vstd::bytes::*;
use vstd::prelude::*;
use vstd::slice::*;

verus! {

/// Width of the fixed hint header in bytes.
pub const HINT_HEADER_SIZE: usize = 28;

/// The mathematical model of one hint.
pub ghost struct HintView {
    pub timestamp: u64,
    pub key_size: u32,
    pub value_size: u64,
    pub value_pos: u64,
    pub key: Seq<u8>,
}

impl HintView {
    /// The full on-disk encoding of the hint.
    pub open spec fn to_bytes(self) -> Seq<u8> {
        spec_u64_to_le_bytes(self.timestamp) + spec_u32_to_le_bytes(self.key_size)
            + spec_u64_to_le_bytes(self.value_size) + spec_u64_to_le_bytes(self.value_pos)
            + self.key
    }

    /// The hint's total on-disk width.
    pub open spec fn size(self) -> int {
        28 + self.key.len() as int
    }

    /// The size field agrees with the key actually held.
    pub open spec fn sizes_ok(self) -> bool {
        self.key_size == self.key.len()
    }
}

/// The hint starting at byte `pos` of `b`, if a complete one lies there.
pub open spec fn parse_hint_at(b: Seq<u8>, pos: int) -> Option<HintView> {
    if 0 <= pos && pos + 28 <= b.len() {
        let timestamp = spec_u64_from_le_bytes(b.subrange(pos, pos + 8));
        let key_size = spec_u32_from_le_bytes(b.subrange(pos + 8, pos + 12));
        let value_size = spec_u64_from_le_bytes(b.subrange(pos + 12, pos + 20));
        let value_pos = spec_u64_from_le_bytes(b.subrange(pos + 20, pos + 28));
        if pos + 28 + key_size <= b.len() {
            Some(
                HintView {
                    timestamp,
                    key_size,
                    value_size,
                    value_pos,
                    key: b.subrange(pos + 28, pos + 28 + key_size),
                },
            )
        } else {
            None
        }
    } else {
        None
    }
}

/// The hints laid end to end from byte `pos` of `b`. Parsing stops cleanly
/// at the first truncated tail.
pub open spec fn parse_hint_stream(b: Seq<u8>, pos: int) -> Seq<HintView>
    decreases b.len() - pos,
    when 0 <= pos <= b.len()
{
    match parse_hint_at(b, pos) {
        None => Seq::empty(),
        Some(h) => seq![h] + parse_hint_stream(b, pos + h.size()),
    }
}

/// The position where parsing stops when it walks the hints laid end to
/// end from byte `pos` of `b`. A hint image is cleanly parsed from `pos`
/// when this reaches `b.len()`.
pub open spec fn hint_parse_end(b: Seq<u8>, pos: int) -> int
    decreases b.len() - pos,
    when 0 <= pos <= b.len()
{
    match parse_hint_at(b, pos) {
        None => pos,
        Some(h) => hint_parse_end(b, pos + h.size()),
    }
}

/// Parsing never stops before where it started nor past the image's end.
pub proof fn lemma_hint_parse_end_bounds(b: Seq<u8>, pos: int)
    requires
        0 <= pos <= b.len(),
    ensures
        pos <= hint_parse_end(b, pos) <= b.len(),
    decreases b.len() - pos,
{
    match parse_hint_at(b, pos) {
        Option::None => {},
        Option::Some(h) => {
            lemma_hint_parse_end_bounds(b, pos + h.size());
        },
    }
}

/// Every hint of a parsed stream carries a size field that agrees with its
/// key.
pub proof fn lemma_parse_hint_stream_items(b: Seq<u8>, pos: int)
    requires
        0 <= pos <= b.len(),
    ensures
        forall|j: int|
            0 <= j < parse_hint_stream(b, pos).len() ==> (#[trigger] parse_hint_stream(
                b,
                pos,
            )[j]).sizes_ok(),
    decreases b.len() - pos,
{
    match parse_hint_at(b, pos) {
        Option::None => {},
        Option::Some(h) => {
            lemma_parse_hint_stream_items(b, pos + h.size());
            assert forall|j: int| 0 <= j < parse_hint_stream(b, pos).len() implies (
            #[trigger] parse_hint_stream(b, pos)[j]).sizes_ok() by {
                if j > 0 {
                    assert(parse_hint_stream(b, pos)[j] == parse_hint_stream(
                        b,
                        pos + h.size(),
                    )[j - 1]);
                }
            }
        },
    }
}

/// A hint that parses at `pos` still parses there, unchanged, after more
/// bytes are appended to the image.
pub proof fn lemma_parse_hint_at_extend(b: Seq<u8>, ext: Seq<u8>, pos: int)
    requires
        parse_hint_at(b, pos) is Some,
    ensures
        parse_hint_at(b + ext, pos) == parse_hint_at(b, pos),
{
    let b2 = b + ext;
    let ks = spec_u32_from_le_bytes(b.subrange(pos + 8, pos + 12)) as int;
    assert(b2.subrange(pos, pos + 8) =~= b.subrange(pos, pos + 8));
    assert(b2.subrange(pos + 8, pos + 12) =~= b.subrange(pos + 8, pos + 12));
    assert(b2.subrange(pos + 12, pos + 20) =~= b.subrange(pos + 12, pos + 20));
    assert(b2.subrange(pos + 20, pos + 28) =~= b.subrange(pos + 20, pos + 28));
    assert(b2.subrange(pos + 28, pos + 28 + ks) =~= b.subrange(pos + 28, pos + 28 + ks));
}

/// Splitting a hint parse at a clean boundary: appending bytes to a
/// cleanly-parsed hint image leaves every old hint in place and parsing
/// continues at the old end.
pub proof fn lemma_hint_stream_extend(b: Seq<u8>, ext: Seq<u8>, pos: int)
    requires
        0 <= pos <= b.len(),
        hint_parse_end(b, pos) == b.len(),
    ensures
        parse_hint_stream(b + ext, pos) == parse_hint_stream(b, pos) + parse_hint_stream(
            b + ext,
            b.len() as int,
        ),
        hint_parse_end(b + ext, pos) == hint_parse_end(b + ext, b.len() as int),
    decreases b.len() - pos,
{
    match parse_hint_at(b, pos) {
        Option::None => {
            assert(hint_parse_end(b, pos) == pos);
            assert(parse_hint_stream(b, pos) =~= Seq::<HintView>::empty());
            assert(parse_hint_stream(b + ext, pos) =~= Seq::<HintView>::empty()
                + parse_hint_stream(b + ext, pos));
        },
        Option::Some(h) => {
            lemma_hint_parse_end_bounds(b, pos + h.size());
            lemma_parse_hint_at_extend(b, ext, pos);
            lemma_hint_stream_extend(b, ext, pos + h.size());
            assert(parse_hint_stream(b + ext, pos) == seq![h] + parse_hint_stream(
                b + ext,
                pos + h.size(),
            ));
            assert(seq![h] + (parse_hint_stream(b, pos + h.size()) + parse_hint_stream(
                b + ext,
                b.len() as int,
            )) =~= (seq![h] + parse_hint_stream(b, pos + h.size())) + parse_hint_stream(
                b + ext,
                b.len() as int,
            ));
        },
    }
}

/// Appending one complete, well-sized hint to a cleanly-parsed hint image
/// recovers exactly the old hints followed by the new one, and the image
/// stays cleanly parsed.
pub proof fn lemma_hint_append_recovers(b: Seq<u8>, h: HintView)
    requires
        hint_parse_end(b, 0) == b.len(),
        h.sizes_ok(),
    ensures
        parse_hint_stream(b + h.to_bytes(), 0) == parse_hint_stream(b, 0).push(h),
        hint_parse_end(b + h.to_bytes(), 0) == b.len() + h.size(),
{
    let hb = h.to_bytes();
    let b2 = b + hb;
    lemma_auto_spec_u32_to_from_le_bytes();
    lemma_auto_spec_u64_to_from_le_bytes();
    assert(hb.len() == h.size());
    lemma_hint_parse_end_bounds(b, 0);
    lemma_hint_stream_extend(b, hb, 0);
    assert(b2.subrange(b.len() as int, b.len() + h.size()) =~= hb);
    lemma_parse_hint_at(b2, b.len() as int, h);
    assert(parse_hint_at(b2, b.len() + h.size()) is None);
    assert(parse_hint_stream(b2, b.len() + h.size()) =~= Seq::<HintView>::empty());
    assert(parse_hint_stream(b2, b.len() as int) == seq![h] + parse_hint_stream(
        b2,
        b.len() + h.size(),
    ));
    assert(parse_hint_stream(b2, b.len() as int) =~= seq![h]);
    assert(parse_hint_stream(b, 0) + seq![h] =~= parse_hint_stream(b, 0).push(h));
    assert(hint_parse_end(b2, b.len() + h.size()) == b.len() + h.size());
    assert(hint_parse_end(b2, b.len() as int) == b.len() + h.size());
}

/// A complete, well-sized hint written at `pos` parses back to itself.
pub proof fn lemma_parse_hint_at(b: Seq<u8>, pos: int, h: HintView)
    requires
        h.sizes_ok(),
        0 <= pos,
        pos + h.size() <= b.len(),
        b.subrange(pos, pos + h.size()) == h.to_bytes(),
    ensures
        parse_hint_at(b, pos) == Some(h),
{
    lemma_auto_spec_u32_to_from_le_bytes();
    lemma_auto_spec_u64_to_from_le_bytes();
    let hb = h.to_bytes();
    let sub = b.subrange(pos, pos + h.size());
    let ks = h.key.len() as int;
    assert(hb.len() == h.size());
    assert(b.subrange(pos, pos + 8) =~= spec_u64_to_le_bytes(h.timestamp)) by {
        assert forall|i: int| 0 <= i < 8 implies b.subrange(pos, pos + 8)[i]
            == spec_u64_to_le_bytes(h.timestamp)[i] by {
            assert(sub[i] == b[pos + i]);
            assert(hb[i] == spec_u64_to_le_bytes(h.timestamp)[i]);
        }
    }
    assert(b.subrange(pos + 8, pos + 12) =~= spec_u32_to_le_bytes(h.key_size)) by {
        assert forall|i: int| 0 <= i < 4 implies b.subrange(pos + 8, pos + 12)[i]
            == spec_u32_to_le_bytes(h.key_size)[i] by {
            assert(sub[8 + i] == b[pos + 8 + i]);
            assert(hb[8 + i] == spec_u32_to_le_bytes(h.key_size)[i]);
        }
    }
    assert(b.subrange(pos + 12, pos + 20) =~= spec_u64_to_le_bytes(h.value_size)) by {
        assert forall|i: int| 0 <= i < 8 implies b.subrange(pos + 12, pos + 20)[i]
            == spec_u64_to_le_bytes(h.value_size)[i] by {
            assert(sub[12 + i] == b[pos + 12 + i]);
            assert(hb[12 + i] == spec_u64_to_le_bytes(h.value_size)[i]);
        }
    }
    assert(b.subrange(pos + 20, pos + 28) =~= spec_u64_to_le_bytes(h.value_pos)) by {
        assert forall|i: int| 0 <= i < 8 implies b.subrange(pos + 20, pos + 28)[i]
            == spec_u64_to_le_bytes(h.value_pos)[i] by {
            assert(sub[20 + i] == b[pos + 20 + i]);
            assert(hb[20 + i] == spec_u64_to_le_bytes(h.value_pos)[i]);
        }
    }
    assert(b.subrange(pos + 28, pos + 28 + ks) =~= h.key) by {
        assert forall|i: int| 0 <= i < ks implies b.subrange(pos + 28, pos + 28 + ks)[i]
            == h.key[i] by {
            assert(sub[28 + i] == b[pos + 28 + i]);
            assert(hb[28 + i] == h.key[i]);
        }
    }
}

/// One index entry pointing at a record of a compacted data file.
#[derive(Debug)]
pub struct Hint {
    pub timestamp: u64,
    pub key_size: u32,
    pub value_size: u64,
    pub value_pos: u64,
    pub key: Vec<u8>,
}

impl View for Hint {
    type V = HintView;

    open spec fn view(&self) -> HintView {
        HintView {
            timestamp: self.timestamp,
            key_size: self.key_size,
            value_size: self.value_size,
            value_pos: self.value_pos,
            key: self.key@,
        }
    }
}

impl Hint {
    /// The hint's full on-disk encoding.
    pub fn as_bytes(&self) -> (r: Vec<u8>)
        ensures
            r@ == self@.to_bytes(),
            r@.len() == self@.size(),
    {
        let mut result: Vec<u8> = Vec::new();
        let ts_bytes = u64_to_le_bytes(self.timestamp);
        result.extend_from_slice(ts_bytes.as_slice());
        let ks_bytes = u32_to_le_bytes(self.key_size);
        result.extend_from_slice(ks_bytes.as_slice());
        let vs_bytes = u64_to_le_bytes(self.value_size);
        result.extend_from_slice(vs_bytes.as_slice());
        let vp_bytes = u64_to_le_bytes(self.value_pos);
        result.extend_from_slice(vp_bytes.as_slice());
        result.extend_from_slice(self.key.as_slice());
        proof {
            assert(result@ == self@.to_bytes());
        }
        result
    }
}

/// Decodes every complete hint of a hint-file image, in order, stopping
/// cleanly at the first truncated tail.
pub fn parse_hints(data: &[u8]) -> (r: Vec<Hint>)
    ensures
        r@.map_values(|x: Hint| x@) == parse_hint_stream(data@, 0),
{
    let mut results: Vec<Hint> = Vec::new();
    let mut pos: usize = 0;
    loop
        invariant
            pos <= data@.len(),
            parse_hint_stream(data@, 0) == results@.map_values(|x: Hint| x@) + parse_hint_stream(
                data@,
                pos as int,
            ),
        ensures
            parse_hint_stream(data@, pos as int) == Seq::<HintView>::empty(),
        decreases data@.len() - pos,
    {
        let ghost prefix = results@.map_values(|x: Hint| x@);
        if data.len() - pos < HINT_HEADER_SIZE {
            proof {
                assert(parse_hint_stream(data@, pos as int) =~= Seq::empty());
            }
            break;
        }
        let timestamp = u64_from_le_bytes(slice_subrange(data, pos, pos + 8));
        let key_size = u32_from_le_bytes(slice_subrange(data, pos + 8, pos + 12));
        let value_size = u64_from_le_bytes(slice_subrange(data, pos + 12, pos + 20));
        let value_pos = u64_from_le_bytes(slice_subrange(data, pos + 20, pos + 28));
        let remaining = (data.len() - pos - HINT_HEADER_SIZE) as u64;
        if key_size as u64 > remaining {
            proof {
                assert(parse_hint_stream(data@, pos as int) =~= Seq::empty());
            }
            break;
        }
        let ks = key_size as usize;
        let key = slice_to_vec(
            slice_subrange(data, pos + HINT_HEADER_SIZE, pos + HINT_HEADER_SIZE + ks),
        );
        let item = Hint { timestamp, key_size, value_size, value_pos, key };
        let ghost hv = item@;
        proof {
            assert(parse_hint_at(data@, pos as int) == Some(hv));
            assert(parse_hint_stream(data@, pos as int) == seq![hv] + parse_hint_stream(
                data@,
                pos as int + hv.size(),
            ));
        }
        results.push(item);
        proof {
            assert(results@.map_values(|x: Hint| x@) =~= prefix.push(hv));
            assert(prefix.push(hv) + parse_hint_stream(data@, pos as int + hv.size()) =~= prefix
                + parse_hint_stream(data@, pos as int));
        }
        pos = pos + HINT_HEADER_SIZE + ks;
    }
    proof {
        assert(results@.map_values(|x: Hint| x@) + Seq::<HintView>::empty() =~= results@.map_values(
            |x: Hint| x@,
        ));
    }
    results
}

} // verus!
