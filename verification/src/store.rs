//! The storage engine: an append-only active log, sealed data files, the
//! key directory, rotation, recovery and compaction.
//!
//! The engine works on in-memory images of the data directory's files. The
//! active file is a byte vector appended to by `set` and `delete`; sealed
//! files are immutable byte vectors addressed by positive ids; the directory
//! maps each live key to the location of its newest record. A host process
//! mirrors the images to durable storage after each mutation and hands them
//! back to `start` on open.
//!
//! What a key looks like through the engine is captured by [`KeyObs`]: the
//! key is absent from the directory, or its record is present and its
//! checksum holds, or the bytes behind the directory entry are damaged.
//! Every public operation is specified against that observation.

use vstd::prelude::*;

use crate::config::Config;
use crate::crc::crc32_of;
use crate::entry::{
    parse_entries, parse_record_at, parse_stream, Entry, EntryParseResult, Op, RecordView,
};
use crate::error::OpError;
use crate::hint::{hint_parse_end, parse_hint_stream, parse_hints, Hint, HintView};
use crate::keydir::{Keydir, Metadata, OpKeydir};
use crate::time::current_milliseconds;

verus! {

/// One sealed, read-only data file image, with its hint-file image when
/// compaction produced one.
pub struct SealedFile {
    /// The file's positive id; `data.<seq>` on disk.
    pub seq: u16,
    /// The data file's bytes.
    pub data: Vec<u8>,
    /// The paired hint file's bytes, present only for compacted files.
    pub hint: Option<Vec<u8>>,
}

/// The index of the sealed file with id `id`, or `-1` if there is none.
pub open spec fn sealed_index_of(s: Seq<SealedFile>, id: u16) -> int
    decreases s.len(),
{
    if s.len() == 0 {
        -1
    } else if s.last().seq == id {
        s.len() - 1
    } else {
        sealed_index_of(s.drop_last(), id)
    }
}

/// What `sealed_index_of` finds: a valid index bearing `id` exactly when
/// some element bears `id`.
pub proof fn lemma_sealed_index_of(s: Seq<SealedFile>, id: u16)
    ensures
        sealed_index_of(s, id) == -1 ==> forall|i: int| 0 <= i < s.len() ==> s[i].seq != id,
        sealed_index_of(s, id) != -1 ==> 0 <= sealed_index_of(s, id) < s.len() && s[sealed_index_of(
            s,
            id,
        )].seq == id,
        (exists|i: int| 0 <= i < s.len() && s[i].seq == id) ==> sealed_index_of(s, id) != -1,
    decreases s.len(),
{
    if s.len() == 0 {
    } else if s.last().seq == id {
    } else {
        lemma_sealed_index_of(s.drop_last(), id);
        if sealed_index_of(s, id) == -1 {
            assert forall|i: int| 0 <= i < s.len() implies s[i].seq != id by {
                if i < s.len() - 1 {
                    assert(s.drop_last()[i].seq != id);
                }
            }
        }
        if exists|i: int| 0 <= i < s.len() && s[i].seq == id {
            let i = choose|i: int| 0 <= i < s.len() && s[i].seq == id;
            assert(i < s.len() - 1);
            assert(s.drop_last()[i].seq == id);
        }
    }
}

/// The record the engine would build for `set(key, value, timestamp)`.
pub open spec fn add_record(k: Seq<u8>, v: Seq<u8>, ts: u64) -> RecordView {
    let r0 = RecordView {
        crc: 0,
        timestamp: ts,
        key_size: k.len() as u32,
        value_size: v.len() as u64,
        op: Op::Add,
        key: k,
        value: v,
    };
    RecordView { crc: crc32_of(r0.crc_payload()), ..r0 }
}

/// The tombstone the engine would build for `delete(key)`.
pub open spec fn del_record(k: Seq<u8>) -> RecordView {
    let r0 = RecordView {
        crc: 0,
        timestamp: 0,
        key_size: k.len() as u32,
        value_size: 0,
        op: Op::Del,
        key: k,
        value: Seq::empty(),
    };
    RecordView { crc: crc32_of(r0.crc_payload()), ..r0 }
}

/// The directory after replaying a parsed record stream from file
/// `file_id` over `m`: a later record for a key wins; an expired record or
/// a tombstone removes the key.
pub open spec fn stream_replay(
    m: Map<Seq<u8>, Metadata>,
    file_id: u16,
    items: Seq<(int, RecordView)>,
    now: u64,
) -> Map<Seq<u8>, Metadata>
    decreases items.len(),
{
    if items.len() == 0 {
        m
    } else {
        let prev = stream_replay(m, file_id, items.drop_last(), now);
        let pos = items.last().0;
        let r = items.last().1;
        if r.expired_at(now) || r.op == Op::Del {
            prev.remove(r.key)
        } else {
            prev.insert(
                r.key,
                Metadata {
                    file_id,
                    value_sz: r.size() as u64,
                    value_pos: pos as u64,
                    tstamp: r.timestamp,
                },
            )
        }
    }
}

/// The directory after scanning one data-file image.
pub open spec fn file_replay(
    m: Map<Seq<u8>, Metadata>,
    file_id: u16,
    data: Seq<u8>,
    now: u64,
) -> Map<Seq<u8>, Metadata> {
    stream_replay(m, file_id, parse_stream(data, 0), now)
}

/// The directory after ingesting one hint stream: every hint inserts its
/// key, pointing into file `file_id`.
pub open spec fn hint_replay(
    m: Map<Seq<u8>, Metadata>,
    file_id: u16,
    hints: Seq<HintView>,
) -> Map<Seq<u8>, Metadata>
    decreases hints.len(),
{
    if hints.len() == 0 {
        m
    } else {
        hint_replay(m, file_id, hints.drop_last()).insert(
            hints.last().key,
            Metadata {
                file_id,
                value_sz: hints.last().value_size,
                value_pos: hints.last().value_pos,
                tstamp: hints.last().timestamp,
            },
        )
    }
}

/// The directory after working through the sealed files in order: a file
/// with a hint image is ingested from its hints without a scan; one
/// without is scanned.
pub open spec fn sealed_replay(
    m: Map<Seq<u8>, Metadata>,
    files: Seq<SealedFile>,
    now: u64,
) -> Map<Seq<u8>, Metadata>
    decreases files.len(),
{
    if files.len() == 0 {
        m
    } else {
        let prev = sealed_replay(m, files.drop_last(), now);
        let f = files.last();
        match f.hint {
            Option::Some(h) => hint_replay(prev, f.seq, parse_hint_stream(h@, 0)),
            Option::None => file_replay(prev, f.seq, f.data@, now),
        }
    }
}

/// The directory recovery rebuilds from a set of file images when the wall
/// clock reads `now`: the sealed files in ascending id order, then the
/// active file.
pub open spec fn recovery_map(files: Seq<SealedFile>, active: Seq<u8>, now: u64) -> Map<
    Seq<u8>,
    Metadata,
> {
    file_replay(sealed_replay(Map::empty(), files, now), 0, active, now)
}

/// What a key looks like through the engine.
pub ghost enum KeyObs {
    /// The directory has no entry for the key.
    Absent,
    /// The directory entry resolves to this record, whose checksum holds.
    Present(RecordView),
    /// The directory entry cannot be used: the bytes it points at are out of
    /// bounds, do not decode, or fail their checksum.
    Damaged,
}

/// The storage engine.
pub struct Store {
    /// The engine's configuration.
    pub config: Config,
    /// The active file's bytes.
    pub active: Vec<u8>,
    /// The sealed files, in ascending id order.
    pub sealed: Vec<SealedFile>,
    /// The key directory.
    pub keydir: Keydir,
    /// Rotations since the last compaction signal.
    pub merge_count: usize,
    /// Whether a compaction signal is waiting to be taken by the host.
    pub merge_pending: bool,
    /// Appends since open; drives the periodic-flush setting.
    pub update_count: u64,
}

impl Store {
    /// There is a file with id `id`: the active file (`0`) or a sealed one.
    pub open spec fn has_file(&self, id: u16) -> bool {
        id == 0 || sealed_index_of(self.sealed@, id) != -1
    }

    /// The bytes of file `id`; meaningful only when `has_file(id)`.
    pub open spec fn file_data(&self, id: u16) -> Seq<u8> {
        if id == 0 {
            self.active@
        } else {
            self.sealed@[sealed_index_of(self.sealed@, id)].data@
        }
    }

    /// The directory entry's byte range lies within its file.
    pub open spec fn meta_in_bounds(&self, m: Metadata) -> bool {
        self.has_file(m.file_id) && m.value_pos + m.value_sz <= self.file_data(m.file_id).len()
    }

    /// The bytes a directory entry points at.
    pub open spec fn slice_of(&self, m: Metadata) -> Seq<u8> {
        self.file_data(m.file_id).subrange(
            m.value_pos as int,
            m.value_pos as int + m.value_sz as int,
        )
    }

    /// What `key` looks like through the engine.
    pub open spec fn obs(&self, k: Seq<u8>) -> KeyObs {
        if !self.keydir.model().contains_key(k) {
            KeyObs::Absent
        } else {
            let m = self.keydir.model()[k];
            if !self.meta_in_bounds(m) {
                KeyObs::Damaged
            } else {
                match parse_record_at(self.slice_of(m), 0) {
                    Option::None => KeyObs::Damaged,
                    Option::Some(r) => if r.crc_ok() {
                        KeyObs::Present(r)
                    } else {
                        KeyObs::Damaged
                    },
                }
            }
        }
    }

    /// The engine's well-formedness: the directory is sound, sealed ids are
    /// positive and strictly ascending, every directory entry names a file
    /// the engine holds, and every entry into the active file lies within
    /// it (entries into a sealed file may be out of bounds — a hint file is
    /// taken at its word on open, and the damage surfaces at `get`; the
    /// active file's entries, though, are only ever written by the engine
    /// itself or recovered from a scan, and appends must not disturb them).
    pub open spec fn wf(&self) -> bool {
        &&& self.keydir.inv()
        &&& forall|i: int, j: int|
            0 <= i < j < self.sealed@.len() ==> self.sealed@[i].seq < self.sealed@[j].seq
        &&& forall|i: int| 0 <= i < self.sealed@.len() ==> (#[trigger] self.sealed@[i].seq) >= 1
        &&& forall|k: Seq<u8>|
            #[trigger] self.keydir.model().contains_key(k) ==> self.has_file(
                self.keydir.model()[k].file_id,
            ) && (self.keydir.model()[k].file_id == 0 ==> self.keydir.model()[k].value_pos
                + self.keydir.model()[k].value_sz <= self.active@.len())
    }

    /// A further sealed file id is available for rotation.
    pub open spec fn next_seq_ok(&self) -> bool {
        self.sealed@.len() == 0 || self.sealed@.last().seq < u16::MAX
    }

    /// The id the next sealed file would get: one past the largest in use.
    pub open spec fn spec_next_seq(&self) -> u16 {
        if self.sealed@.len() == 0 {
            1u16
        } else {
            (self.sealed@.last().seq + 1) as u16
        }
    }

    /// What `get` returns for `key` when the wall clock reads `now`.
    pub open spec fn spec_get(&self, k: Seq<u8>, now: u64) -> Result<Seq<u8>, OpError> {
        match self.obs(k) {
            KeyObs::Absent => Err(OpError::KeyNotFound),
            KeyObs::Damaged => Err(OpError::ValueInvalid),
            KeyObs::Present(r) => if r.expired_at(now) || r.op == Op::Del {
                Err(OpError::ValueInvalid)
            } else {
                Ok(r.value)
            },
        }
    }

    /// What `get_entry` returns for `key`; the wall clock plays no part.
    pub open spec fn spec_get_entry(&self, k: Seq<u8>) -> Result<RecordView, OpError> {
        match self.obs(k) {
            KeyObs::Absent => Err(OpError::KeyNotFound),
            KeyObs::Damaged => Err(OpError::ValueInvalid),
            KeyObs::Present(r) => Ok(r),
        }
    }

    /// A fresh engine over an empty `keydir`: an empty active file and no
    /// sealed files. `start` then rebuilds the directory from file images.
    pub fn new(keydir: Keydir, conf: Config) -> (s: Store)
        requires
            keydir.inv(),
            keydir.model() == Map::<Seq<u8>, Metadata>::empty(),
        ensures
            s.wf(),
            s.keydir.model() == keydir.model(),
            s.active@ == Seq::<u8>::empty(),
            s.sealed@ == Seq::<SealedFile>::empty(),
            s.config == conf,
            !s.merge_pending,
    {
        Store {
            config: conf,
            active: Vec::new(),
            sealed: Vec::new(),
            keydir,
            merge_count: 0,
            merge_pending: false,
            update_count: 0,
        }
    }

    /// Rebuilds the directory from file images as recovery would when the
    /// wall clock reads `now_ms`: sealed files in ascending id order — a
    /// file with a hint image is ingested from its hints, one without is
    /// scanned record by record — then the active file is scanned. A
    /// truncated tail on any image is ignored from its first incomplete
    /// record on.
    pub fn start_at(&mut self, files: Vec<SealedFile>, active_data: Vec<u8>, now_ms: u64)
        requires
            old(self).wf(),
            old(self).keydir.model() == Map::<Seq<u8>, Metadata>::empty(),
            old(self).sealed@.len() == 0,
            old(self).active@.len() == 0,
            forall|i: int, j: int| 0 <= i < j < files@.len() ==> files@[i].seq < files@[j].seq,
            forall|i: int| 0 <= i < files@.len() ==> (#[trigger] files@[i].seq) >= 1,
        ensures
            final(self).wf(),
            final(self).sealed@ == files@,
            final(self).active@ == active_data@,
            final(self).keydir.model() == recovery_map(files@, active_data@, now_ms),
            final(self).config == old(self).config,
            final(self).merge_count == old(self).merge_count,
            final(self).merge_pending == old(self).merge_pending,
    {
        let mut i: usize = 0;
        while i < files.len()
            invariant
                i <= files@.len(),
                self.keydir.inv(),
                self.keydir.model() == sealed_replay(
                    Map::<Seq<u8>, Metadata>::empty(),
                    files@.subrange(0, i as int),
                    now_ms,
                ),
                forall|k: Seq<u8>|
                    #[trigger] self.keydir.model().contains_key(k) ==> exists|j: int|
                        0 <= j < i && self.keydir.model()[k].file_id == files@[j].seq,
                self.sealed@ == old(self).sealed@,
                self.active@ == old(self).active@,
                self.config == old(self).config,
                self.merge_count == old(self).merge_count,
                self.merge_pending == old(self).merge_pending,
                self.update_count == old(self).update_count,
            decreases files@.len() - i,
        {
            let ghost m_start = self.keydir.model();
            let seq = files[i].seq;
            let has_hint = match &files[i].hint {
                Some(_) => true,
                None => false,
            };
            if has_hint {
                let hints = match &files[i].hint {
                    Some(h) => parse_hints(h.as_slice()),
                    None => {
                        proof {
                            assert(false);
                        }
                        Vec::new()
                    },
                };
                let ghost hs = hints@.map_values(|x: Hint| x@);
                let mut j: usize = 0;
                while j < hints.len()
                    invariant
                        j <= hints@.len(),
                        hs == hints@.map_values(|x: Hint| x@),
                        self.keydir.inv(),
                        self.keydir.model() == hint_replay(m_start, seq, hs.subrange(0, j as int)),
                        forall|k: Seq<u8>|
                            #[trigger] self.keydir.model().contains_key(k) ==> (
                            m_start.contains_key(k) && self.keydir.model()[k] == m_start[k])
                                || self.keydir.model()[k].file_id == seq,
                        self.sealed@ == old(self).sealed@,
                        self.active@ == old(self).active@,
                        self.config == old(self).config,
                        self.merge_count == old(self).merge_count,
                        self.merge_pending == old(self).merge_pending,
                        self.update_count == old(self).update_count,
                    decreases hints@.len() - j,
                {
                    let ghost pre = hs.subrange(0, j as int);
                    let metadata = Metadata {
                        file_id: seq,
                        value_sz: hints[j].value_size,
                        value_pos: hints[j].value_pos,
                        tstamp: hints[j].timestamp,
                    };
                    self.keydir.set(&hints[j].key, metadata);
                    proof {
                        let cur = hs.subrange(0, j + 1 as int);
                        assert(cur.drop_last() =~= pre);
                        assert(cur.last() == hs[j as int]);
                    }
                    j = j + 1;
                }
                proof {
                    assert(hs.subrange(0, hs.len() as int) =~= hs);
                }
            } else {
                let entries = match &files[i].hint {
                    Some(_) => {
                        proof {
                            assert(false);
                        }
                        Vec::new()
                    },
                    None => parse_entries(files[i].data.as_slice()),
                };
                let data_len = files[i].data.len();
                let ghost items = entries@.map_values(|x: EntryParseResult| x@);
                proof {
                    assert(files@[i as int].data@.len() == data_len);
                    crate::entry::lemma_parse_stream_items(files@[i as int].data@, 0);
                }
                let mut j: usize = 0;
                while j < entries.len()
                    invariant
                        j <= entries@.len(),
                        items == entries@.map_values(|x: EntryParseResult| x@),
                        items == parse_stream(files@[i as int].data@, 0),
                        i < files@.len(),
                        files@[i as int].data@.len() <= usize::MAX,
                        forall|jj: int|
                            0 <= jj < items.len() ==> {
                                let item = #[trigger] items[jj];
                                &&& 0 <= item.0
                                &&& item.0 + item.1.size() <= files@[i as int].data@.len()
                                &&& item.1.sizes_ok()
                            },
                        self.keydir.inv(),
                        self.keydir.model() == stream_replay(
                            m_start,
                            seq,
                            items.subrange(0, j as int),
                            now_ms,
                        ),
                        forall|k: Seq<u8>|
                            #[trigger] self.keydir.model().contains_key(k) ==> (
                            m_start.contains_key(k) && self.keydir.model()[k] == m_start[k])
                                || self.keydir.model()[k].file_id == seq,
                        self.sealed@ == old(self).sealed@,
                        self.active@ == old(self).active@,
                        self.config == old(self).config,
                        self.merge_count == old(self).merge_count,
                        self.merge_pending == old(self).merge_pending,
                        self.update_count == old(self).update_count,
                    decreases entries@.len() - j,
                {
                    let ghost pre = items.subrange(0, j as int);
                    proof {
                        assert(items[j as int] == entries@[j as int]@);
                    }
                    if entries[j].entry.is_expired_at(now_ms) || entries[j].entry.is_removed() {
                        self.keydir.remove(&entries[j].entry.key);
                    } else {
                        let sz = entries[j].entry.size();
                        let metadata = Metadata {
                            file_id: seq,
                            value_sz: sz as u64,
                            value_pos: entries[j].value_pos,
                            tstamp: entries[j].entry.timestamp,
                        };
                        self.keydir.set(&entries[j].entry.key, metadata);
                    }
                    proof {
                        let cur = items.subrange(0, j + 1 as int);
                        assert(cur.drop_last() =~= pre);
                        assert(cur.last() == items[j as int]);
                    }
                    j = j + 1;
                }
                proof {
                    assert(items.subrange(0, items.len() as int) =~= items);
                }
            }
            proof {
                let cur_files = files@.subrange(0, i + 1 as int);
                assert(cur_files.drop_last() =~= files@.subrange(0, i as int));
                assert(cur_files.last() == files@[i as int]);
            }
            i = i + 1;
        }
        proof {
            assert(files@.subrange(0, files@.len() as int) =~= files@);
        }
        self.sealed = files;
        let ghost m_sealed = self.keydir.model();
        let entries = parse_entries(active_data.as_slice());
        let active_len = active_data.len();
        let ghost items = entries@.map_values(|x: EntryParseResult| x@);
        proof {
            assert(active_data@.len() == active_len);
            crate::entry::lemma_parse_stream_items(active_data@, 0);
        }
        let mut j: usize = 0;
        while j < entries.len()
            invariant
                j <= entries@.len(),
                items == entries@.map_values(|x: EntryParseResult| x@),
                items == parse_stream(active_data@, 0),
                active_data@.len() <= usize::MAX,
                forall|jj: int|
                    0 <= jj < items.len() ==> {
                        let item = #[trigger] items[jj];
                        &&& 0 <= item.0
                        &&& item.0 + item.1.size() <= active_data@.len()
                        &&& item.1.sizes_ok()
                    },
                self.keydir.inv(),
                self.keydir.model() == stream_replay(
                    m_sealed,
                    0,
                    items.subrange(0, j as int),
                    now_ms,
                ),
                forall|k: Seq<u8>|
                    #[trigger] self.keydir.model().contains_key(k) ==> (m_sealed.contains_key(k)
                        && self.keydir.model()[k] == m_sealed[k]) || (self.keydir.model()[k].file_id
                        == 0 && self.keydir.model()[k].value_pos + self.keydir.model()[k].value_sz
                        <= active_data@.len()),
                forall|k: Seq<u8>|
                    #[trigger] m_sealed.contains_key(k) ==> exists|jj: int|
                        0 <= jj < files@.len() && m_sealed[k].file_id == files@[jj].seq,
                self.sealed@ == files@,
                self.active@ == old(self).active@,
                self.config == old(self).config,
                self.merge_count == old(self).merge_count,
                self.merge_pending == old(self).merge_pending,
                self.update_count == old(self).update_count,
            decreases entries@.len() - j,
        {
            let ghost pre = items.subrange(0, j as int);
            proof {
                assert(items[j as int] == entries@[j as int]@);
            }
            if entries[j].entry.is_expired_at(now_ms) || entries[j].entry.is_removed() {
                self.keydir.remove(&entries[j].entry.key);
            } else {
                let sz = entries[j].entry.size();
                let metadata = Metadata {
                    file_id: 0,
                    value_sz: sz as u64,
                    value_pos: entries[j].value_pos,
                    tstamp: entries[j].entry.timestamp,
                };
                self.keydir.set(&entries[j].entry.key, metadata);
            }
            proof {
                let cur = items.subrange(0, j + 1 as int);
                assert(cur.drop_last() =~= pre);
                assert(cur.last() == items[j as int]);
            }
            j = j + 1;
        }
        self.active = active_data;
        proof {
            assert(items.subrange(0, items.len() as int) =~= items);
            let post = *self;
            assert forall|k: Seq<u8>| #[trigger] post.keydir.model().contains_key(k)
                implies post.has_file(post.keydir.model()[k].file_id) && (
            post.keydir.model()[k].file_id == 0 ==> post.keydir.model()[k].value_pos
                + post.keydir.model()[k].value_sz <= post.active@.len()) by {
                let m = post.keydir.model()[k];
                if m.file_id != 0 {
                    let jj = choose|jj: int|
                        0 <= jj < files@.len() && m.file_id == files@[jj].seq;
                    assert(post.sealed@[jj].seq == m.file_id);
                    lemma_sealed_index_of(post.sealed@, m.file_id);
                }
            }
        }
    }

    /// Recovery against the wall clock's present reading: rebuilds the
    /// directory from the given file images as `start_at` does, judging
    /// expiry by one clock reading taken at the start.
    pub fn start(&mut self, files: Vec<SealedFile>, active_data: Vec<u8>)
        requires
            old(self).wf(),
            old(self).keydir.model() == Map::<Seq<u8>, Metadata>::empty(),
            old(self).sealed@.len() == 0,
            old(self).active@.len() == 0,
            forall|i: int, j: int| 0 <= i < j < files@.len() ==> files@[i].seq < files@[j].seq,
            forall|i: int| 0 <= i < files@.len() ==> (#[trigger] files@[i].seq) >= 1,
        ensures
            final(self).wf(),
            final(self).sealed@ == files@,
            final(self).active@ == active_data@,
            exists|now: u64|
                final(self).keydir.model() == recovery_map(files@, active_data@, now),
            final(self).config == old(self).config,
    {
        let now = current_milliseconds();
        self.start_at(files, active_data, now);
    }

    /// The active file's present size in bytes.
    pub fn get_filesize(&self) -> (r: usize)
        ensures
            r == self.active@.len(),
    {
        self.active.len()
    }

    /// The index of the sealed file with id `seq`, if the engine holds one.
    fn find_sealed(&self, seq: u16) -> (r: Option<usize>)
        ensures
            match r {
                Some(i) => i < self.sealed@.len() && self.sealed@[i as int].seq == seq,
                None => forall|i: int| 0 <= i < self.sealed@.len() ==> self.sealed@[i].seq != seq,
            },
    {
        let mut i: usize = 0;
        while i < self.sealed.len()
            invariant
                i <= self.sealed@.len(),
                forall|j: int| 0 <= j < i ==> self.sealed@[j].seq != seq,
            decreases self.sealed@.len() - i,
        {
            if self.sealed[i].seq == seq {
                return Some(i);
            }
            i = i + 1;
        }
        None
    }

    /// What `get` answers for `key` when the wall clock reads `now_ms`:
    /// the value of the key's record, `KeyNotFound` when the directory has
    /// no entry, `ValueInvalid` when the record is damaged, expired at
    /// `now_ms`, or a tombstone.
    pub fn get_at(&self, key: &Vec<u8>, now_ms: u64) -> (res: Result<Vec<u8>, OpError>)
        requires
            self.wf(),
        ensures
            match res {
                Ok(v) => self.spec_get(key@, now_ms) == Ok::<Seq<u8>, OpError>(v@),
                Err(e) => self.spec_get(key@, now_ms) == Err::<Seq<u8>, OpError>(e),
            },
    {
        let m = match self.keydir.get(key) {
            Ok(m) => m,
            Err(_) => {
                return Err(OpError::KeyNotFound);
            },
        };
        let buf = match self.read_located(m) {
            Ok(buf) => buf,
            Err(_) => {
                return Err(OpError::ValueInvalid);
            },
        };
        let entry = match Entry::try_from_bytes(&buf) {
            Ok(entry) => entry,
            Err(_) => {
                return Err(OpError::ValueInvalid);
            },
        };
        if !entry.is_valid() || entry.is_expired_at(now_ms) || entry.is_removed() {
            Err(OpError::ValueInvalid)
        } else {
            Ok(entry.value)
        }
    }

    /// `get` against the wall clock's present reading. Whatever the clock
    /// reads, an absent key answers `KeyNotFound`, a damaged record or a
    /// tombstone answers `ValueInvalid`, and a record without an expiry
    /// answers its value; only a record with an expiry depends on the clock.
    pub fn get(&self, key: &Vec<u8>) -> (res: Result<Vec<u8>, OpError>)
        requires
            self.wf(),
        ensures
            self.obs(key@) is Absent ==> res == Err::<Vec<u8>, OpError>(OpError::KeyNotFound),
            self.obs(key@) is Damaged ==> res == Err::<Vec<u8>, OpError>(OpError::ValueInvalid),
            match self.obs(key@) {
                KeyObs::Present(r) => if r.op == Op::Del {
                    res == Err::<Vec<u8>, OpError>(OpError::ValueInvalid)
                } else if r.timestamp == 0 {
                    res matches Ok(v) && v@ == r.value
                } else {
                    (res matches Ok(v) && v@ == r.value) || res == Err::<Vec<u8>, OpError>(
                        OpError::ValueInvalid,
                    )
                },
                _ => true,
            },
    {
        let now = current_milliseconds();
        self.get_at(key, now)
    }

    /// What `get_entry` answers for `key`: the full record — expired or not
    /// — provided its checksum holds, `KeyNotFound` when the directory has
    /// no entry, `ValueInvalid` when the record is damaged.
    pub fn get_entry(&self, key: &Vec<u8>) -> (res: Result<Entry, OpError>)
        requires
            self.wf(),
        ensures
            match res {
                Ok(e) => self.spec_get_entry(key@) == Ok::<RecordView, OpError>(e@),
                Err(e) => self.spec_get_entry(key@) == Err::<RecordView, OpError>(e),
            },
    {
        let m = match self.keydir.get(key) {
            Ok(m) => m,
            Err(_) => {
                return Err(OpError::KeyNotFound);
            },
        };
        let buf = match self.read_located(m) {
            Ok(buf) => buf,
            Err(_) => {
                return Err(OpError::ValueInvalid);
            },
        };
        let entry = match Entry::try_from_bytes(&buf) {
            Ok(entry) => entry,
            Err(_) => {
                return Err(OpError::ValueInvalid);
            },
        };
        if entry.is_valid() {
            Ok(entry)
        } else {
            Err(OpError::ValueInvalid)
        }
    }

    /// Reads the bytes a directory entry points at, from the engine's file
    /// images. A range that leaves its file answers `ReadSizeNotMatch`.
    fn read_located(&self, m: Metadata) -> (res: Result<Vec<u8>, OpError>)
        requires
            self.wf(),
            self.has_file(m.file_id),
        ensures
            self.meta_in_bounds(m) ==> (res matches Ok(b) && b@ == self.slice_of(m)),
            !self.meta_in_bounds(m) ==> res == Err::<Vec<u8>, OpError>(OpError::ReadSizeNotMatch),
    {
        proof {
            lemma_sealed_index_of(self.sealed@, m.file_id);
        }
        if m.file_id == 0 {
            read_file_at(&self.active, m.value_pos, m.value_sz)
        } else {
            let i = match self.find_sealed(m.file_id) {
                Some(i) => i,
                None => {
                    proof {
                        assert(false);
                    }
                    0
                },
            };
            proof {
                let idx = sealed_index_of(self.sealed@, m.file_id);
                assert(self.sealed@[idx].seq == m.file_id);
                assert(idx == i);
            }
            read_file_at(&self.sealed[i].data, m.value_pos, m.value_sz)
        }
    }

    /// How many keys the directory holds.
    pub fn len(&self) -> (r: usize)
        requires
            self.wf(),
        ensures
            r == self.keydir.model().dom().len(),
    {
        self.keydir.len()
    }

    /// A point-in-time copy of every key the directory holds.
    pub fn keys(&self) -> (r: Vec<Vec<u8>>)
        requires
            self.wf(),
        ensures
            r@.map_values(|k: Vec<u8>| k@).no_duplicates(),
            forall|i: int|
                0 <= i < r@.len() ==> self.keydir.model().contains_key(#[trigger] r@[i]@),
            forall|k: Seq<u8>|
                self.keydir.model().contains_key(k) ==> exists|i: int|
                    0 <= i < r@.len() && r@[i]@ == k,
            r@.len() == self.keydir.model().dom().len(),
    {
        self.keydir.keys()
    }

    /// Appending `rec_size` more bytes would push the active file past the
    /// rotation threshold.
    pub open spec fn spec_rotates(&self, rec_size: int) -> bool {
        self.active@.len() + rec_size > self.config.file_max_size
    }

    /// Seals the active file under the next id, rewrites every directory
    /// entry that named the active file to name the new id, and starts a
    /// fresh, empty active file. What every key observes is untouched.
    fn archive_file(&mut self)
        requires
            old(self).wf(),
            old(self).next_seq_ok(),
        ensures
            final(self).wf(),
            final(self).sealed@.len() == old(self).sealed@.len() + 1,
            forall|i: int|
                0 <= i < old(self).sealed@.len() ==> final(self).sealed@[i] == old(self).sealed@[i],
            final(self).sealed@.last().seq == old(self).spec_next_seq(),
            final(self).sealed@.last().data@ == old(self).active@,
            final(self).sealed@.last().hint is None,
            final(self).active@ == Seq::<u8>::empty(),
            forall|k: Seq<u8>| final(self).obs(k) == old(self).obs(k),
            final(self).keydir.model().dom() == old(self).keydir.model().dom(),
            forall|k: Seq<u8>|
                #[trigger] final(self).keydir.model().contains_key(k) ==> final(self).keydir.model()[k].file_id != 0,
            final(self).config == old(self).config,
            final(self).merge_count == old(self).merge_count,
            final(self).merge_pending == old(self).merge_pending,
            final(self).update_count == old(self).update_count,
    {
        let next: u16 = if self.sealed.len() == 0 {
            1
        } else {
            self.sealed[self.sealed.len() - 1].seq + 1
        };
        let ghost pre = *self;
        let data = vstd::slice::slice_to_vec(self.active.as_slice());
        self.active.clear();
        self.sealed.push(SealedFile { seq: next, data, hint: None });
        self.keydir.update_key(next);
        proof {
            let post = *self;
            let s_old = pre.sealed@;
            let s_new = post.sealed@;
            assert(s_new.last().seq == next);
            assert(forall|i: int| 0 <= i < s_old.len() ==> s_new[i] == s_old[i]);
            assert forall|i: int, j: int| 0 <= i < j < s_new.len() implies s_new[i].seq
                < s_new[j].seq by {
                if j == s_new.len() - 1 && s_old.len() > 0 && i < s_old.len() - 1 {
                    assert(s_old[i].seq < s_old[s_old.len() - 1].seq);
                }
            }
            assert(sealed_index_of(s_new, next) == s_new.len() - 1);
            assert forall|id: u16| id != next implies sealed_index_of(s_new, id)
                == sealed_index_of(s_old, id) by {
                assert(s_new.drop_last() =~= s_old);
            }
            let m_old = pre.keydir.model();
            let m_new = post.keydir.model();
            assert(m_new.dom() =~= m_old.dom());
            assert forall|k: Seq<u8>| #[trigger] m_new.contains_key(k) implies post.has_file(
                m_new[k].file_id,
            ) && m_new[k].file_id != 0 && (m_new[k].file_id == 0 ==> m_new[k].value_pos
                + m_new[k].value_sz <= post.active@.len()) by {
                let mo = m_old[k];
                if mo.file_id == 0 {
                    assert(m_new[k] == (Metadata { file_id: next, ..mo }));
                } else {
                    assert(m_new[k] == mo);
                    lemma_sealed_index_of(s_old, mo.file_id);
                    assert(pre.sealed@[sealed_index_of(s_old, mo.file_id)].seq >= 1);
                }
            }
            assert forall|k: Seq<u8>| true implies post.obs(k) == pre.obs(k) by {
                if m_old.contains_key(k) {
                    let mo = m_old[k];
                    let mn = m_new[k];
                    if mo.file_id == 0 {
                        assert(mn == (Metadata { file_id: next, ..mo }));
                        assert(post.file_data(next) == pre.active@);
                        assert(pre.meta_in_bounds(mo));
                        assert(post.meta_in_bounds(mn));
                        assert(post.slice_of(mn) == pre.slice_of(mo));
                    } else {
                        assert(mn == mo);
                        lemma_sealed_index_of(s_old, mo.file_id);
                        assert(post.file_data(mo.file_id) == pre.file_data(mo.file_id));
                        if pre.meta_in_bounds(mo) {
                            assert(post.slice_of(mn) == pre.slice_of(mo));
                        }
                    }
                }
            }
        }
    }

    /// Writes an `Add` record for `key`/`value` expiring at `timestamp`
    /// (`0` for no expiry). If the record would push the active file past
    /// the rotation threshold, the active file is sealed first and the
    /// record opens a fresh one; every `merge_file_num`-th rotation leaves
    /// a compaction signal for the host. Afterwards the key observes
    /// exactly the record written, and no other key observes any change.
    pub fn set(&mut self, key: &Vec<u8>, value: &Vec<u8>, timestamp: u64)
        requires
            old(self).wf(),
            old(self).next_seq_ok(),
            key@.len() <= u32::MAX,
            25 + key@.len() + value@.len() <= usize::MAX,
        ensures
            final(self).wf(),
            final(self).obs(key@) == KeyObs::Present(add_record(key@, value@, timestamp)),
            forall|k2: Seq<u8>| k2 != key@ ==> final(self).obs(k2) == old(self).obs(k2),
            final(self).keydir.model().dom() == old(self).keydir.model().dom().insert(key@),
            final(self).config == old(self).config,
            !old(self).spec_rotates(25 + key@.len() + value@.len() as int) ==> {
                &&& final(self).sealed@ == old(self).sealed@
                &&& final(self).active@ == old(self).active@ + add_record(
                    key@,
                    value@,
                    timestamp,
                ).to_bytes()
                &&& final(self).merge_count == old(self).merge_count
                &&& final(self).merge_pending == old(self).merge_pending
            },
            old(self).spec_rotates(25 + key@.len() + value@.len() as int) ==> {
                &&& final(self).sealed@.len() == old(self).sealed@.len() + 1
                &&& forall|i: int|
                    0 <= i < old(self).sealed@.len() ==> final(self).sealed@[i] == old(self).sealed@[i]
                &&& final(self).sealed@.last().seq == old(self).spec_next_seq()
                &&& final(self).sealed@.last().data@ == old(self).active@
                &&& final(self).sealed@.last().hint is None
                &&& final(self).active@ == add_record(key@, value@, timestamp).to_bytes()
                &&& ({
                    let bumped: int = if old(self).merge_count == usize::MAX {
                        usize::MAX as int
                    } else {
                        old(self).merge_count + 1
                    };
                    &&& final(self).merge_count == (if bumped
                        >= old(self).config.merge_file_num {
                        0int
                    } else {
                        bumped
                    })
                    &&& final(self).merge_pending == (old(self).merge_pending || bumped >= old(self).config.merge_file_num)
                })
            },
    {
        let entry = Entry::new(key.clone(), value.clone(), timestamp);
        let size = entry.size();
        let max = self.config.file_max_size();
        let rotate = size > max || self.active.len() > max - size;
        if rotate {
            self.archive_file();
            self.merge_count = self.merge_count.saturating_add(1);
            if self.merge_count >= self.config.get_merge_file_num() {
                self.merge_count = 0;
                self.merge_pending = true;
            }
        }
        let ghost mid = *self;
        let pos = self.active.len() as u64;
        let bytes = entry.as_bytes();
        self.active.extend_from_slice(bytes.as_slice());
        self.update_count = self.update_count.saturating_add(1);
        let metadata = Metadata {
            file_id: 0,
            value_sz: size as u64,
            value_pos: pos,
            tstamp: timestamp,
        };
        self.keydir.set(key, metadata);
        proof {
            let rv = add_record(key@, value@, timestamp);
            assert(entry@.crc_payload() =~= rv.crc_payload());
            assert(entry@ == rv);
            let post = *self;
            assert(post.active@.subrange(0, mid.active@.len() as int) =~= mid.active@);
            assert(post.keydir.model().dom() =~= old(self).keydir.model().dom().insert(key@));
            assert forall|k: Seq<u8>| #[trigger] post.keydir.model().contains_key(k)
                implies post.has_file(post.keydir.model()[k].file_id) && (
            post.keydir.model()[k].file_id == 0 ==> post.keydir.model()[k].value_pos
                + post.keydir.model()[k].value_sz <= post.active@.len()) by {
                if k != key@ {
                    assert(post.keydir.model()[k] == mid.keydir.model()[k]);
                }
            }
            assert(post.obs(key@) == KeyObs::Present(rv)) by {
                let m = post.keydir.model()[key@];
                assert(post.meta_in_bounds(m));
                assert(post.slice_of(m) =~= rv.to_bytes());
                assert(post.slice_of(m).subrange(0, rv.size()) =~= post.slice_of(m));
                crate::entry::lemma_parse_record_at(post.slice_of(m), 0, rv);
            }
            assert forall|k2: Seq<u8>| k2 != key@ implies post.obs(k2) == old(self).obs(k2) by {
                lemma_obs_frame(mid, post, key@, k2);
            }
        }
    }

    /// Appends a tombstone for `key` (even when the key is absent) and
    /// drops the key's directory entry. Afterwards the key observes
    /// nothing, and no other key observes any change. Deletion never
    /// rotates the active file.
    pub fn delete(&mut self, key: &Vec<u8>)
        requires
            old(self).wf(),
            key@.len() <= u32::MAX,
            25 + key@.len() <= usize::MAX,
        ensures
            final(self).wf(),
            final(self).obs(key@) == KeyObs::Absent,
            forall|k2: Seq<u8>| k2 != key@ ==> final(self).obs(k2) == old(self).obs(k2),
            final(self).keydir.model() == old(self).keydir.model().remove(key@),
            final(self).active@ == old(self).active@ + del_record(key@).to_bytes(),
            final(self).sealed@ == old(self).sealed@,
            final(self).config == old(self).config,
            final(self).merge_count == old(self).merge_count,
            final(self).merge_pending == old(self).merge_pending,
    {
        let value: Vec<u8> = Vec::new();
        let entry = Entry::new(key.clone(), value, 0).set_removed();
        let ghost mid = *self;
        let bytes = entry.as_bytes();
        self.active.extend_from_slice(bytes.as_slice());
        self.keydir.remove(key);
        proof {
            let rv = del_record(key@);
            assert(entry@.crc_payload() =~= rv.crc_payload());
            assert(entry@ == rv);
            assert(self.active@ == old(self).active@ + rv.to_bytes());
            let post = *self;
            assert(post.active@.subrange(0, mid.active@.len() as int) =~= mid.active@);
            assert forall|k: Seq<u8>| #[trigger] post.keydir.model().contains_key(k)
                implies post.has_file(post.keydir.model()[k].file_id) && (
            post.keydir.model()[k].file_id == 0 ==> post.keydir.model()[k].value_pos
                + post.keydir.model()[k].value_sz <= post.active@.len()) by {
                assert(post.keydir.model()[k] == mid.keydir.model()[k]);
            }
            assert forall|k2: Seq<u8>| k2 != key@ implies post.obs(k2) == old(self).obs(k2) by {
                lemma_obs_frame(mid, post, key@, k2);
            }
        }
    }

    /// Every directory entry that points into a sealed file lies within
    /// that file, so compaction can read every record it must carry over.
    pub open spec fn can_compact(&self) -> bool {
        forall|k: Seq<u8>|
            #[trigger] self.keydir.model().contains_key(k) ==> (self.keydir.model()[k].file_id > 0
                ==> self.meta_in_bounds(self.keydir.model()[k]) && k.len() <= u32::MAX)
    }

    /// Some directory entry points into a sealed file, so compaction has
    /// work to do.
    pub open spec fn has_sealed_keys(&self) -> bool {
        exists|k: Seq<u8>|
            #[trigger] self.keydir.model().contains_key(k) && self.keydir.model()[k].file_id > 0
    }

    /// The shape compaction leaves behind when it installs: the sealed
    /// files are exactly `data.1 .. data.M`, each with a hint image, and
    /// every directory entry points into the active file or one of them.
    pub open spec fn compact_installed(&self) -> bool {
        &&& self.sealed@.len() >= 1
        &&& forall|i: int|
            0 <= i < self.sealed@.len() ==> (#[trigger] self.sealed@[i].seq) == i + 1
        &&& forall|i: int|
            0 <= i < self.sealed@.len() ==> (#[trigger] self.sealed@[i].hint) is Some
        &&& forall|k: Seq<u8>|
            #[trigger] self.keydir.model().contains_key(k) ==> self.keydir.model()[k].file_id
                <= self.sealed@.len()
    }

    /// Every sealed file carries a hint image, every hint agrees with the
    /// directory — its key is bound into that file exactly where the hint
    /// says — and every key bound into a sealed file is hinted. This is
    /// the shape compaction's install leaves behind.
    pub open spec fn hints_exact(&self) -> bool {
        &&& forall|i: int|
            0 <= i < self.sealed@.len() ==> (#[trigger] self.sealed@[i].hint) is Some
        &&& forall|i: int, j: int|
            0 <= i < self.sealed@.len() && 0 <= j < parse_hint_stream(
                self.sealed@[i].hint->Some_0@,
                0,
            ).len() ==> {
                let h = #[trigger] parse_hint_stream(self.sealed@[i].hint->Some_0@, 0)[j];
                &&& self.keydir.model().contains_key(h.key)
                &&& self.keydir.model()[h.key] == (Metadata {
                    file_id: self.sealed@[i].seq,
                    value_sz: h.value_size,
                    value_pos: h.value_pos,
                    tstamp: h.timestamp,
                })
            }
        &&& forall|k: Seq<u8>|
            #[trigger] self.keydir.model().contains_key(k) && self.keydir.model()[k].file_id > 0
                ==> exists|i: int, j: int|
                0 <= i < self.sealed@.len() && 0 <= j < parse_hint_stream(
                    self.sealed@[i].hint->Some_0@,
                    0,
                ).len() && (#[trigger] parse_hint_stream(self.sealed@[i].hint->Some_0@, 0)[j]).key
                    == k
    }

    /// What the build pass hands to the install pass: merge files numbered
    /// `1 .. M` with hint images, and staged directory entries whose bytes
    /// sit in those files exactly where the old files held them.
    pub open spec fn build_post(
        &self,
        files: Seq<SealedFile>,
        staged: Seq<(Vec<u8>, Metadata)>,
    ) -> bool {
        &&& forall|i: int| 0 <= i < files.len() ==> (#[trigger] files[i].seq) == i + 1
        &&& forall|i: int| 0 <= i < files.len() ==> (#[trigger] files[i].hint) is Some
        &&& forall|s1: int, s2: int|
            0 <= s1 < s2 < staged.len() ==> staged[s1].0@ != staged[s2].0@
        &&& forall|si: int|
            0 <= si < staged.len() ==> {
                let k = (#[trigger] staged[si]).0@;
                let m2 = staged[si].1;
                &&& self.keydir.model().contains_key(k)
                &&& self.keydir.model()[k].file_id > 0
                &&& k.len() <= u32::MAX
                &&& m2.value_sz == self.keydir.model()[k].value_sz
                &&& m2.tstamp == self.keydir.model()[k].tstamp
                &&& 1 <= m2.file_id <= files.len()
                &&& m2.value_pos + m2.value_sz <= files[m2.file_id - 1].data@.len()
                &&& files[m2.file_id - 1].data@.subrange(
                    m2.value_pos as int,
                    m2.value_pos as int + m2.value_sz as int,
                ) == self.slice_of(self.keydir.model()[k])
            }
        &&& forall|k: Seq<u8>|
            #[trigger] self.keydir.model().contains_key(k) && self.keydir.model()[k].file_id > 0
                ==> exists|si: int| 0 <= si < staged.len() && staged[si].0@ == k
        &&& staged.len() > 0 ==> files.len() >= 1
    }

    /// The hints compaction owes file `fid`: one per staged entry bound
    /// into it, in staging order.
    pub open spec fn hints_for(staged: Seq<(Vec<u8>, Metadata)>, fid: u16) -> Seq<HintView>
        decreases staged.len(),
    {
        if staged.len() == 0 {
            Seq::empty()
        } else {
            let p = Self::hints_for(staged.drop_last(), fid);
            if staged.last().1.file_id == fid {
                p.push(hint_of(staged.last().0@, staged.last().1))
            } else {
                p
            }
        }
    }

    /// Each owed hint is some staged entry's, bound into `fid`.
    pub proof fn lemma_hints_for_items(staged: Seq<(Vec<u8>, Metadata)>, fid: u16)
        ensures
            forall|t: int|
                0 <= t < Self::hints_for(staged, fid).len() ==> exists|si: int|
                    0 <= si < staged.len() && staged[si].1.file_id == fid && (
                    #[trigger] Self::hints_for(staged, fid)[t]) == hint_of(
                        staged[si].0@,
                        staged[si].1,
                    ),
        decreases staged.len(),
    {
        if staged.len() == 0 {
        } else {
            let prefix = staged.drop_last();
            Self::lemma_hints_for_items(prefix, fid);
            assert forall|t: int| 0 <= t < Self::hints_for(staged, fid).len() implies exists|
                si: int,
            | 0 <= si < staged.len() && staged[si].1.file_id == fid && (
            #[trigger] Self::hints_for(staged, fid)[t]) == hint_of(
                staged[si].0@,
                staged[si].1,
            ) by {
                if t < Self::hints_for(prefix, fid).len() {
                    assert(Self::hints_for(staged, fid)[t] == Self::hints_for(prefix, fid)[t]);
                    let si = choose|si: int|
                        0 <= si < prefix.len() && prefix[si].1.file_id == fid && (
                        #[trigger] Self::hints_for(prefix, fid)[t]) == hint_of(
                            prefix[si].0@,
                            prefix[si].1,
                        );
                    assert(staged[si].1.file_id == fid && Self::hints_for(staged, fid)[t]
                        == hint_of(staged[si].0@, staged[si].1));
                } else {
                    let si = staged.len() - 1;
                    assert(staged[si].1.file_id == fid && Self::hints_for(staged, fid)[t]
                        == hint_of(staged[si].0@, staged[si].1));
                }
            }
        }
    }

    /// Each staged entry bound into `fid` is owed a hint there, bearing its
    /// key.
    pub proof fn lemma_hints_for_cover(staged: Seq<(Vec<u8>, Metadata)>, fid: u16)
        ensures
            forall|si: int|
                0 <= si < staged.len() && (#[trigger] staged[si]).1.file_id == fid ==> exists|
                    t: int,
                |
                    0 <= t < Self::hints_for(staged, fid).len() && (#[trigger] Self::hints_for(
                        staged,
                        fid,
                    )[t]).key == staged[si].0@,
        decreases staged.len(),
    {
        if staged.len() == 0 {
        } else {
            let prefix = staged.drop_last();
            Self::lemma_hints_for_cover(prefix, fid);
            assert forall|si: int| 0 <= si < staged.len() && (#[trigger] staged[si]).1.file_id
                == fid implies exists|t: int|
                0 <= t < Self::hints_for(staged, fid).len() && (#[trigger] Self::hints_for(
                    staged,
                    fid,
                )[t]).key == staged[si].0@ by {
                if si == staged.len() - 1 {
                    let t = Self::hints_for(staged, fid).len() - 1;
                    assert(Self::hints_for(staged, fid)[t].key == staged[si].0@);
                } else {
                    assert(prefix[si].1.file_id == fid);
                    let t = choose|t: int|
                        0 <= t < Self::hints_for(prefix, fid).len() && (
                        #[trigger] Self::hints_for(prefix, fid)[t]).key == prefix[si].0@;
                    assert(Self::hints_for(staged, fid)[t].key == staged[si].0@);
                }
            }
        }
    }

    /// Builds the hint image compaction owes file `fid`: one hint per
    /// staged entry bound into it, in order.
    fn build_hint_image(staged: &Vec<(Vec<u8>, Metadata)>, fid: u16) -> (h: Vec<u8>)
        requires
            forall|si: int|
                0 <= si < staged@.len() ==> (#[trigger] staged@[si]).0@.len() <= u32::MAX,
        ensures
            parse_hint_stream(h@, 0) == Self::hints_for(staged@, fid),
    {
        let mut image: Vec<u8> = Vec::new();
        proof {
            assert(parse_hint_stream(image@, 0) =~= Seq::<HintView>::empty());
            assert(hint_parse_end(image@, 0) == 0);
            assert(Self::hints_for(staged@.subrange(0, 0), fid) =~= Seq::<HintView>::empty());
        }
        let mut si: usize = 0;
        while si < staged.len()
            invariant
                si <= staged@.len(),
                forall|s2: int|
                    0 <= s2 < staged@.len() ==> (#[trigger] staged@[s2]).0@.len() <= u32::MAX,
                parse_hint_stream(image@, 0) == Self::hints_for(
                    staged@.subrange(0, si as int),
                    fid,
                ),
                hint_parse_end(image@, 0) == image@.len(),
            decreases staged@.len() - si,
        {
            let ghost pre = staged@.subrange(0, si as int);
            if staged[si].1.file_id == fid {
                let m2 = staged[si].1;
                let ht = Hint {
                    timestamp: m2.tstamp,
                    key_size: #[verifier::truncate] (staged[si].0.len() as u32),
                    value_size: m2.value_sz,
                    value_pos: m2.value_pos,
                    key: staged[si].0.clone(),
                };
                let hb = ht.as_bytes();
                let ghost before = image@;
                image.extend_from_slice(hb.as_slice());
                proof {
                    let hv = ht@;
                    assert(hv.sizes_ok());
                    assert(hv == hint_of(staged@[si as int].0@, m2));
                    assert(image@ == before + hv.to_bytes());
                    crate::hint::lemma_hint_append_recovers(before, hv);
                }
            }
            proof {
                let cur = staged@.subrange(0, si + 1 as int);
                assert(cur.drop_last() =~= pre);
                assert(cur.last() == staged@[si as int]);
            }
            si = si + 1;
        }
        proof {
            assert(staged@.subrange(0, staged@.len() as int) =~= staged@);
        }
        image
    }

    /// The build pass of compaction: reads every record a sealed directory
    /// entry points at and lays the records into fresh merge files, cutting
    /// a new file whenever the current one would pass the rotation
    /// threshold, with a hint appended per record. Answers `None` — and
    /// changes nothing — when some sealed entry cannot be read whole.
    #[verifier::rlimit(100)]
    #[verifier::spinoff_prover]
    fn build_merge(&self) -> (r: Option<(Vec<SealedFile>, Vec<(Vec<u8>, Metadata)>)>)
        requires
            self.wf(),
        ensures
            self.can_compact() && self.keydir.model().dom().len() + 1 < u16::MAX ==> r is Some,
            r is Some ==> self.can_compact(),
            r matches Some(p) ==> self.build_post(p.0@, p.1@),
    {
        let pairs = self.keydir.iter();
        proof {
            let es = self.keydir.entry_seq();
            assert forall|i: int| 0 <= i < pairs@.len() implies es[i] == (
                (#[trigger] pairs@[i]).0@,
                pairs@[i].1,
            ) by {
                assert(pairs@.map_values(|p: (Vec<u8>, Metadata)| (p.0@, p.1))[i] == (
                    pairs@[i].0@,
                    pairs@[i].1,
                ));
            }
            assert forall|k: Seq<u8>| self.keydir.model().contains_key(k) implies exists|i: int|
                0 <= i < pairs@.len() && (#[trigger] pairs@[i]).0@ == k by {
                let i = choose|i: int| 0 <= i < es.len() && #[trigger] es[i].0 == k;
                assert(pairs@[i].0@ == k);
            }
            assert forall|i: int| 0 <= i < pairs@.len() implies self.keydir.model().contains_key(
                (#[trigger] pairs@[i]).0@,
            ) && self.keydir.model()[pairs@[i].0@] == pairs@[i].1 by {
                assert(es[i].0 == pairs@[i].0@ && es[i].1 == pairs@[i].1);
                assert(self.keydir.model().contains_key(es[i].0) && self.keydir.model()[es[i].0]
                    == es[i].1);
            }
            assert forall|i: int, i2: int| 0 <= i < i2 < pairs@.len() implies (
            #[trigger] pairs@[i]).0@ != (#[trigger] pairs@[i2]).0@ by {
                assert(es[i].0 == pairs@[i].0@ && es[i2].0 == pairs@[i2].0@);
                assert(es[i].0 != es[i2].0);
            }
        }
        let max = self.config.file_max_size();
        let mut files: Vec<SealedFile> = Vec::new();
        let mut cur_data: Vec<u8> = Vec::new();
        let mut cur_hint: Vec<u8> = Vec::new();
        let mut merge_seq: u16 = 1;
        let mut staged: Vec<(Vec<u8>, Metadata)> = Vec::new();
        let ghost model = self.keydir.model();
        let ghost ps = pairs@;
        let mut j: usize = 0;
        while j < pairs.len()
            invariant
                self.wf(),
                ps == pairs@,
                ps.len() == model.dom().len(),
                model == self.keydir.model(),
                max == self.config.file_max_size,
                forall|i: int, i2: int| 0 <= i < i2 < ps.len() ==> ps[i].0@ != ps[i2].0@,
                forall|i: int|
                    0 <= i < ps.len() ==> model.contains_key(#[trigger] ps[i].0@)
                        && model[ps[i].0@] == ps[i].1,
                forall|k: Seq<u8>|
                    model.contains_key(k) ==> exists|i: int|
                        0 <= i < ps.len() && #[trigger] ps[i].0@ == k,
                j <= ps.len(),
                1 <= merge_seq,
                merge_seq <= j + 1,
                files@.len() == merge_seq - 1,
                forall|i: int| 0 <= i < files@.len() ==> (#[trigger] files@[i].seq) == i + 1,
                forall|i: int| 0 <= i < files@.len() ==> (#[trigger] files@[i].hint) is Some,
                forall|s1: int, s2: int|
                    0 <= s1 < s2 < staged@.len() ==> staged@[s1].0@ != staged@[s2].0@,
                forall|si: int|
                    0 <= si < staged@.len() ==> exists|i: int|
                        0 <= i < j && (#[trigger] staged@[si]).0@ == ps[i].0@,
                forall|si: int|
                    0 <= si < staged@.len() ==> {
                        let k = (#[trigger] staged@[si]).0@;
                        let m2 = staged@[si].1;
                        &&& model.contains_key(k)
                        &&& model[k].file_id > 0
                        &&& k.len() <= u32::MAX
                        &&& m2.value_sz == model[k].value_sz
                        &&& m2.tstamp == model[k].tstamp
                        &&& 1 <= m2.file_id <= merge_seq
                        &&& (m2.file_id < merge_seq ==> m2.value_pos + m2.value_sz <= files@[
                            m2.file_id - 1].data@.len() && files@[m2.file_id - 1].data@.subrange(
                            m2.value_pos as int,
                            m2.value_pos as int + m2.value_sz as int,
                        ) == self.slice_of(model[k]))
                        &&& (m2.file_id == merge_seq ==> m2.value_pos + m2.value_sz
                            <= cur_data@.len() && cur_data@.subrange(
                            m2.value_pos as int,
                            m2.value_pos as int + m2.value_sz as int,
                        ) == self.slice_of(model[k]))
                    },
                forall|i: int|
                    0 <= i < j && ps[i].1.file_id > 0 ==> exists|si: int|
                        0 <= si < staged@.len() && staged@[si].0@ == (#[trigger] ps[i]).0@,
                forall|i: int|
                    0 <= i < j ==> ((#[trigger] ps[i]).1.file_id > 0 ==> self.meta_in_bounds(
                        ps[i].1,
                    ) && ps[i].0@.len() <= u32::MAX),
            decreases ps.len() - j,
        {
            let ghost staged_top = staged@;
            let m = pairs[j].1;
            if m.file_id > 0 {
                proof {
                    assert(model.contains_key(ps[j as int].0@));
                    assert(m == model[ps[j as int].0@]);
                }
                if pairs[j].0.len() as u64 > u32::MAX as u64 {
                    return None;
                }
                let chunk = match self.read_located(m) {
                    Ok(c) => c,
                    Err(_) => {
                        proof {
                            assert(!self.meta_in_bounds(m));
                        }
                        return None;
                    },
                };
                if cur_data.len() as u128 + chunk.len() as u128 > max as u128 {
                    if merge_seq == u16::MAX {
                        proof {
                            assert(merge_seq <= ps.len() + 1);
                            assert(ps.len() == self.keydir.model().dom().len());
                        }
                        return None;
                    }
                    files.push(SealedFile { seq: merge_seq, data: cur_data, hint: Some(cur_hint) });
                    cur_data = Vec::new();
                    cur_hint = Vec::new();
                    merge_seq = merge_seq + 1;
                    proof {
                        assert forall|si: int| 0 <= si < staged@.len() implies {
                            let m2 = (#[trigger] staged@[si]).1;
                            m2.file_id < merge_seq
                        } by {}
                    }
                }
                let pos = cur_data.len() as u64;
                let ghost data_before = cur_data@;
                cur_data.extend_from_slice(chunk.as_slice());
                let ht = Hint {
                    timestamp: m.tstamp,
                    key_size: #[verifier::truncate] (pairs[j].0.len() as u32),
                    value_size: m.value_sz,
                    value_pos: pos,
                    key: pairs[j].0.clone(),
                };
                let hb = ht.as_bytes();
                cur_hint.extend_from_slice(hb.as_slice());
                let m2 = Metadata {
                    file_id: merge_seq,
                    value_sz: m.value_sz,
                    value_pos: pos,
                    tstamp: m.tstamp,
                };
                staged.push((pairs[j].0.clone(), m2));
                proof {
                    assert(model[ps[j as int].0@] == m);
                    assert(self.meta_in_bounds(m));
                    assert(cur_data@.subrange(pos as int, pos as int + m.value_sz as int)
                        =~= self.slice_of(m));
                    assert forall|si: int| 0 <= si < staged@.len() - 1 implies {
                        let m3 = (#[trigger] staged@[si]).1;
                        m3.file_id == merge_seq ==> m3.value_pos + m3.value_sz
                            <= cur_data@.len() && cur_data@.subrange(
                            m3.value_pos as int,
                            m3.value_pos as int + m3.value_sz as int,
                        ) == self.slice_of(model[staged@[si].0@])
                    } by {
                        let m3 = staged@[si].1;
                        if m3.file_id == merge_seq {
                            assert(data_before.subrange(
                                m3.value_pos as int,
                                m3.value_pos as int + m3.value_sz as int,
                            ) == self.slice_of(model[staged@[si].0@]));
                            assert(cur_data@.subrange(
                                m3.value_pos as int,
                                m3.value_pos as int + m3.value_sz as int,
                            ) =~= data_before.subrange(
                                m3.value_pos as int,
                                m3.value_pos as int + m3.value_sz as int,
                            ));
                        }
                    }
                    assert forall|i: int| 0 <= i < j + 1 && ps[i].1.file_id > 0 implies exists|
                        si: int,
                    | 0 <= si < staged@.len() && staged@[si].0@ == (#[trigger] ps[i]).0@ by {
                        if i < j {
                            let si = choose|si: int|
                                0 <= si < staged_top.len() && staged_top[si].0@ == ps[i].0@;
                            assert(staged@[si].0@ == ps[i].0@);
                        } else {
                            assert(staged@[staged@.len() - 1].0@ == ps[j as int].0@);
                        }
                    }
                }
            } else {
                proof {
                    assert forall|i: int| 0 <= i < j + 1 && ps[i].1.file_id > 0 implies exists|
                        si: int,
                    | 0 <= si < staged@.len() && staged@[si].0@ == (#[trigger] ps[i]).0@ by {
                        if i < j {
                            let si = choose|si: int|
                                0 <= si < staged@.len() && staged@[si].0@ == ps[i].0@;
                            assert(staged@[si].0@ == ps[i].0@);
                        } else {
                            assert(ps[i].1 == model[ps[i].0@]);
                        }
                    }
                }
            }
            j = j + 1;
        }
        if staged.len() > 0 {
            files.push(SealedFile { seq: merge_seq, data: cur_data, hint: Some(cur_hint) });
        }
        proof {
            assert forall|k: Seq<u8>| #[trigger] model.contains_key(k) && model[k].file_id > 0
                implies exists|si: int| 0 <= si < staged@.len() && staged@[si].0@ == k by {
                let i = choose|i: int| 0 <= i < ps.len() && #[trigger] ps[i].0@ == k;
                assert(ps[i].1 == model[k]);
                let si = choose|si: int| 0 <= si < staged@.len() && staged@[si].0@ == ps[i].0@;
                assert(staged@[si].0@ == k);
            }
            assert forall|k: Seq<u8>| #[trigger] model.contains_key(k) implies (model[k].file_id
                > 0 ==> self.meta_in_bounds(model[k]) && k.len() <= u32::MAX) by {
                let i = choose|i: int| 0 <= i < ps.len() && #[trigger] ps[i].0@ == k;
                assert(ps[i].1 == model[k]);
            }
        }
        Some((files, staged))
    }

    /// Compaction: rewrites every record a sealed directory entry points at
    /// into a fresh sequence of sealed files `data.1 .. data.M`, each with
    /// a paired hint image, and repoints the directory at the copies. What
    /// every key observes is untouched. When some sealed entry cannot be
    /// read whole the run aborts and nothing changes, and when no directory
    /// entry points into a sealed file there is nothing to rewrite and
    /// nothing changes. The active file is never touched.
    #[verifier::rlimit(100)]
    #[verifier::spinoff_prover]
    pub fn compaction(&mut self)
        requires
            old(self).wf(),
        ensures
            final(self).wf(),
            forall|k: Seq<u8>| final(self).obs(k) == old(self).obs(k),
            final(self).keydir.model().dom() == old(self).keydir.model().dom(),
            final(self).active@ == old(self).active@,
            final(self).config == old(self).config,
            final(self).merge_count == old(self).merge_count,
            final(self).merge_pending == old(self).merge_pending,
            final(self).update_count == old(self).update_count,
            !old(self).can_compact() ==> *final(self) == *old(self),
            !old(self).has_sealed_keys() ==> *final(self) == *old(self),
            old(self).can_compact() && old(self).has_sealed_keys() && old(
                self,
            ).keydir.model().dom().len() + 1 < u16::MAX ==> final(self).compact_installed()
                && final(self).hints_exact(),
    {
        let ghost pre = *old(self);
        let built = match self.build_merge() {
            Some(built) => built,
            None => {
                proof {
                    assert(!(pre.can_compact() && pre.keydir.model().dom().len() + 1
                        < u16::MAX));
                }
                return;
            },
        };
        let (mut files, staged) = built;
        if staged.len() == 0 {
            proof {
                if pre.has_sealed_keys() {
                    let k = choose|k: Seq<u8>|
                        #[trigger] pre.keydir.model().contains_key(k)
                            && pre.keydir.model()[k].file_id > 0;
                    let si = choose|si: int|
                        0 <= si < staged@.len() && staged@[si].0@ == k;
                    assert(false);
                }
            }
            return;
        }
        let ghost fs0 = files@;
        let ghost sg = staged@;
        proof {
            assert(pre.can_compact());
            assert(pre.keydir.model().contains_key(sg[0].0@) && pre.keydir.model()[sg[0].0@].file_id
                > 0);
            assert(pre.has_sealed_keys());
        }
        // write each merge file's hint image: one hint per staged entry of
        // that file, so the next open can rebuild the directory without a
        // scan
        let mut fi: usize = 0;
        while fi < files.len()
            invariant
                fi <= files@.len(),
                sg == staged@,
                pre.build_post(fs0, sg),
                files@.len() == fs0.len(),
                forall|i2: int|
                    0 <= i2 < files@.len() ==> (#[trigger] files@[i2]).seq == fs0[i2].seq
                        && files@[i2].data@ == fs0[i2].data@,
                forall|i2: int|
                    0 <= i2 < fi ==> (#[trigger] files@[i2]).hint is Some && parse_hint_stream(
                        files@[i2].hint->Some_0@,
                        0,
                    ) == Self::hints_for(sg, fs0[i2].seq),
                forall|i2: int|
                    fi <= i2 < files@.len() ==> (#[trigger] files@[i2]).hint == fs0[i2].hint,
                *self == pre,
            decreases files@.len() - fi,
        {
            proof {
                assert(fs0[fi as int].seq == fi + 1);
            }
            let seq_id = files[fi].seq;
            let h = Self::build_hint_image(&staged, seq_id);
            let elem = vstd::std_specs::vec::vec_index_mut(&mut files, fi);
            elem.hint = Some(h);
            fi = fi + 1;
        }
        let ghost fs = files@;
        proof {
            assert(pre.build_post(fs, sg)) by {
                assert forall|si: int| 0 <= si < sg.len() implies {
                    let k = (#[trigger] sg[si]).0@;
                    let m2 = sg[si].1;
                    &&& pre.keydir.model().contains_key(k)
                    &&& pre.keydir.model()[k].file_id > 0
                    &&& k.len() <= u32::MAX
                    &&& m2.value_sz == pre.keydir.model()[k].value_sz
                    &&& m2.tstamp == pre.keydir.model()[k].tstamp
                    &&& 1 <= m2.file_id <= fs.len()
                    &&& m2.value_pos + m2.value_sz <= fs[m2.file_id - 1].data@.len()
                    &&& fs[m2.file_id - 1].data@.subrange(
                        m2.value_pos as int,
                        m2.value_pos as int + m2.value_sz as int,
                    ) == pre.slice_of(pre.keydir.model()[k])
                } by {
                    let m2 = sg[si].1;
                    assert(fs[m2.file_id - 1].data@ == fs0[m2.file_id - 1].data@);
                }
            }
        }
        self.sealed = files;
        let mut i: usize = 0;
        while i < staged.len()
            invariant
                i <= staged@.len(),
                sg == staged@,
                pre.wf(),
                pre.build_post(fs, sg),
                sg.len() > 0,
                self.keydir.inv(),
                self.sealed@ == fs,
                self.active@ == pre.active@,
                self.config == pre.config,
                self.merge_count == pre.merge_count,
                self.merge_pending == pre.merge_pending,
                self.update_count == pre.update_count,
                forall|k: Seq<u8>|
                    self.keydir.model().contains_key(k) == pre.keydir.model().contains_key(k),
                forall|si: int|
                    0 <= si < i ==> self.keydir.model()[(#[trigger] sg[si]).0@] == sg[si].1,
                forall|k: Seq<u8>|
                    #[trigger] self.keydir.model().contains_key(k) ==> (self.keydir.model()[k]
                        == pre.keydir.model()[k] || exists|si: int|
                        0 <= si < i && sg[si].0@ == k && self.keydir.model()[k] == sg[si].1),
                forall|si: int|
                    i <= si < sg.len() ==> self.keydir.model()[(#[trigger] sg[si]).0@]
                        == pre.keydir.model()[sg[si].0@],
            decreases staged@.len() - i,
        {
            let cur = match self.keydir.get(&staged[i].0) {
                Ok(cur) => cur,
                Err(_) => {
                    proof {
                        assert(false);
                    }
                    return;
                },
            };
            // Guard demanded by the install step: never let a staged entry
            // overwrite a binding that meanwhile moved to the active file.
            if cur.file_id > 0 {
                self.keydir.set(&staged[i].0, staged[i].1);
            }
            proof {
                assert forall|si: int| i + 1 <= si < sg.len() implies self.keydir.model()[(
                #[trigger] sg[si]).0@] == pre.keydir.model()[sg[si].0@] by {
                    assert(sg[si].0@ != sg[i as int].0@);
                }
                assert forall|si: int| 0 <= si < i + 1 implies self.keydir.model()[(
                #[trigger] sg[si]).0@] == sg[si].1 by {
                    if si < i {
                        assert(sg[si].0@ != sg[i as int].0@);
                    }
                }
            }
            i = i + 1;
        }
        proof {
            let post = *self;
            assert(fs.len() >= 1);
            assert forall|id: u16| 1 <= id <= fs.len() implies sealed_index_of(fs, id) == id - 1 by {
                assert(fs[id - 1].seq == id);
                lemma_sealed_index_of(fs, id);
                let found = sealed_index_of(fs, id);
                assert(fs[found].seq == id);
            }
            assert forall|k: Seq<u8>| #[trigger] post.keydir.model().contains_key(k)
                implies post.has_file(post.keydir.model()[k].file_id) && (
            post.keydir.model()[k].file_id == 0 ==> post.keydir.model()[k].value_pos
                + post.keydir.model()[k].value_sz <= post.active@.len()) && post.keydir.model()[
                k].file_id <= post.sealed@.len() by {
                assert(pre.keydir.model().contains_key(k));
                let mo = pre.keydir.model()[k];
                if mo.file_id > 0 {
                    let si = choose|si: int| 0 <= si < sg.len() && sg[si].0@ == k;
                    assert(post.keydir.model()[k] == sg[si].1);
                    assert(1 <= sg[si].1.file_id <= fs.len());
                } else {
                    assert(post.keydir.model()[k] == mo);
                    assert(mo.value_pos + mo.value_sz <= pre.active@.len());
                }
            }
            assert forall|i2: int, j2: int| 0 <= i2 < j2 < fs.len() implies fs[i2].seq
                < fs[j2].seq by {}
            assert forall|k: Seq<u8>| true implies post.obs(k) == pre.obs(k) by {
                if pre.keydir.model().contains_key(k) {
                    let mo = pre.keydir.model()[k];
                    if mo.file_id == 0 {
                        assert(post.keydir.model()[k] == mo) by {
                            if exists|si: int|
                                0 <= si < sg.len() && sg[si].0@ == k
                                    && post.keydir.model()[k] == sg[si].1 {
                                let si = choose|si: int|
                                    0 <= si < sg.len() && sg[si].0@ == k
                                        && post.keydir.model()[k] == sg[si].1;
                                assert(pre.keydir.model()[sg[si].0@].file_id > 0);
                                assert(false);
                            }
                        }
                        assert(post.file_data(0) == pre.file_data(0));
                        assert(post.meta_in_bounds(mo) && pre.meta_in_bounds(mo));
                        assert(post.slice_of(mo) == pre.slice_of(mo));
                    } else {
                        let si = choose|si: int| 0 <= si < sg.len() && sg[si].0@ == k;
                        let m2 = sg[si].1;
                        assert(post.keydir.model()[k] == m2);
                        assert(sealed_index_of(fs, m2.file_id) == m2.file_id - 1);
                        assert(post.file_data(m2.file_id) == fs[m2.file_id - 1].data@);
                        assert(post.meta_in_bounds(m2));
                        assert(post.slice_of(m2) == pre.slice_of(mo));
                        assert(pre.meta_in_bounds(mo));
                    }
                }
            }
            assert(post.keydir.model().dom() =~= pre.keydir.model().dom());
            assert forall|i2: int, t: int| 0 <= i2 < post.sealed@.len() && 0 <= t
                < parse_hint_stream(post.sealed@[i2].hint->Some_0@, 0).len() implies {
                let h = #[trigger] parse_hint_stream(post.sealed@[i2].hint->Some_0@, 0)[t];
                &&& post.keydir.model().contains_key(h.key)
                &&& post.keydir.model()[h.key] == (Metadata {
                    file_id: post.sealed@[i2].seq,
                    value_sz: h.value_size,
                    value_pos: h.value_pos,
                    tstamp: h.timestamp,
                })
            } by {
                let fid = post.sealed@[i2].seq;
                assert(fid == i2 + 1);
                assert(parse_hint_stream(post.sealed@[i2].hint->Some_0@, 0) == Self::hints_for(
                    sg,
                    fid,
                ));
                Self::lemma_hints_for_items(sg, fid);
                let h = parse_hint_stream(post.sealed@[i2].hint->Some_0@, 0)[t];
                let si = choose|si: int|
                    0 <= si < sg.len() && sg[si].1.file_id == fid && (#[trigger] Self::hints_for(
                        sg,
                        fid,
                    )[t]) == hint_of(sg[si].0@, sg[si].1);
                assert(h == hint_of(sg[si].0@, sg[si].1));
                assert(post.keydir.model()[sg[si].0@] == sg[si].1);
                assert(pre.keydir.model().contains_key(sg[si].0@));
            }
            assert forall|k: Seq<u8>| #[trigger] post.keydir.model().contains_key(k)
                && post.keydir.model()[k].file_id > 0 implies exists|i2: int, t: int|
                0 <= i2 < post.sealed@.len() && 0 <= t < parse_hint_stream(
                    post.sealed@[i2].hint->Some_0@,
                    0,
                ).len() && (#[trigger] parse_hint_stream(post.sealed@[i2].hint->Some_0@, 0)[t]).key
                    == k by {
                assert(pre.keydir.model().contains_key(k));
                let mo = pre.keydir.model()[k];
                if mo.file_id == 0 {
                    assert(post.keydir.model()[k] == mo) by {
                        if exists|si: int|
                            0 <= si < sg.len() && sg[si].0@ == k && post.keydir.model()[k]
                                == sg[si].1 {
                            let si = choose|si: int|
                                0 <= si < sg.len() && sg[si].0@ == k && post.keydir.model()[k]
                                    == sg[si].1;
                            assert(pre.keydir.model()[sg[si].0@].file_id > 0);
                            assert(false);
                        }
                    }
                    assert(false);
                } else {
                    let si = choose|si: int| 0 <= si < sg.len() && sg[si].0@ == k;
                    let m2 = sg[si].1;
                    assert(post.keydir.model()[k] == m2);
                    let fid = m2.file_id;
                    Self::lemma_hints_for_cover(sg, fid);
                    let t = choose|t: int|
                        0 <= t < Self::hints_for(sg, fid).len() && (#[trigger] Self::hints_for(
                            sg,
                            fid,
                        )[t]).key == sg[si].0@;
                    let i3 = fid - 1;
                    assert(post.sealed@[i3].seq == fid);
                    assert(parse_hint_stream(post.sealed@[i3].hint->Some_0@, 0)
                        == Self::hints_for(sg, fid));
                    assert(0 <= i3 < post.sealed@.len() && 0 <= t < parse_hint_stream(
                        post.sealed@[i3].hint->Some_0@,
                        0,
                    ).len() && (#[trigger] parse_hint_stream(
                        post.sealed@[i3].hint->Some_0@,
                        0,
                    )[t]).key == k);
                }
            }
        }
    }

    /// Whether a compaction signal is waiting; taking it clears it.
    pub fn take_compaction_signal(&mut self) -> (r: bool)
        ensures
            r == old(self).merge_pending,
            *final(self) == (Store { merge_pending: false, ..*old(self) }),
    {
        let r = self.merge_pending;
        self.merge_pending = false;
        r
    }
}

/// A fresh engine over an empty directory; `start` then rebuilds the
/// directory from file images.
pub fn new_store(config: Config) -> (s: Store)
    ensures
        s.wf(),
        s.keydir.model() == Map::<Seq<u8>, Metadata>::empty(),
        s.active@ == Seq::<u8>::empty(),
        s.sealed@ == Seq::<SealedFile>::empty(),
        s.config == config,
        !s.merge_pending,
{
    Store::new(Keydir::new(), config)
}

/// A key that keeps its directory entry observes no change when the engine
/// only appends to the active file: sealed files are untouched, and every
/// active-file entry lies within the part of the file that was already
/// there.
proof fn lemma_obs_frame(pre: Store, post: Store, key: Seq<u8>, k2: Seq<u8>)
    requires
        pre.wf(),
        k2 != key,
        pre.keydir.model().contains_key(k2) == post.keydir.model().contains_key(k2),
        pre.keydir.model().contains_key(k2) ==> post.keydir.model()[k2] == pre.keydir.model()[k2],
        post.sealed@ == pre.sealed@,
        pre.active@.len() <= post.active@.len(),
        post.active@.subrange(0, pre.active@.len() as int) == pre.active@,
    ensures
        post.obs(k2) == pre.obs(k2),
{
    if pre.keydir.model().contains_key(k2) {
        let m = pre.keydir.model()[k2];
        if m.file_id == 0 {
            assert(m.value_pos + m.value_sz <= pre.active@.len());
            assert(post.meta_in_bounds(m) && pre.meta_in_bounds(m));
            assert(post.slice_of(m) =~= pre.slice_of(m)) by {
                assert forall|i: int| 0 <= i < m.value_sz as int implies post.active@[
                    m.value_pos + i] == #[trigger] pre.active@[m.value_pos + i] by {
                    assert(post.active@.subrange(0, pre.active@.len() as int)[m.value_pos + i]
                        == pre.active@[m.value_pos + i]);
                }
            }
        } else {
            assert(post.file_data(m.file_id) == pre.file_data(m.file_id));
            assert(post.meta_in_bounds(m) == pre.meta_in_bounds(m));
            if pre.meta_in_bounds(m) {
                assert(post.slice_of(m) == pre.slice_of(m));
            }
        }
    }
}

/// The round trip, and last write wins: a key that observes the record
/// `set(k, v, ts)` wrote — which `set` guarantees, whatever was written
/// under other keys before or since, and which a second `set` to the same
/// key replaces with its own record — answers `get` with exactly `v` at
/// any time not past its expiry.
pub proof fn lemma_set_then_get(s: Store, k: Seq<u8>, v: Seq<u8>, ts: u64, now: u64)
    requires
        s.obs(k) == KeyObs::Present(add_record(k, v, ts)),
        ts == 0 || now <= ts,
    ensures
        s.spec_get(k, now) == Ok::<Seq<u8>, OpError>(v),
{
}

/// Deletion: a key that observes nothing — which `delete` guarantees —
/// answers `get` with `KeyNotFound`, at any time.
pub proof fn lemma_delete_then_get(s: Store, k: Seq<u8>, now: u64)
    requires
        s.obs(k) == KeyObs::Absent,
    ensures
        s.spec_get(k, now) == Err::<Seq<u8>, OpError>(OpError::KeyNotFound),
{
}

/// Expiry: once the clock passes a record's expiry timestamp, `get` no
/// longer answers the value, while `get_entry` still surrenders the whole
/// record — expiry included — for callers that inspect timestamps.
pub proof fn lemma_expired_get(s: Store, k: Seq<u8>, r: RecordView, now: u64)
    requires
        s.obs(k) == KeyObs::Present(r),
        r.timestamp != 0,
        now > r.timestamp,
    ensures
        s.spec_get(k, now) == Err::<Seq<u8>, OpError>(OpError::ValueInvalid),
        s.spec_get_entry(k) == Ok::<RecordView, OpError>(r),
{
}

/// A value not yet expired is still answered whole: the counterpart of
/// `lemma_expired_get` for a clock that has not passed the timestamp.
pub proof fn lemma_unexpired_get(s: Store, k: Seq<u8>, r: RecordView, now: u64)
    requires
        s.obs(k) == KeyObs::Present(r),
        r.op != Op::Del,
        r.timestamp == 0 || now <= r.timestamp,
    ensures
        s.spec_get(k, now) == Ok::<Seq<u8>, OpError>(r.value),
{
}

/// The hint compaction writes for a directory entry: the key, the entry's
/// expiry, and the record's position and full width in its new file.
pub open spec fn hint_of(k: Seq<u8>, m: Metadata) -> HintView {
    HintView {
        timestamp: m.tstamp,
        key_size: k.len() as u32,
        value_size: m.value_sz,
        value_pos: m.value_pos,
        key: k,
    }
}

/// Ingesting a hint stream every hint of which agrees with the directory —
/// its key is bound, into `file_id`, exactly where the hint says — yields
/// the directory's own bindings for the hinted keys and touches no others.
pub proof fn lemma_agreeing_hint_replay(
    m0: Map<Seq<u8>, Metadata>,
    model: Map<Seq<u8>, Metadata>,
    file_id: u16,
    hs: Seq<HintView>,
)
    requires
        forall|j: int|
            0 <= j < hs.len() ==> model.contains_key((#[trigger] hs[j]).key) && model[hs[j].key]
                == (Metadata {
                file_id,
                value_sz: hs[j].value_size,
                value_pos: hs[j].value_pos,
                tstamp: hs[j].timestamp,
            }),
    ensures
        forall|k: Seq<u8>|
            #[trigger] hint_replay(m0, file_id, hs).contains_key(k) <==> (m0.contains_key(k)
                || exists|j: int| 0 <= j < hs.len() && (#[trigger] hs[j]).key == k),
        forall|k: Seq<u8>|
            hint_replay(m0, file_id, hs).contains_key(k) ==> #[trigger] hint_replay(
                m0,
                file_id,
                hs,
            )[k] == if exists|j: int| 0 <= j < hs.len() && (#[trigger] hs[j]).key == k {
                model[k]
            } else {
                m0[k]
            },
    decreases hs.len(),
{
    if hs.len() == 0 {
    } else {
        let prefix = hs.drop_last();
        let h = hs.last();
        lemma_agreeing_hint_replay(m0, model, file_id, prefix);
        let r = hint_replay(m0, file_id, hs);
        assert(r == hint_replay(m0, file_id, prefix).insert(
            h.key,
            Metadata {
                file_id,
                value_sz: h.value_size,
                value_pos: h.value_pos,
                tstamp: h.timestamp,
            },
        ));
        assert forall|k: Seq<u8>| #[trigger] r.contains_key(k) implies (m0.contains_key(k)
            || exists|j: int| 0 <= j < hs.len() && (#[trigger] hs[j]).key == k) by {
            if k == h.key {
                assert(hs[hs.len() - 1].key == k);
            } else {
                if !m0.contains_key(k) {
                    let j = choose|j: int| 0 <= j < prefix.len() && (#[trigger] prefix[j]).key == k;
                    assert(hs[j].key == k);
                }
            }
        }
        assert forall|k: Seq<u8>| (m0.contains_key(k) || exists|j: int|
            0 <= j < hs.len() && (#[trigger] hs[j]).key == k) implies #[trigger] r.contains_key(
            k,
        ) by {
            if k != h.key && !m0.contains_key(k) {
                let j = choose|j: int| 0 <= j < hs.len() && (#[trigger] hs[j]).key == k;
                assert(j < prefix.len() && prefix[j].key == k);
            }
        }
        assert forall|k: Seq<u8>| r.contains_key(k) implies #[trigger] r[k] == if exists|j: int|
            0 <= j < hs.len() && (#[trigger] hs[j]).key == k {
            model[k]
        } else {
            m0[k]
        } by {
            if k == h.key {
                assert(model.contains_key(k) && model[k] == (Metadata {
                    file_id,
                    value_sz: h.value_size,
                    value_pos: h.value_pos,
                    tstamp: h.timestamp,
                }));
                assert(hs[hs.len() - 1].key == k);
            } else {
                if exists|j: int| 0 <= j < hs.len() && (#[trigger] hs[j]).key == k {
                    let j = choose|j: int| 0 <= j < hs.len() && (#[trigger] hs[j]).key == k;
                    assert(j < prefix.len() && prefix[j].key == k);
                } else {
                    assert(forall|j: int|
                        0 <= j < prefix.len() ==> (#[trigger] prefix[j]).key != k);
                }
            }
        }
    }
}

/// Working through sealed files all of which carry agreeing hint images
/// rebuilds, from nothing, exactly the directory's bindings for the hinted
/// keys.
pub proof fn lemma_hints_rebuild_rec(
    model: Map<Seq<u8>, Metadata>,
    files: Seq<SealedFile>,
    now: u64,
)
    requires
        forall|i: int| 0 <= i < files.len() ==> (#[trigger] files[i].hint) is Some,
        forall|i: int, j: int|
            0 <= i < files.len() && 0 <= j < parse_hint_stream(
                (#[trigger] files[i]).hint->Some_0@,
                0,
            ).len() ==> {
                let h = #[trigger] parse_hint_stream(files[i].hint->Some_0@, 0)[j];
                &&& model.contains_key(h.key)
                &&& model[h.key] == (Metadata {
                    file_id: files[i].seq,
                    value_sz: h.value_size,
                    value_pos: h.value_pos,
                    tstamp: h.timestamp,
                })
            },
    ensures
        forall|k: Seq<u8>|
            #[trigger] sealed_replay(Map::<Seq<u8>, Metadata>::empty(), files, now).contains_key(
                k,
            ) <==> exists|i: int, j: int|
                0 <= i < files.len() && 0 <= j < parse_hint_stream(
                    files[i].hint->Some_0@,
                    0,
                ).len() && (#[trigger] parse_hint_stream(files[i].hint->Some_0@, 0)[j]).key == k,
        forall|k: Seq<u8>|
            sealed_replay(Map::<Seq<u8>, Metadata>::empty(), files, now).contains_key(k)
                ==> #[trigger] sealed_replay(Map::<Seq<u8>, Metadata>::empty(), files, now)[k]
                == model[k],
    decreases files.len(),
{
    if files.len() == 0 {
    } else {
        let prefix = files.drop_last();
        let f = files.last();
        lemma_hints_rebuild_rec(model, prefix, now);
        let prev = sealed_replay(Map::<Seq<u8>, Metadata>::empty(), prefix, now);
        let hs = parse_hint_stream(f.hint->Some_0@, 0);
        assert(forall|j: int|
            0 <= j < hs.len() ==> hs[j] == parse_hint_stream(
                (#[trigger] files[files.len() - 1]).hint->Some_0@,
                0,
            )[j]);
        lemma_agreeing_hint_replay(prev, model, f.seq, hs);
        let r = sealed_replay(Map::<Seq<u8>, Metadata>::empty(), files, now);
        assert(r == hint_replay(prev, f.seq, hs));
        assert forall|k: Seq<u8>| #[trigger] r.contains_key(k) implies exists|i: int, j: int|
            0 <= i < files.len() && 0 <= j < parse_hint_stream(
                        files[i].hint->Some_0@,
                        0,
                    ).len() && (#[trigger] parse_hint_stream(files[i].hint->Some_0@, 0)[j]).key == k by {
            if exists|j: int| 0 <= j < hs.len() && (#[trigger] hs[j]).key == k {
                let j = choose|j: int| 0 <= j < hs.len() && (#[trigger] hs[j]).key == k;
                assert(0 <= files.len() - 1 < files.len() && 0 <= j < parse_hint_stream(
                    files[files.len() - 1].hint->Some_0@,
                    0,
                ).len() && parse_hint_stream(files[files.len() - 1].hint->Some_0@, 0)[j].key == k);
            } else {
                assert(prev.contains_key(k));
                let (i, j) = choose|i: int, j: int|
                    0 <= i < prefix.len() && 0 <= j < parse_hint_stream(
                        prefix[i].hint->Some_0@,
                        0,
                    ).len() && (#[trigger] parse_hint_stream(prefix[i].hint->Some_0@, 0)[j]).key == k;
                assert(files[i] == prefix[i]);
                assert(0 <= i < files.len() && 0 <= j < parse_hint_stream(
                    files[i].hint->Some_0@,
                    0,
                ).len() && (#[trigger] parse_hint_stream(files[i].hint->Some_0@, 0)[j]).key == k);
            }
        }
        assert forall|k: Seq<u8>| (exists|i: int, j: int|
            0 <= i < files.len() && 0 <= j < parse_hint_stream(
                        files[i].hint->Some_0@,
                        0,
                    ).len() && (#[trigger] parse_hint_stream(files[i].hint->Some_0@, 0)[j]).key == k)
            implies #[trigger] r.contains_key(k) by {
            let (i, j) = choose|i: int, j: int|
                0 <= i < files.len() && 0 <= j < parse_hint_stream(
                    files[i].hint->Some_0@,
                    0,
                ).len() && (#[trigger] parse_hint_stream(files[i].hint->Some_0@, 0)[j]).key == k;
            if i == files.len() - 1 {
                assert(hs[j].key == k);
            } else {
                assert(prefix[i] == files[i]);
                assert(0 <= i < prefix.len() && 0 <= j < parse_hint_stream(
                    prefix[i].hint->Some_0@,
                    0,
                ).len() && (#[trigger] parse_hint_stream(prefix[i].hint->Some_0@, 0)[j]).key == k);
                assert(prev.contains_key(k));
            }
        }
        assert forall|k: Seq<u8>| r.contains_key(k) implies #[trigger] r[k] == model[k] by {
            if exists|j: int| 0 <= j < hs.len() && (#[trigger] hs[j]).key == k {
            } else {
                assert(prev.contains_key(k) && r[k] == prev[k]);
            }
        }
    }
}

/// Hint-driven recovery: on an engine whose sealed files carry exact hint
/// images — as compaction's install leaves them — recovery from those
/// files alone, with an empty active file, rebuilds precisely the sealed
/// part of the directory as it stood in memory.
pub proof fn lemma_hint_driven_recovery(s: Store, now: u64)
    requires
        s.wf(),
        s.hints_exact(),
    ensures
        forall|k: Seq<u8>|
            #[trigger] recovery_map(s.sealed@, Seq::<u8>::empty(), now).contains_key(k) <==> (
            s.keydir.model().contains_key(k) && s.keydir.model()[k].file_id > 0),
        forall|k: Seq<u8>|
            recovery_map(s.sealed@, Seq::<u8>::empty(), now).contains_key(k)
                ==> #[trigger] recovery_map(s.sealed@, Seq::<u8>::empty(), now)[k]
                == s.keydir.model()[k],
{
    let model = s.keydir.model();
    let files = s.sealed@;
    lemma_hints_rebuild_rec(model, files, now);
    let base = sealed_replay(Map::<Seq<u8>, Metadata>::empty(), files, now);
    assert(parse_stream(Seq::<u8>::empty(), 0) =~= Seq::<(int, RecordView)>::empty());
    assert(recovery_map(files, Seq::<u8>::empty(), now) == base);
    assert forall|k: Seq<u8>| #[trigger] base.contains_key(k) implies (model.contains_key(k)
        && model[k].file_id > 0) by {
        let (i, j) = choose|i: int, j: int|
            0 <= i < files.len() && 0 <= j < parse_hint_stream(
                files[i].hint->Some_0@,
                0,
            ).len() && (#[trigger] parse_hint_stream(files[i].hint->Some_0@, 0)[j]).key == k;
        let h = parse_hint_stream(files[i].hint->Some_0@, 0)[j];
        assert(model.contains_key(h.key) && model[h.key].file_id == files[i].seq);
        assert(files[i].seq >= 1);
    }
}

/// Durability of a write: appending the record `set(k, v, ts)` appends to
/// a cleanly-parsed active file — as `set` does — makes recovery rebuild
/// exactly the old directory with `k` bound to the new record, provided
/// the record has not expired by the time of the reopen. Applied write by
/// write, this is why the observable mapping survives a close and reopen.
pub proof fn lemma_set_survives_reopen(
    files: Seq<SealedFile>,
    active: Seq<u8>,
    k: Seq<u8>,
    v: Seq<u8>,
    ts: u64,
    now: u64,
)
    requires
        crate::entry::parse_end(active, 0) == active.len(),
        k.len() <= u32::MAX,
        v.len() <= u64::MAX,
        ts == 0 || now <= ts,
    ensures
        ({
            let r = add_record(k, v, ts);
            &&& recovery_map(files, active + r.to_bytes(), now) == recovery_map(
                files,
                active,
                now,
            ).insert(
                k,
                Metadata {
                    file_id: 0,
                    value_sz: r.size() as u64,
                    value_pos: active.len() as u64,
                    tstamp: ts,
                },
            )
            &&& crate::entry::parse_end(active + r.to_bytes(), 0) == active.len() + r.size()
        }),
{
    let r = add_record(k, v, ts);
    assert(r.sizes_ok());
    crate::entry::lemma_append_recovers(active, r);
    let base = sealed_replay(Map::<Seq<u8>, Metadata>::empty(), files, now);
    let items = parse_stream(active, 0);
    let ext_items = parse_stream(active + r.to_bytes(), 0);
    assert(ext_items == items.push(((active.len() as int), r)));
    assert(ext_items.drop_last() =~= items);
    assert(!r.expired_at(now) && r.op != Op::Del);
    assert(stream_replay(base, 0, ext_items, now) == stream_replay(base, 0, items, now).insert(
        r.key,
        Metadata {
            file_id: 0,
            value_sz: r.size() as u64,
            value_pos: active.len() as u64,
            tstamp: r.timestamp,
        },
    ));
}

/// Durability of a deletion: appending the tombstone `delete(k)` appends
/// to a cleanly-parsed active file makes recovery rebuild exactly the old
/// directory without `k`.
pub proof fn lemma_delete_survives_reopen(
    files: Seq<SealedFile>,
    active: Seq<u8>,
    k: Seq<u8>,
    now: u64,
)
    requires
        crate::entry::parse_end(active, 0) == active.len(),
        k.len() <= u32::MAX,
    ensures
        recovery_map(files, active + del_record(k).to_bytes(), now) == recovery_map(
            files,
            active,
            now,
        ).remove(k),
        crate::entry::parse_end(active + del_record(k).to_bytes(), 0) == active.len()
            + del_record(k).size(),
{
    let r = del_record(k);
    assert(r.sizes_ok());
    crate::entry::lemma_append_recovers(active, r);
    let base = sealed_replay(Map::<Seq<u8>, Metadata>::empty(), files, now);
    let items = parse_stream(active, 0);
    let ext_items = parse_stream(active + r.to_bytes(), 0);
    assert(ext_items == items.push(((active.len() as int), r)));
    assert(ext_items.drop_last() =~= items);
    assert(r.op == Op::Del);
    assert(stream_replay(base, 0, ext_items, now) == stream_replay(base, 0, items, now).remove(
        r.key,
    ));
}

/// Crash tolerance: a torn tail shorter than a record header, appended to
/// an active file every byte of which belongs to a complete record, does
/// not change what recovery rebuilds.
pub proof fn lemma_recovery_ignores_torn_tail(
    files: Seq<SealedFile>,
    active: Seq<u8>,
    junk: Seq<u8>,
    now: u64,
)
    requires
        crate::entry::parse_end(active, 0) == active.len(),
        junk.len() < 25,
    ensures
        recovery_map(files, active + junk, now) == recovery_map(files, active, now),
{
    crate::entry::lemma_torn_tail_ignored(active, junk);
}

/// Reads `size` bytes at `offset` from a file image. A range that leaves
/// the image answers `ReadSizeNotMatch`, as a short positional read would.
fn read_file_at(data: &Vec<u8>, offset: u64, size: u64) -> (res: Result<Vec<u8>, OpError>)
    ensures
        offset + size <= data@.len() ==> (res matches Ok(b) && b@ == data@.subrange(
            offset as int,
            offset as int + size as int,
        )),
        offset + size > data@.len() ==> res == Err::<Vec<u8>, OpError>(OpError::ReadSizeNotMatch),
{
    let len = data.len();
    if offset > len as u64 || size > len as u64 - offset {
        return Err(OpError::ReadSizeNotMatch);
    }
    let start = offset as usize;
    let end = (offset + size) as usize;
    Ok(vstd::slice::slice_to_vec(vstd::slice::slice_subrange(data.as_slice(), start, end)))
}

} // verus!
