//! The in-memory key directory: a map from each live key to the location of
//! its newest record on disk.
//!
//! A directory entry names the file the record lives in (`file_id`, where
//! `0` is the active file and positive ids are sealed files), the byte
//! offset of the record's start (`value_pos`), the record's full on-disk
//! width (`value_sz`), and the record's expiry timestamp (`tstamp`).
//!
//! The directory never holds tombstones: a deletion removes the key.

use vstd::prelude::*;

use crate::error::OpError;

verus! {

broadcast use vstd::set::group_set_axioms;

/// Where a key's newest record lies on disk.
#[derive(Debug, Clone, Copy, PartialEq, Eq, Structural)]
pub struct Metadata {
    /// `0` for the active file; a positive id for a sealed file.
    pub file_id: u16,
    /// The record's full on-disk width in bytes.
    pub value_sz: u64,
    /// The byte offset of the record's start in its file.
    pub value_pos: u64,
    /// The record's expiry timestamp (`0` for none).
    pub tstamp: u64,
}

/// The map an association sequence denotes; a later pair for the same key
/// wins.
pub open spec fn entries_map(s: Seq<(Vec<u8>, Metadata)>) -> Map<Seq<u8>, Metadata>
    decreases s.len(),
{
    if s.len() == 0 {
        Map::empty()
    } else {
        entries_map(s.drop_last()).insert(s.last().0@, s.last().1)
    }
}

/// No two pairs of the sequence carry the same key.
pub open spec fn distinct_keys(s: Seq<(Vec<u8>, Metadata)>) -> bool {
    forall|i: int, j: int| 0 <= i < j < s.len() ==> s[i].0@ != s[j].0@
}

/// How an association sequence and the map it denotes correspond: the map's
/// domain is the set of keys of the sequence, and — when the keys are
/// distinct — each pair is the map's binding and the map is exactly as large
/// as the sequence.
pub proof fn lemma_entries_map(s: Seq<(Vec<u8>, Metadata)>)
    ensures
        entries_map(s).dom().finite(),
        forall|k: Seq<u8>|
            #[trigger] entries_map(s).contains_key(k) <==> exists|i: int|
                0 <= i < s.len() && #[trigger] s[i].0@ == k,
        distinct_keys(s) ==> forall|i: int|
            0 <= i < s.len() ==> entries_map(s).contains_key(#[trigger] s[i].0@) && entries_map(
                s,
            )[s[i].0@] == s[i].1,
        distinct_keys(s) ==> entries_map(s).dom().len() == s.len(),
    decreases s.len(),
{
    if s.len() == 0 {
    } else {
        let prefix = s.drop_last();
        lemma_entries_map(prefix);
        assert forall|k: Seq<u8>| #[trigger] entries_map(s).contains_key(k) implies exists|i: int|
            0 <= i < s.len() && #[trigger] s[i].0@ == k by {
            if k == s.last().0@ {
                assert(s[s.len() - 1].0@ == k);
            } else {
                let i = choose|i: int| 0 <= i < prefix.len() && #[trigger] prefix[i].0@ == k;
                assert(s[i].0@ == k);
            }
        }
        assert forall|k: Seq<u8>| (exists|i: int| 0 <= i < s.len() && #[trigger] s[i].0@ == k)
            implies #[trigger] entries_map(s).contains_key(k) by {
            let i = choose|i: int| 0 <= i < s.len() && #[trigger] s[i].0@ == k;
            if i == s.len() - 1 {
            } else {
                assert(prefix[i].0@ == k);
            }
        }
        if distinct_keys(s) {
            assert(distinct_keys(prefix));
            assert forall|i: int| 0 <= i < s.len() implies entries_map(s).contains_key(
                #[trigger] s[i].0@,
            ) && entries_map(s)[s[i].0@] == s[i].1 by {
                if i == s.len() - 1 {
                } else {
                    assert(prefix[i].0@ == s[i].0@ && prefix[i].1 == s[i].1);
                    assert(s[i].0@ != s.last().0@);
                }
            }
            assert(!entries_map(prefix).contains_key(s.last().0@));
        }
    }
}

/// The operations the store asks of a key directory.
///
/// `inv` is the directory's well-formedness; `model` is the map it denotes.
/// Every operation is specified against `model`, so the store's own proofs
/// rest only on this contract.
pub trait OpKeydir: Sized {
    /// The directory's internal well-formedness.
    spec fn inv(&self) -> bool;

    /// The map from key to metadata the directory denotes.
    spec fn model(&self) -> Map<Seq<u8>, Metadata>;

    /// The pairs the directory holds, in iteration order.
    spec fn entry_seq(&self) -> Seq<(Seq<u8>, Metadata)>;

    /// An empty directory.
    fn new() -> (r: Self)
        ensures
            r.inv(),
            r.model() == Map::<Seq<u8>, Metadata>::empty(),
    ;

    /// The metadata for `key`, or `KeyNotFound`.
    fn get(&self, key: &Vec<u8>) -> (r: Result<Metadata, OpError>)
        requires
            self.inv(),
        ensures
            self.model().contains_key(key@) ==> r == Ok::<Metadata, OpError>(self.model()[key@]),
            !self.model().contains_key(key@) ==> r == Err::<Metadata, OpError>(
                OpError::KeyNotFound,
            ),
    ;

    /// Binds `key` to `metadata`, replacing any earlier binding.
    fn set(&mut self, key: &Vec<u8>, metadata: Metadata)
        requires
            old(self).inv(),
        ensures
            final(self).inv(),
            final(self).model() == old(self).model().insert(key@, metadata),
    ;

    /// Drops the binding for `key`, if any.
    fn remove(&mut self, key: &Vec<u8>)
        requires
            old(self).inv(),
        ensures
            final(self).inv(),
            final(self).model() == old(self).model().remove(key@),
    ;

    /// How many keys are bound.
    fn len(&self) -> (r: usize)
        requires
            self.inv(),
        ensures
            r == self.model().dom().len(),
    ;

    /// A point-in-time copy of every bound key.
    fn keys(&self) -> (r: Vec<Vec<u8>>)
        requires
            self.inv(),
        ensures
            r@.map_values(|k: Vec<u8>| k@).no_duplicates(),
            forall|i: int| 0 <= i < r@.len() ==> self.model().contains_key(#[trigger] r@[i]@),
            forall|k: Seq<u8>|
                self.model().contains_key(k) ==> exists|i: int| 0 <= i < r@.len() && r@[i]@ == k,
            r@.len() == self.model().dom().len(),
    ;

    /// The pairs the directory holds, in iteration order. The keys are
    /// distinct and together they are exactly the model's bindings.
    fn iter(&self) -> (r: &Vec<(Vec<u8>, Metadata)>)
        requires
            self.inv(),
        ensures
            r@.map_values(|p: (Vec<u8>, Metadata)| (p.0@, p.1)) == self.entry_seq(),
            forall|i: int, j: int|
                0 <= i < j < self.entry_seq().len() ==> self.entry_seq()[i].0
                    != self.entry_seq()[j].0,
            forall|i: int|
                0 <= i < self.entry_seq().len() ==> self.model().contains_key(
                    #[trigger] self.entry_seq()[i].0,
                ) && self.model()[self.entry_seq()[i].0] == self.entry_seq()[i].1,
            forall|k: Seq<u8>|
                self.model().contains_key(k) ==> exists|i: int|
                    0 <= i < self.entry_seq().len() && #[trigger] self.entry_seq()[i].0 == k,
            r@.len() == self.model().dom().len(),
    ;

    /// Binds every pair of `items` in order; a later pair for the same key
    /// wins over an earlier one and over any existing binding.
    fn extend(&mut self, items: Vec<(Vec<u8>, Metadata)>)
        requires
            old(self).inv(),
        ensures
            final(self).inv(),
            final(self).model() == old(self).model().union_prefer_right(
                entries_map(items@),
            ),
    ;

    /// Rewrites every binding that names the active file (`file_id == 0`) to
    /// name `file_id` instead; used with file rotation.
    fn update_key(&mut self, file_id: u16)
        requires
            old(self).inv(),
        ensures
            final(self).inv(),
            final(self).model() == Map::<Seq<u8>, Metadata>::new(
                |k: Seq<u8>| old(self).model().contains_key(k),
                |k: Seq<u8>|
                    if old(self).model()[k].file_id == 0 {
                        Metadata { file_id, ..old(self).model()[k] }
                    } else {
                        old(self).model()[k]
                    },
            ),
    ;
}

/// The key directory: an association list with pairwise-distinct keys.
pub struct Keydir {
    pub entries: Vec<(Vec<u8>, Metadata)>,
}

impl Keydir {
    /// Compares two byte strings for equality.
    fn bytes_eq(a: &Vec<u8>, b: &Vec<u8>) -> (r: bool)
        ensures
            r == (a@ == b@),
    {
        if a.len() != b.len() {
            return false;
        }
        let mut i: usize = 0;
        while i < a.len()
            invariant
                i <= a@.len(),
                a@.len() == b@.len(),
                forall|j: int| 0 <= j < i ==> a@[j] == b@[j],
            decreases a@.len() - i,
        {
            if a[i] != b[i] {
                return false;
            }
            i = i + 1;
        }
        proof {
            assert(a@ =~= b@);
        }
        true
    }

    /// The index of `key`'s pair, if it is bound.
    fn find(&self, key: &Vec<u8>) -> (r: Option<usize>)
        ensures
            match r {
                Some(i) => i < self.entries@.len() && self.entries@[i as int].0@ == key@,
                None => forall|i: int|
                    0 <= i < self.entries@.len() ==> self.entries@[i].0@ != key@,
            },
    {
        let mut i: usize = 0;
        while i < self.entries.len()
            invariant
                i <= self.entries@.len(),
                forall|j: int| 0 <= j < i ==> self.entries@[j].0@ != key@,
            decreases self.entries@.len() - i,
        {
            if Self::bytes_eq(&self.entries[i].0, key) {
                return Some(i);
            }
            i = i + 1;
        }
        None
    }
}

impl OpKeydir for Keydir {
    open spec fn inv(&self) -> bool {
        distinct_keys(self.entries@)
    }

    open spec fn model(&self) -> Map<Seq<u8>, Metadata> {
        entries_map(self.entries@)
    }

    open spec fn entry_seq(&self) -> Seq<(Seq<u8>, Metadata)> {
        self.entries@.map_values(|p: (Vec<u8>, Metadata)| (p.0@, p.1))
    }

    fn new() -> (r: Keydir) {
        Keydir { entries: Vec::new() }
    }

    fn get(&self, key: &Vec<u8>) -> (r: Result<Metadata, OpError>) {
        proof {
            lemma_entries_map(self.entries@);
        }
        match self.find(key) {
            Some(i) => Ok(self.entries[i].1),
            None => Err(OpError::KeyNotFound),
        }
    }

    fn set(&mut self, key: &Vec<u8>, metadata: Metadata) {
        proof {
            lemma_entries_map(self.entries@);
        }
        let ghost s_old = self.entries@;
        match self.find(key) {
            Some(i) => {
                let elem = vstd::std_specs::vec::vec_index_mut(&mut self.entries, i);
                elem.1 = metadata;
                proof {
                    let s_new = self.entries@;
                    assert(forall|j: int|
                        0 <= j < s_new.len() ==> s_new[j].0@ == s_old[j].0@);
                    lemma_entries_map(s_new);
                    assert forall|k2: Seq<u8>| #[trigger] entries_map(s_new).contains_key(k2)
                        implies entries_map(s_old).insert(key@, metadata).contains_key(k2)
                        && entries_map(s_new)[k2] == entries_map(s_old).insert(
                            key@,
                            metadata,
                        )[k2] by {
                        let j = choose|j: int|
                            0 <= j < s_new.len() && #[trigger] s_new[j].0@ == k2;
                        assert(s_old[j].0@ == k2);
                        if k2 != key@ {
                            assert(j != i);
                            assert(s_new[j] == s_old[j]);
                        }
                    }
                    assert forall|k2: Seq<u8>| #[trigger] entries_map(s_old).insert(
                        key@,
                        metadata,
                    ).contains_key(k2) implies entries_map(s_new).contains_key(k2) by {
                        if k2 == key@ {
                            assert(s_new[i as int].0@ == k2);
                        } else {
                            let j = choose|j: int|
                                0 <= j < s_old.len() && #[trigger] s_old[j].0@ == k2;
                            assert(s_new[j].0@ == k2);
                        }
                    }
                    assert(entries_map(s_new) =~= entries_map(s_old).insert(key@, metadata));
                }
            },
            None => {
                self.entries.push((key.clone(), metadata));
                proof {
                    let s_new = self.entries@;
                    assert(s_new.drop_last() =~= s_old);
                    assert(s_new.last().0@ == key@);
                }
            },
        }
    }

    fn remove(&mut self, key: &Vec<u8>) {
        proof {
            lemma_entries_map(self.entries@);
        }
        let ghost s_old = self.entries@;
        match self.find(key) {
            Some(i) => {
                self.entries.remove(i);
                proof {
                    let s_new = self.entries@;
                    assert(forall|j: int| 0 <= j < i ==> s_new[j] == s_old[j]);
                    assert(forall|j: int|
                        i <= j < s_new.len() ==> s_new[j] == s_old[j + 1]);
                    assert(distinct_keys(s_new)) by {
                        assert forall|p: int, q: int| 0 <= p < q < s_new.len() implies s_new[p].0@
                            != s_new[q].0@ by {
                            let p0 = if p < i { p } else { p + 1 };
                            let q0 = if q < i { q } else { q + 1 };
                            assert(s_new[p] == s_old[p0] && s_new[q] == s_old[q0]);
                        }
                    }
                    lemma_entries_map(s_new);
                    assert forall|k2: Seq<u8>| #[trigger] entries_map(s_new).contains_key(k2)
                        implies entries_map(s_old).remove(key@).contains_key(k2) && entries_map(
                        s_new,
                    )[k2] == entries_map(s_old).remove(key@)[k2] by {
                        let j = choose|j: int|
                            0 <= j < s_new.len() && #[trigger] s_new[j].0@ == k2;
                        let j0 = if j < i { j } else { j + 1 };
                        assert(s_old[j0].0@ == k2 && s_old[j0].1 == s_new[j].1);
                        assert(j0 != i);
                        assert(k2 != key@);
                    }
                    assert forall|k2: Seq<u8>| #[trigger] entries_map(s_old).remove(
                        key@,
                    ).contains_key(k2) implies entries_map(s_new).contains_key(k2) by {
                        let j0 = choose|j0: int|
                            0 <= j0 < s_old.len() && #[trigger] s_old[j0].0@ == k2;
                        assert(j0 != i);
                        let j = if j0 < i { j0 } else { j0 - 1 };
                        assert(s_new[j].0@ == k2);
                    }
                    assert(entries_map(s_new) =~= entries_map(s_old).remove(key@));
                }
            },
            None => {
                proof {
                    assert(!entries_map(s_old).contains_key(key@));
                    assert(entries_map(s_old).remove(key@) =~= entries_map(s_old));
                }
            },
        }
    }

    fn len(&self) -> (r: usize) {
        proof {
            lemma_entries_map(self.entries@);
        }
        self.entries.len()
    }

    fn keys(&self) -> (r: Vec<Vec<u8>>) {
        proof {
            lemma_entries_map(self.entries@);
        }
        let mut result: Vec<Vec<u8>> = Vec::new();
        let mut i: usize = 0;
        while i < self.entries.len()
            invariant
                i <= self.entries@.len(),
                result@.len() == i,
                forall|j: int| 0 <= j < i ==> result@[j]@ == self.entries@[j].0@,
            decreases self.entries@.len() - i,
        {
            result.push(self.entries[i].0.clone());
            i = i + 1;
        }
        proof {
            let keys_view = result@.map_values(|k: Vec<u8>| k@);
            assert forall|p: int, q: int| 0 <= p < q < keys_view.len() implies keys_view[p]
                != keys_view[q] by {
                assert(keys_view[p] == self.entries@[p].0@);
                assert(keys_view[q] == self.entries@[q].0@);
            }
            assert(keys_view.no_duplicates());
            assert forall|k: Seq<u8>| self.model().contains_key(k) implies exists|j: int|
                0 <= j < result@.len() && result@[j]@ == k by {
                let j = choose|j: int|
                    0 <= j < self.entries@.len() && #[trigger] self.entries@[j].0@ == k;
                assert(result@[j]@ == k);
            }
        }
        result
    }

    fn iter(&self) -> (r: &Vec<(Vec<u8>, Metadata)>) {
        proof {
            lemma_entries_map(self.entries@);
            assert(self.entries@.map_values(|p: (Vec<u8>, Metadata)| (p.0@, p.1))
                =~= self.entry_seq());
            assert forall|k: Seq<u8>| self.model().contains_key(k) implies exists|i: int|
                0 <= i < self.entry_seq().len() && #[trigger] self.entry_seq()[i].0 == k by {
                let j = choose|j: int|
                    0 <= j < self.entries@.len() && #[trigger] self.entries@[j].0@ == k;
                assert(self.entry_seq()[j].0 == k);
            }
        }
        &self.entries
    }

    fn extend(&mut self, items: Vec<(Vec<u8>, Metadata)>) {
        let ghost m_old = self.model();
        let mut i: usize = 0;
        while i < items.len()
            invariant
                i <= items@.len(),
                self.inv(),
                self.model() == m_old.union_prefer_right(
                    entries_map(items@.subrange(0, i as int)),
                ),
            decreases items@.len() - i,
        {
            let ghost pre = items@.subrange(0, i as int);
            self.set(&items[i].0, items[i].1);
            proof {
                let cur = items@.subrange(0, i + 1 as int);
                assert(cur.drop_last() =~= pre);
                assert(cur.last() == items@[i as int]);
                assert(entries_map(cur) == entries_map(pre).insert(
                    items@[i as int].0@,
                    items@[i as int].1,
                ));
                assert(m_old.union_prefer_right(entries_map(pre)).insert(
                    items@[i as int].0@,
                    items@[i as int].1,
                ) =~= m_old.union_prefer_right(entries_map(cur)));
            }
            i = i + 1;
        }
        proof {
            assert(items@.subrange(0, items@.len() as int) =~= items@);
        }
    }

    fn update_key(&mut self, file_id: u16) {
        proof {
            lemma_entries_map(self.entries@);
        }
        let ghost s_old = self.entries@;
        let mut i: usize = 0;
        while i < self.entries.len()
            invariant
                i <= self.entries@.len(),
                self.entries@.len() == s_old.len(),
                forall|j: int|
                    i <= j < s_old.len() ==> self.entries@[j] == s_old[j],
                forall|j: int|
                    0 <= j < i ==> self.entries@[j] == (
                    s_old[j].0,
                    if s_old[j].1.file_id == 0 {
                        Metadata { file_id, ..s_old[j].1 }
                    } else {
                        s_old[j].1
                    },
                ),
            decreases self.entries@.len() - i,
        {
            if self.entries[i].1.file_id == 0 {
                let elem = vstd::std_specs::vec::vec_index_mut(&mut self.entries, i);
                elem.1.file_id = file_id;
            }
            i = i + 1;
        }
        proof {
            let s_new = self.entries@;
            assert(forall|j: int| 0 <= j < s_new.len() ==> s_new[j].0@ == s_old[j].0@);
            lemma_entries_map(s_new);
            let target = Map::<Seq<u8>, Metadata>::new(
                |k: Seq<u8>| entries_map(s_old).contains_key(k),
                |k: Seq<u8>|
                    if entries_map(s_old)[k].file_id == 0 {
                        Metadata { file_id, ..entries_map(s_old)[k] }
                    } else {
                        entries_map(s_old)[k]
                    },
            );
            assert forall|k2: Seq<u8>| #[trigger] entries_map(s_new).contains_key(k2)
                implies target.contains_key(k2) && entries_map(s_new)[k2] == target[k2] by {
                let j = choose|j: int| 0 <= j < s_new.len() && #[trigger] s_new[j].0@ == k2;
                assert(s_old[j].0@ == k2);
                assert(entries_map(s_old)[k2] == s_old[j].1);
                assert(entries_map(s_new)[k2] == s_new[j].1);
            }
            assert forall|k2: Seq<u8>| #[trigger] target.contains_key(k2) implies entries_map(
                s_new,
            ).contains_key(k2) by {
                let j = choose|j: int| 0 <= j < s_old.len() && #[trigger] s_old[j].0@ == k2;
                assert(s_new[j].0@ == k2);
            }
            assert(entries_map(s_new) =~= target);
        }
    }
}

} // verus!
