//! Group store: a transactional, lazily materialized view over stored
//! group blobs. Each transaction decodes a blob at most once, mutates the
//! cached member map, and at commit re-encodes dirty groups or deletes
//! the key when the map became empty.

use vstd::prelude::*;
use crate::tag::{StructTag, TagModel, clone_bytes, clone_tag, suffix, tag_model};
use crate::codec::{
    CorruptBlob, EntryModel, blob_bytes, decode, encodable_tag, encode, spec_decode,
};
use crate::member_map::{MemberMap, lookup};
use crate::tracker::{ConflictTracker, GroupKey, KeyModel, clone_key, key_eq, key_model};

verus! {

/// The blob stored under `k`, scanning newest slot first; a tombstone or
/// no slot at all both mean the key is absent.
pub open spec fn slot_at(s: Seq<(GroupKey, Option<Vec<u8>>)>, k: KeyModel) -> Option<Seq<u8>>
    decreases s.len(),
{
    if s.len() == 0 {
        None
    } else if key_model(s[0].0) == k {
        match s[0].1 {
            Some(v) => Some(v@),
            None => None,
        }
    } else {
        slot_at(s.subrange(1, s.len() as int), k)
    }
}

/// The shared, versioned backing key-value store, seen as the snapshot a
/// transaction reads: newest write to a key wins.
pub struct Storage {
    pub slots: Vec<(GroupKey, Option<Vec<u8>>)>,
}

impl Storage {
    pub open spec fn blob_at(self, k: KeyModel) -> Option<Seq<u8>> {
        slot_at(self.slots@, k)
    }

    /// An empty store holds no blob.
    pub fn new() -> (r: Storage)
        ensures
            forall|k: KeyModel| r.blob_at(k) is None,
    {
        let r = Storage { slots: Vec::new() };
        r
    }

    /// Stores `blob` under `key`, replacing whatever was visible there.
    pub fn write_blob(&mut self, key: GroupKey, blob: Vec<u8>)
        ensures
            final(self).blob_at(key_model(key)) == Some(blob@),
            forall|k: KeyModel| k != key_model(key) ==>
                #[trigger] final(self).blob_at(k) == old(self).blob_at(k),
    {
        let ghost km = key_model(key);
        self.slots.insert(0, (key, Some(blob)));
        proof {
            assert(self.slots@.subrange(1, self.slots@.len() as int) =~= old(self).slots@);
        }
    }

    /// Deletes the key: afterwards no blob is visible under it.
    pub fn delete_blob(&mut self, key: GroupKey)
        ensures
            final(self).blob_at(key_model(key)) is None,
            forall|k: KeyModel| k != key_model(key) ==>
                #[trigger] final(self).blob_at(k) == old(self).blob_at(k),
    {
        self.slots.insert(0, (key, None));
        proof {
            assert(self.slots@.subrange(1, self.slots@.len() as int) =~= old(self).slots@);
        }
    }

    /// The blob currently visible under `key`, if any.
    #[verifier::loop_isolation(false)]
    pub fn get_blob(&self, key: &GroupKey) -> (r: Option<&Vec<u8>>)
        ensures
            match r {
                Some(v) => self.blob_at(key_model(*key)) == Some(v@),
                None => self.blob_at(key_model(*key)) is None,
            },
    {
        let ghost km = key_model(*key);
        let n = self.slots.len();
        let mut i: usize = 0;
        proof {
            assert(suffix(self.slots@, 0) =~= self.slots@);
        }
        while i < n
            invariant
                i <= n,
                n == self.slots@.len(),
                self.blob_at(km) == slot_at(suffix(self.slots@, i as int), km),
            decreases n - i,
        {
            let ghost s = suffix(self.slots@, i as int);
            proof {
                assert(s[0] == self.slots@[i as int]);
                assert(s.subrange(1, s.len() as int) =~= suffix(self.slots@, i + 1));
            }
            if key_eq(&self.slots[i].0, key) {
                match &self.slots[i].1 {
                    Some(v) => {
                        return Some(v);
                    },
                    None => {
                        return None;
                    },
                }
            }
            i = i + 1;
        }
        None
    }
}

/// One group's working set inside a transaction: the decoded member map,
/// dirt flags, and whether a blob existed when the group was loaded.
pub struct GroupRecord {
    pub map: MemberMap,
    pub dirty: bool,
    pub base_exists: bool,
    pub dirty_members: Vec<StructTag>,
}

/// First cached record for `k`, if the group was touched already.
pub open spec fn rec_lookup(s: Seq<(GroupKey, GroupRecord)>, k: KeyModel) -> Option<GroupRecord>
    decreases s.len(),
{
    if s.len() == 0 {
        None
    } else if key_model(s[0].0) == k {
        Some(s[0].1)
    } else {
        rec_lookup(s.subrange(1, s.len() as int), k)
    }
}

pub proof fn lemma_rec_found(s: Seq<(GroupKey, GroupRecord)>, k: KeyModel, i: int)
    requires
        0 <= i < s.len(),
        key_model(s[i].0) == k,
        forall|j: int| 0 <= j < i ==> key_model((#[trigger] s[j]).0) != k,
    ensures
        rec_lookup(s, k) == Some(s[i].1),
    decreases i,
{
    if i > 0 {
        lemma_rec_found(s.subrange(1, s.len() as int), k, i - 1);
    }
}

pub proof fn lemma_rec_absent(s: Seq<(GroupKey, GroupRecord)>, k: KeyModel)
    requires
        forall|j: int| 0 <= j < s.len() ==> key_model((#[trigger] s[j]).0) != k,
    ensures
        rec_lookup(s, k) is None,
    decreases s.len(),
{
    if s.len() > 0 {
        lemma_rec_absent(s.subrange(1, s.len() as int), k);
    }
}

pub proof fn lemma_rec_push(s: Seq<(GroupKey, GroupRecord)>, e: (GroupKey, GroupRecord), q: KeyModel)
    ensures
        rec_lookup(s.push(e), q) == (if rec_lookup(s, q) is Some {
            rec_lookup(s, q)
        } else if key_model(e.0) == q {
            Some(e.1)
        } else {
            None::<GroupRecord>
        }),
    decreases s.len(),
{
    if s.len() == 0 {
        assert(s.push(e)[0] == e);
        if key_model(e.0) != q {
            assert(s.push(e).subrange(1, 1) =~= Seq::<(GroupKey, GroupRecord)>::empty());
            assert(rec_lookup(Seq::<(GroupKey, GroupRecord)>::empty(), q) is None);
        }
    } else {
        assert(s.push(e)[0] == s[0]);
        let rest = s.subrange(1, s.len() as int);
        assert(s.push(e).subrange(1, s.push(e).len() as int) =~= rest.push(e));
        lemma_rec_push(rest, e, q);
    }
}

pub proof fn lemma_rec_update_other(
    s: Seq<(GroupKey, GroupRecord)>,
    i: int,
    r2: GroupRecord,
    q: KeyModel,
)
    requires
        0 <= i < s.len(),
        key_model(s[i].0) != q,
    ensures
        rec_lookup(s.update(i, (s[i].0, r2)), q) == rec_lookup(s, q),
    decreases i,
{
    let s2 = s.update(i, (s[i].0, r2));
    if i == 0 {
        assert(s2.subrange(1, s2.len() as int) =~= s.subrange(1, s.len() as int));
    } else {
        assert(s2[0] == s[0]);
        if key_model(s[0].0) != q {
            let rest = s.subrange(1, s.len() as int);
            assert(s2.subrange(1, s2.len() as int) =~= rest.update(i - 1, (rest[i - 1].0, r2)));
            lemma_rec_update_other(rest, i - 1, r2, q);
        }
    }
}

pub proof fn lemma_rec_update_same(s: Seq<(GroupKey, GroupRecord)>, i: int, r2: GroupRecord)
    requires
        0 <= i < s.len(),
        forall|j: int| 0 <= j < i ==> key_model((#[trigger] s[j]).0) != key_model(s[i].0),
    ensures
        rec_lookup(s.update(i, (s[i].0, r2)), key_model(s[i].0)) == Some(r2),
{
    let s2 = s.update(i, (s[i].0, r2));
    assert forall|j: int| 0 <= j < i implies key_model((#[trigger] s2[j]).0) != key_model(s2[i].0) by {
        assert(s2[j] == s[j]);
    }
    lemma_rec_found(s2, key_model(s[i].0), i);
}

/// One transaction's private view of the group storage layer: the
/// snapshot it reads, its lazily loaded group records, and its tracker.
pub struct TxnContext {
    pub base: Storage,
    pub records: Vec<(GroupKey, GroupRecord)>,
    pub tracker: ConflictTracker,
}

impl TxnContext {
    /// The cached record for `k`, if this transaction touched the group.
    pub open spec fn rec_of(self, k: KeyModel) -> Option<GroupRecord> {
        rec_lookup(self.records@, k)
    }

    pub open spec fn cached(self, k: KeyModel) -> bool {
        self.rec_of(k) is Some
    }

    pub open spec fn base_blob(self, k: KeyModel) -> Option<Seq<u8>> {
        self.base.blob_at(k)
    }

    /// Whether loading the group would not hit a corrupt blob.
    pub open spec fn loads_clean(self, k: KeyModel) -> bool {
        match self.base_blob(k) {
            None => true,
            Some(bb) => spec_decode(bb) is Some,
        }
    }

    /// The member entries the snapshot holds for `k`.
    pub open spec fn decoded_base(self, k: KeyModel) -> Seq<EntryModel> {
        match self.base_blob(k) {
            None => Seq::empty(),
            Some(bb) => match spec_decode(bb) {
                Some(es) => es,
                None => Seq::empty(),
            },
        }
    }

    /// The member entries this transaction currently sees for `k`:
    /// its own cached (possibly mutated) map, else the snapshot's.
    pub open spec fn group_entries(self, k: KeyModel) -> Seq<EntryModel> {
        match self.rec_of(k) {
            Some(r) => r.map.model(),
            None => self.decoded_base(k),
        }
    }

    /// Whether the group currently exists for this transaction.
    pub open spec fn group_exists(self, k: KeyModel) -> bool {
        self.group_entries(k).len() > 0
    }

    /// Cached records have distinct keys and well-formed maps.
    pub open spec fn wf(self) -> bool {
        &&& forall|i: int, j: int| 0 <= i < j < self.records@.len() ==>
            key_model((#[trigger] self.records@[i]).0) != key_model((#[trigger] self.records@[j]).0)
        &&& forall|i: int| 0 <= i < self.records@.len() ==>
            (#[trigger] self.records@[i]).1.map.wf()
    }

    /// Opens a transactional context over a snapshot of the store.
    pub fn begin(base: Storage) -> (r: TxnContext)
        ensures
            r.wf(),
            r.base == base,
            forall|k: KeyModel| !(#[trigger] r.cached(k)),
            forall|k: KeyModel| #[trigger] r.group_entries(k) == r.decoded_base(k),
            forall|k: KeyModel, m: TagModel|
                !r.tracker.has_member_read(k, m) && !r.tracker.has_member_write(k, m),
            forall|k: KeyModel| !r.tracker.has_group_read(k),
    {
        let r = TxnContext { base, records: Vec::new(), tracker: ConflictTracker::new() };
        r
    }

    /// Loads the group into the cache if it is not there yet; yields the
    /// record's position. Fails only on a corrupt stored blob.
    #[verifier::loop_isolation(false)]
    fn load(&mut self, key: &GroupKey) -> (r: Result<usize, CorruptBlob>)
        requires
            old(self).wf(),
        ensures
            final(self).base == old(self).base,
            final(self).tracker == old(self).tracker,
            match r {
                Ok(i) => {
                    &&& final(self).wf()
                    &&& (old(self).cached(key_model(*key))
                        || old(self).loads_clean(key_model(*key)))
                    &&& i < final(self).records@.len()
                    &&& key_model(final(self).records@[i as int].0) == key_model(*key)
                    &&& forall|j: int| 0 <= j < i ==>
                        key_model((#[trigger] final(self).records@[j]).0) != key_model(*key)
                    &&& final(self).rec_of(key_model(*key))
                        == Some(final(self).records@[i as int].1)
                    &&& forall|k2: KeyModel| #[trigger] final(self).group_entries(k2)
                        == old(self).group_entries(k2)
                    &&& forall|k2: KeyModel| #[trigger] final(self).cached(k2)
                        == (old(self).cached(k2) || k2 == key_model(*key))
                    &&& (!old(self).cached(key_model(*key)) ==> {
                        &&& !final(self).records@[i as int].1.dirty
                        &&& final(self).records@[i as int].1.base_exists
                            == (old(self).base_blob(key_model(*key)) is Some)
                    })
                    &&& (old(self).cached(key_model(*key)) ==> *final(self) == *old(self))
                },
                Err(_) => {
                    &&& *final(self) == *old(self)
                    &&& !old(self).cached(key_model(*key))
                    &&& !old(self).loads_clean(key_model(*key))
                },
            },
    {
        let ghost km = key_model(*key);
        let n = self.records.len();
        let mut i: usize = 0;
        while i < n
            invariant
                i <= n,
                n == self.records@.len(),
                forall|j: int| 0 <= j < i ==>
                    key_model((#[trigger] self.records@[j]).0) != km,
            decreases n - i,
        {
            if key_eq(&self.records[i].0, key) {
                proof {
                    lemma_rec_found(self.records@, km, i as int);
                }
                return Ok(i);
            }
            i = i + 1;
        }
        proof {
            lemma_rec_absent(self.records@, km);
        }
        let rec = match self.base.get_blob(key) {
            None => GroupRecord {
                map: MemberMap::new(),
                dirty: false,
                base_exists: false,
                dirty_members: Vec::new(),
            },
            Some(bv) => match decode(bv) {
                Ok(m) => GroupRecord {
                    map: m,
                    dirty: false,
                    base_exists: true,
                    dirty_members: Vec::new(),
                },
                Err(e) => {
                    return Err(e);
                },
            },
        };
        let ghost pre = self.records@;
        let entry = (clone_key(key), rec);
        proof {
            assert(rec_lookup(pre, km) is None);
        }
        self.records.push(entry);
        let idx = self.records.len() - 1;
        proof {
            assert(self.records@ == pre.push(entry));
            assert forall|k2: KeyModel| #[trigger] rec_lookup(self.records@, k2)
                == (if k2 == km { Some(entry.1) } else { rec_lookup(pre, k2) }) by {
                lemma_rec_push(pre, entry, k2);
            }
            assert(self.records@[idx as int] == entry);
            assert forall|k2: KeyModel| #[trigger] self.group_entries(k2)
                == old(self).group_entries(k2) by {
                if k2 == km {
                    assert(entry.1.map.model() =~= old(self).decoded_base(km));
                }
            }
            assert forall|ii: int, jj: int| 0 <= ii < jj < self.records@.len() implies
                key_model((#[trigger] self.records@[ii]).0)
                    != key_model((#[trigger] self.records@[jj]).0) by {
                if jj < pre.len() {
                    assert(self.records@[ii] == pre[ii] && self.records@[jj] == pre[jj]);
                } else {
                    assert(self.records@[ii] == pre[ii]);
                }
            }
        }
        Ok(idx)
    }

    /// Reads one member's bytes, logging a per-member read. Absence of
    /// the member is not an error; a corrupt stored blob is.
    pub fn get_member(&mut self, key: &GroupKey, member: &StructTag)
        -> (r: Result<Option<Vec<u8>>, CorruptBlob>)
        requires
            old(self).wf(),
        ensures
            final(self).wf(),
            final(self).base == old(self).base,
            forall|k2: KeyModel| #[trigger] final(self).group_entries(k2)
                == old(self).group_entries(k2),
            forall|k: KeyModel, m: TagModel| final(self).tracker.has_member_read(k, m) == (
                old(self).tracker.has_member_read(k, m)
                    || (k == key_model(*key) && m == tag_model(*member))
            ),
            forall|k: KeyModel, m: TagModel| final(self).tracker.has_member_write(k, m)
                == old(self).tracker.has_member_write(k, m),
            forall|k: KeyModel| final(self).tracker.has_group_read(k)
                == old(self).tracker.has_group_read(k),
            match r {
                Ok(v) => {
                    &&& (old(self).cached(key_model(*key))
                        || old(self).loads_clean(key_model(*key)))
                    &&& match v {
                        Some(bytes) => lookup(old(self).group_entries(key_model(*key)),
                            tag_model(*member)) == Some(bytes@),
                        None => lookup(old(self).group_entries(key_model(*key)),
                            tag_model(*member)) is None,
                    }
                },
                Err(_) => {
                    &&& !old(self).cached(key_model(*key))
                    &&& !old(self).loads_clean(key_model(*key))
                },
            },
    {
        self.tracker.record_member_read(key, member);
        let i = match self.load(key) {
            Err(e) => {
                return Err(e);
            },
            Ok(i) => i,
        };
        proof {
            assert(self.rec_of(key_model(*key)) == Some(self.records@[i as int].1));
            assert(self.group_entries(key_model(*key)) == self.records@[i as int].1.map.model());
            assert(self.group_entries(key_model(*key)) == old(self).group_entries(key_model(*key)));
        }
        match self.records[i].1.map.get(member) {
            Some(v) => Ok(Some(clone_bytes(v))),
            None => Ok(None),
        }
    }
}

impl TxnContext {
    /// Inserts or replaces one member's bytes, logging a per-member
    /// write; other members' bytes stay byte-identical. Creates the
    /// group record if the group did not previously exist.
    pub fn set_member(&mut self, key: &GroupKey, member: &StructTag, value: Vec<u8>)
        -> (r: Result<(), CorruptBlob>)
        requires
            old(self).wf(),
            encodable_tag(tag_model(*member)),
        ensures
            final(self).wf(),
            final(self).base == old(self).base,
            forall|k: KeyModel, m: TagModel| final(self).tracker.has_member_write(k, m) == (
                old(self).tracker.has_member_write(k, m)
                    || (k == key_model(*key) && m == tag_model(*member))
            ),
            forall|k: KeyModel, m: TagModel| final(self).tracker.has_member_read(k, m)
                == old(self).tracker.has_member_read(k, m),
            forall|k: KeyModel| final(self).tracker.has_group_read(k)
                == old(self).tracker.has_group_read(k),
            match r {
                Ok(_) => {
                    &&& (old(self).cached(key_model(*key))
                        || old(self).loads_clean(key_model(*key)))
                    &&& lookup(final(self).group_entries(key_model(*key)), tag_model(*member))
                        == Some(value@)
                    &&& forall|q: TagModel| q != tag_model(*member) ==>
                        #[trigger] lookup(final(self).group_entries(key_model(*key)), q)
                            == lookup(old(self).group_entries(key_model(*key)), q)
                    &&& forall|k2: KeyModel| k2 != key_model(*key) ==>
                        #[trigger] final(self).group_entries(k2) == old(self).group_entries(k2)
                    &&& final(self).cached(key_model(*key))
                    &&& final(self).rec_of(key_model(*key))->Some_0.dirty
                },
                Err(_) => {
                    &&& !old(self).cached(key_model(*key))
                    &&& !old(self).loads_clean(key_model(*key))
                    &&& forall|k2: KeyModel| #[trigger] final(self).group_entries(k2)
                        == old(self).group_entries(k2)
                },
            },
    {
        let ghost km = key_model(*key);
        let ghost tm = tag_model(*member);
        self.tracker.record_member_write(key, member);
        let ghost pre_load = *self;
        let i = match self.load(key) {
            Err(e) => {
                proof {
                    assert forall|k2: KeyModel| #[trigger] self.group_entries(k2)
                        == old(self).group_entries(k2) by {
                        assert(self.rec_of(k2) == old(self).rec_of(k2));
                        assert(self.base == old(self).base);
                    }
                }
                return Err(e);
            },
            Ok(i) => i,
        };
        let ghost mid = *self;
        let ghost pre = self.records@;
        proof {
            assert(mid.group_entries(km) == old(self).group_entries(km)) by {
                assert(mid.group_entries(km) == pre_load.group_entries(km));
                assert(pre_load.rec_of(km) == old(self).rec_of(km));
                assert(pre_load.base == old(self).base);
            }
            assert(mid.rec_of(km) == Some(pre[i as int].1));
            assert(mid.group_entries(km) == pre[i as int].1.map.model());
        }
        let (k, mut rec) = self.records.remove(i);
        let ghost oldmap = rec.map.model();
        rec.map.set(clone_tag(member), value);
        rec.dirty = true;
        rec.dirty_members.push(clone_tag(member));
        self.records.insert(i, (k, rec));
        proof {
            assert(self.records@ =~= pre.update(i as int, (pre[i as int].0, rec)));
            lemma_rec_update_same(pre, i as int, rec);
            assert(self.rec_of(km) == Some(rec));
            assert forall|k2: KeyModel| k2 != km implies
                #[trigger] self.group_entries(k2) == old(self).group_entries(k2) by {
                lemma_rec_update_other(pre, i as int, rec, k2);
                assert(self.rec_of(k2) == mid.rec_of(k2));
                assert(self.base == mid.base);
                assert(self.group_entries(k2) == mid.group_entries(k2));
                assert(mid.group_entries(k2) == pre_load.group_entries(k2));
                assert(pre_load.rec_of(k2) == old(self).rec_of(k2));
                assert(pre_load.base == old(self).base);
            }
            assert forall|ii: int, jj: int| 0 <= ii < jj < self.records@.len() implies
                key_model((#[trigger] self.records@[ii]).0)
                    != key_model((#[trigger] self.records@[jj]).0) by {
                assert(key_model(self.records@[ii].0) == key_model(pre[ii].0));
                assert(key_model(self.records@[jj].0) == key_model(pre[jj].0));
            }
            assert forall|ii: int| 0 <= ii < self.records@.len() implies
                (#[trigger] self.records@[ii]).1.map.wf() by {
                if ii != i {
                    assert(self.records@[ii] == pre[ii]);
                }
            }
        }
        Ok(())
    }

    /// Removes one member if present, logging a per-member write (a
    /// removal is a write for conflict purposes); reports whether the
    /// member was there.
    pub fn remove_member(&mut self, key: &GroupKey, member: &StructTag)
        -> (r: Result<bool, CorruptBlob>)
        requires
            old(self).wf(),
        ensures
            final(self).wf(),
            final(self).base == old(self).base,
            forall|k: KeyModel, m: TagModel| final(self).tracker.has_member_write(k, m) == (
                old(self).tracker.has_member_write(k, m)
                    || (k == key_model(*key) && m == tag_model(*member))
            ),
            forall|k: KeyModel, m: TagModel| final(self).tracker.has_member_read(k, m)
                == old(self).tracker.has_member_read(k, m),
            forall|k: KeyModel| final(self).tracker.has_group_read(k)
                == old(self).tracker.has_group_read(k),
            match r {
                Ok(present) => {
                    &&& (old(self).cached(key_model(*key))
                        || old(self).loads_clean(key_model(*key)))
                    &&& present == (lookup(old(self).group_entries(key_model(*key)),
                        tag_model(*member)) is Some)
                    &&& lookup(final(self).group_entries(key_model(*key)), tag_model(*member))
                        is None
                    &&& forall|q: TagModel| q != tag_model(*member) ==>
                        #[trigger] lookup(final(self).group_entries(key_model(*key)), q)
                            == lookup(old(self).group_entries(key_model(*key)), q)
                    &&& final(self).group_entries(key_model(*key)).len()
                        == old(self).group_entries(key_model(*key)).len()
                            - (if present { 1int } else { 0int })
                    &&& forall|k2: KeyModel| k2 != key_model(*key) ==>
                        #[trigger] final(self).group_entries(k2) == old(self).group_entries(k2)
                    &&& final(self).cached(key_model(*key))
                    &&& final(self).rec_of(key_model(*key))->Some_0.dirty
                },
                Err(_) => {
                    &&& !old(self).cached(key_model(*key))
                    &&& !old(self).loads_clean(key_model(*key))
                    &&& forall|k2: KeyModel| #[trigger] final(self).group_entries(k2)
                        == old(self).group_entries(k2)
                },
            },
    {
        let ghost km = key_model(*key);
        self.tracker.record_member_write(key, member);
        let ghost pre_load = *self;
        let i = match self.load(key) {
            Err(e) => {
                proof {
                    assert forall|k2: KeyModel| #[trigger] self.group_entries(k2)
                        == old(self).group_entries(k2) by {
                        assert(self.rec_of(k2) == old(self).rec_of(k2));
                        assert(self.base == old(self).base);
                    }
                }
                return Err(e);
            },
            Ok(i) => i,
        };
        let ghost mid = *self;
        let ghost pre = self.records@;
        proof {
            assert(mid.group_entries(km) == old(self).group_entries(km)) by {
                assert(mid.group_entries(km) == pre_load.group_entries(km));
                assert(pre_load.rec_of(km) == old(self).rec_of(km));
                assert(pre_load.base == old(self).base);
            }
            assert(mid.rec_of(km) == Some(pre[i as int].1));
            assert(mid.group_entries(km) == pre[i as int].1.map.model());
        }
        let (k, mut rec) = self.records.remove(i);
        let present = rec.map.remove(member);
        rec.dirty = true;
        rec.dirty_members.push(clone_tag(member));
        self.records.insert(i, (k, rec));
        proof {
            assert(self.records@ =~= pre.update(i as int, (pre[i as int].0, rec)));
            lemma_rec_update_same(pre, i as int, rec);
            assert(self.rec_of(km) == Some(rec));
            assert forall|k2: KeyModel| k2 != km implies
                #[trigger] self.group_entries(k2) == old(self).group_entries(k2) by {
                lemma_rec_update_other(pre, i as int, rec, k2);
                assert(self.rec_of(k2) == mid.rec_of(k2));
                assert(self.base == mid.base);
                assert(self.group_entries(k2) == mid.group_entries(k2));
                assert(mid.group_entries(k2) == pre_load.group_entries(k2));
                assert(pre_load.rec_of(k2) == old(self).rec_of(k2));
                assert(pre_load.base == old(self).base);
            }
            assert forall|ii: int, jj: int| 0 <= ii < jj < self.records@.len() implies
                key_model((#[trigger] self.records@[ii]).0)
                    != key_model((#[trigger] self.records@[jj]).0) by {
                assert(key_model(self.records@[ii].0) == key_model(pre[ii].0));
                assert(key_model(self.records@[jj].0) == key_model(pre[jj].0));
            }
            assert forall|ii: int| 0 <= ii < self.records@.len() implies
                (#[trigger] self.records@[ii]).1.map.wf() by {
                if ii != i {
                    assert(self.records@[ii] == pre[ii]);
                }
            }
        }
        Ok(present)
    }

    /// Whether a blob is present for `key` from this transaction's point
    /// of view; logs a whole-group read.
    pub fn exists_group(&mut self, key: &GroupKey) -> (r: Result<bool, CorruptBlob>)
        requires
            old(self).wf(),
        ensures
            final(self).wf(),
            final(self).base == old(self).base,
            forall|k2: KeyModel| #[trigger] final(self).group_entries(k2)
                == old(self).group_entries(k2),
            forall|k: KeyModel| final(self).tracker.has_group_read(k) == (
                old(self).tracker.has_group_read(k) || k == key_model(*key)
            ),
            forall|k: KeyModel, m: TagModel| final(self).tracker.has_member_read(k, m)
                == old(self).tracker.has_member_read(k, m),
            forall|k: KeyModel, m: TagModel| final(self).tracker.has_member_write(k, m)
                == old(self).tracker.has_member_write(k, m),
            match r {
                Ok(b) => {
                    &&& (old(self).cached(key_model(*key))
                        || old(self).loads_clean(key_model(*key)))
                    &&& b == old(self).group_exists(key_model(*key))
                },
                Err(_) => {
                    &&& !old(self).cached(key_model(*key))
                    &&& !old(self).loads_clean(key_model(*key))
                },
            },
    {
        self.tracker.record_group_read(key);
        let i = match self.load(key) {
            Err(e) => {
                return Err(e);
            },
            Ok(i) => i,
        };
        proof {
            assert(self.rec_of(key_model(*key)) == Some(self.records@[i as int].1));
            assert(self.group_entries(key_model(*key))
                == self.records@[i as int].1.map.model());
            assert(self.group_entries(key_model(*key))
                == old(self).group_entries(key_model(*key)));
        }
        let n = self.records[i].1.map.len();
        Ok(n > 0)
    }

    /// The member tags of the group, in canonical order; logs a
    /// whole-group read, since the whole listing is order-sensitive.
    pub fn list_members(&mut self, key: &GroupKey) -> (r: Result<Vec<StructTag>, CorruptBlob>)
        requires
            old(self).wf(),
        ensures
            final(self).wf(),
            final(self).base == old(self).base,
            forall|k2: KeyModel| #[trigger] final(self).group_entries(k2)
                == old(self).group_entries(k2),
            forall|k: KeyModel| final(self).tracker.has_group_read(k) == (
                old(self).tracker.has_group_read(k) || k == key_model(*key)
            ),
            forall|k: KeyModel, m: TagModel| final(self).tracker.has_member_read(k, m)
                == old(self).tracker.has_member_read(k, m),
            forall|k: KeyModel, m: TagModel| final(self).tracker.has_member_write(k, m)
                == old(self).tracker.has_member_write(k, m),
            match r {
                Ok(ts) => {
                    &&& (old(self).cached(key_model(*key))
                        || old(self).loads_clean(key_model(*key)))
                    &&& ts@.len() == old(self).group_entries(key_model(*key)).len()
                    &&& forall|ii: int| 0 <= ii < ts@.len() ==>
                        tag_model(#[trigger] ts@[ii])
                            == old(self).group_entries(key_model(*key))[ii].0
                },
                Err(_) => {
                    &&& !old(self).cached(key_model(*key))
                    &&& !old(self).loads_clean(key_model(*key))
                },
            },
    {
        self.tracker.record_group_read(key);
        let i = match self.load(key) {
            Err(e) => {
                return Err(e);
            },
            Ok(i) => i,
        };
        proof {
            assert(self.rec_of(key_model(*key)) == Some(self.records@[i as int].1));
            assert(self.group_entries(key_model(*key))
                == self.records@[i as int].1.map.model());
            assert(self.group_entries(key_model(*key))
                == old(self).group_entries(key_model(*key)));
        }
        Ok(self.records[i].1.map.tags())
    }
}

/// The storage effect a committed record asks for: re-encode the map,
/// or delete the key outright if the map became empty.
pub open spec fn op_value(r: GroupRecord) -> Option<Seq<u8>> {
    if r.map.model().len() == 0 {
        None
    } else {
        Some(blob_bytes(r.map.model()))
    }
}

pub open spec fn record_op(e: (GroupKey, GroupRecord)) -> Seq<(KeyModel, Option<Seq<u8>>)> {
    if e.1.dirty {
        seq![(key_model(e.0), op_value(e.1))]
    } else {
        Seq::empty()
    }
}

/// The storage writes and deletes a commit of these records emits.
pub open spec fn commit_ops(s: Seq<(GroupKey, GroupRecord)>) -> Seq<(KeyModel, Option<Seq<u8>>)>
    decreases s.len(),
{
    if s.len() == 0 {
        Seq::empty()
    } else {
        record_op(s[0]) + commit_ops(s.subrange(1, s.len() as int))
    }
}

pub proof fn lemma_commit_ops_push(s: Seq<(GroupKey, GroupRecord)>, e: (GroupKey, GroupRecord))
    ensures
        commit_ops(s.push(e)) == commit_ops(s) + record_op(e),
    decreases s.len(),
{
    if s.len() == 0 {
        assert(s.push(e)[0] == e);
        assert(s.push(e).subrange(1, 1) =~= Seq::<(GroupKey, GroupRecord)>::empty());
        assert(commit_ops(Seq::<(GroupKey, GroupRecord)>::empty())
            == Seq::<(KeyModel, Option<Seq<u8>>)>::empty());
        assert(commit_ops(s.push(e)) =~= commit_ops(s) + record_op(e));
    } else {
        assert(s.push(e)[0] == s[0]);
        let rest = s.subrange(1, s.len() as int);
        assert(s.push(e).subrange(1, s.push(e).len() as int) =~= rest.push(e));
        lemma_commit_ops_push(rest, e);
        assert(commit_ops(s.push(e)) == record_op(s[0]) + commit_ops(rest.push(e)));
        assert(commit_ops(s) == record_op(s[0]) + commit_ops(rest));
        assert(record_op(s[0]) + (commit_ops(rest) + record_op(e))
            =~= (record_op(s[0]) + commit_ops(rest)) + record_op(e));
    }
}

/// Model of an emitted op list.
pub open spec fn ops_model(s: Seq<(GroupKey, Option<Vec<u8>>)>) -> Seq<(KeyModel, Option<Seq<u8>>)> {
    s.map(|i: int, e: (GroupKey, Option<Vec<u8>>)| (key_model(e.0), match e.1 {
        Some(v) => Some(v@),
        None => None,
    }))
}

impl TxnContext {
    /// The commit path: for every dirty group record, emit the write of
    /// its re-encoded blob, or the deletion of its key if the member map
    /// became empty. Untouched and clean groups emit nothing.
    #[verifier::loop_isolation(false)]
    pub fn commit(&self) -> (ops: Vec<(GroupKey, Option<Vec<u8>>)>)
        requires
            self.wf(),
        ensures
            ops_model(ops@) == commit_ops(self.records@),
    {
        let mut out: Vec<(GroupKey, Option<Vec<u8>>)> = Vec::new();
        let n = self.records.len();
        let mut i: usize = 0;
        proof {
            assert(self.records@.subrange(0, 0) =~= Seq::<(GroupKey, GroupRecord)>::empty());
            assert(ops_model(out@) =~= commit_ops(self.records@.subrange(0, 0)));
        }
        while i < n
            invariant
                i <= n,
                n == self.records@.len(),
                ops_model(out@) == commit_ops(self.records@.subrange(0, i as int)),
            decreases n - i,
        {
            let ghost pre = out@;
            let rec = &self.records[i].1;
            if rec.dirty {
                if rec.map.len() == 0 {
                    out.push((clone_key(&self.records[i].0), None));
                } else {
                    let blob = encode(&rec.map);
                    out.push((clone_key(&self.records[i].0), Some(blob)));
                }
                proof {
                    assert(ops_model(out@) =~= ops_model(pre).push(
                        record_op(self.records@[i as int])[0]));
                    assert(ops_model(pre).push(record_op(self.records@[i as int])[0])
                        =~= ops_model(pre) + record_op(self.records@[i as int]));
                }
            } else {
                proof {
                    assert(ops_model(out@) =~= ops_model(pre) + record_op(self.records@[i as int]));
                }
            }
            proof {
                lemma_commit_ops_push(self.records@.subrange(0, i as int), self.records@[i as int]);
                assert(self.records@.subrange(0, i + 1)
                    =~= self.records@.subrange(0, i as int).push(self.records@[i as int]));
            }
            i = i + 1;
        }
        proof {
            assert(self.records@.subrange(0, n as int) =~= self.records@);
        }
        out
    }
}

pub proof fn lemma_rec_lookup_index(s: Seq<(GroupKey, GroupRecord)>, k: KeyModel)
    requires
        rec_lookup(s, k) is Some,
    ensures
        exists|i: int| 0 <= i < s.len() && key_model((#[trigger] s[i]).0) == k
            && s[i].1 == rec_lookup(s, k)->Some_0,
    decreases s.len(),
{
    if key_model(s[0].0) == k {
        assert(key_model(s[0].0) == k && s[0].1 == rec_lookup(s, k)->Some_0);
    } else {
        let rest = s.subrange(1, s.len() as int);
        lemma_rec_lookup_index(rest, k);
        let i = choose|i: int| 0 <= i < rest.len() && key_model((#[trigger] rest[i]).0) == k
            && rest[i].1 == rec_lookup(rest, k)->Some_0;
        assert(key_model((s[i + 1]).0) == k && s[i + 1].1 == rec_lookup(s, k)->Some_0);
    }
}

pub proof fn lemma_commit_ops_index(s: Seq<(GroupKey, GroupRecord)>, i: int)
    requires
        0 <= i < s.len(),
        s[i].1.dirty,
    ensures
        commit_ops(s).contains((key_model(s[i].0), op_value(s[i].1))),
    decreases i,
{
    let rest = s.subrange(1, s.len() as int);
    if i == 0 {
        assert(commit_ops(s)[0] == (key_model(s[0].0), op_value(s[0].1)));
    } else {
        lemma_commit_ops_index(rest, i - 1);
        let x = (key_model(s[i].0), op_value(s[i].1));
        let j = choose|j: int| 0 <= j < commit_ops(rest).len() && commit_ops(rest)[j] == x;
        assert(commit_ops(s)[record_op(s[0]).len() + j] == x);
    }
}

/// Delete completeness: a transaction that emptied a group's member map
/// commits a deletion of the group's storage key, never an empty blob.
pub proof fn lemma_delete_completeness(t: TxnContext, k: KeyModel)
    requires
        t.wf(),
        t.rec_of(k) is Some,
        t.rec_of(k)->Some_0.dirty,
        t.rec_of(k)->Some_0.map.model().len() == 0,
    ensures
        commit_ops(t.records@).contains((k, None)),
{
    lemma_rec_lookup_index(t.records@, k);
    let i = choose|i: int| 0 <= i < t.records@.len()
        && key_model((#[trigger] t.records@[i]).0) == k
        && t.records@[i].1 == t.rec_of(k)->Some_0;
    lemma_commit_ops_index(t.records@, i);
}

/// Group disappearance: once a group's member view is empty, the group
/// no longer exists and every member reads as absent.
pub proof fn lemma_group_disappearance(t: TxnContext, k: KeyModel)
    requires
        t.group_entries(k).len() == 0,
    ensures
        !t.group_exists(k),
        forall|q: TagModel| lookup(t.group_entries(k), q) is None,
{
}

/// Applies committed ops to the backing store: the last op for a key
/// decides its blob; untouched keys keep theirs.
pub open spec fn ops_result(s: Seq<(KeyModel, Option<Seq<u8>>)>, k: KeyModel)
    -> Option<Option<Seq<u8>>>
    decreases s.len(),
{
    if s.len() == 0 {
        None
    } else if s[s.len() - 1].0 == k {
        Some(s[s.len() - 1].1)
    } else {
        ops_result(s.subrange(0, s.len() - 1), k)
    }
}

/// Carries a committed op list onto the store, newest-wins per key.
#[verifier::loop_isolation(false)]
pub fn apply_ops(storage: &mut Storage, ops: &Vec<(GroupKey, Option<Vec<u8>>)>)
    ensures
        forall|k: KeyModel| #[trigger] final(storage).blob_at(k) == (
            match ops_result(ops_model(ops@), k) {
                Some(v) => v,
                None => old(storage).blob_at(k),
            }
        ),
{
    let n = ops.len();
    let mut i: usize = 0;
    proof {
        assert(ops_model(ops@).subrange(0, 0) =~= Seq::<(KeyModel, Option<Seq<u8>>)>::empty());
    }
    while i < n
        invariant
            i <= n,
            n == ops@.len(),
            forall|k: KeyModel| #[trigger] storage.blob_at(k) == (
                match ops_result(ops_model(ops@).subrange(0, i as int), k) {
                    Some(v) => v,
                    None => old(storage).blob_at(k),
                }
            ),
        decreases n - i,
    {
        let ghost before = *storage;
        let key = clone_key(&ops[i].0);
        match &ops[i].1 {
            Some(v) => {
                let blob = clone_bytes(v);
                storage.write_blob(key, blob);
            },
            None => {
                storage.delete_blob(key);
            },
        }
        proof {
            let om = ops_model(ops@);
            assert(om.subrange(0, i + 1).subrange(0, i as int) =~= om.subrange(0, i as int));
            assert(om.subrange(0, i + 1)[i as int] == om[i as int]);
            assert(om[i as int].0 == key_model(ops@[i as int].0));
        }
        i = i + 1;
    }
    proof {
        assert(ops_model(ops@).subrange(0, n as int) =~= ops_model(ops@));
    }
}

} // verus!
