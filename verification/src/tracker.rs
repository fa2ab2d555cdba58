//! Conflict tracker: per-transaction read and write sets at member
//! granularity, plus a coarser whole-group read set, so that transactions
//! touching different members of one group need not conflict.

use vstd::prelude::*;
use crate::tag::{
    Address, StructTag, TagModel, TagOrder, bytes_cmp, clone_bytes, clone_tag, tag_cmp, tag_model,
};

verus! {

/// Uniquely addresses one stored group blob: account address + group tag.
pub struct GroupKey {
    pub address: Address,
    pub group: StructTag,
}

/// Mathematical model of a group key.
pub type KeyModel = (Seq<u8>, TagModel);

pub open spec fn key_model(k: GroupKey) -> KeyModel {
    (k.address.bytes@, tag_model(k.group))
}

/// Whether two keys address the same stored blob.
pub fn key_eq(a: &GroupKey, b: &GroupKey) -> (r: bool)
    ensures
        r == (key_model(*a) == key_model(*b)),
{
    let c1 = bytes_cmp(&a.address.bytes, &b.address.bytes);
    if c1 != TagOrder::Equal {
        return false;
    }
    let c2 = tag_cmp(&a.group, &b.group);
    c2 == TagOrder::Equal
}

/// Copies a key; the copy has the same model.
pub fn clone_key(k: &GroupKey) -> (r: GroupKey)
    ensures
        key_model(r) == key_model(*k),
{
    GroupKey { address: Address { bytes: clone_bytes(&k.address.bytes) }, group: clone_tag(&k.group) }
}

/// Model of one member-granular access.
pub type AccessModel = (KeyModel, TagModel);

pub open spec fn accesses_model(s: Seq<(GroupKey, StructTag)>) -> Seq<AccessModel> {
    s.map(|i: int, e: (GroupKey, StructTag)| (key_model(e.0), tag_model(e.1)))
}

pub open spec fn keys_model(s: Seq<GroupKey>) -> Seq<KeyModel> {
    s.map(|i: int, k: GroupKey| key_model(k))
}

pub proof fn lemma_contains_push<T>(s: Seq<T>, x: T, y: T)
    ensures
        s.push(x).contains(y) == (s.contains(y) || y == x),
{
    if s.contains(y) {
        let i = choose|i: int| 0 <= i < s.len() && s[i] == y;
        assert(s.push(x)[i] == y);
    }
    if y == x {
        assert(s.push(x)[s.len() as int] == y);
    }
    if s.push(x).contains(y) {
        let i = choose|i: int| 0 <= i < s.push(x).len() && s.push(x)[i] == y;
        if i < s.len() {
            assert(s[i] == y);
        }
    }
}

/// Per-transaction record of member reads, member writes, and
/// whole-group reads.
pub struct ConflictTracker {
    pub member_reads: Vec<(GroupKey, StructTag)>,
    pub member_writes: Vec<(GroupKey, StructTag)>,
    pub group_reads: Vec<GroupKey>,
}

impl ConflictTracker {
    pub open spec fn has_member_read(self, k: KeyModel, m: TagModel) -> bool {
        accesses_model(self.member_reads@).contains((k, m))
    }

    pub open spec fn has_member_write(self, k: KeyModel, m: TagModel) -> bool {
        accesses_model(self.member_writes@).contains((k, m))
    }

    pub open spec fn has_group_read(self, k: KeyModel) -> bool {
        keys_model(self.group_reads@).contains(k)
    }

    /// A fresh tracker records nothing.
    pub fn new() -> (r: ConflictTracker)
        ensures
            forall|k: KeyModel, m: TagModel| !r.has_member_read(k, m) && !r.has_member_write(k, m),
            forall|k: KeyModel| !r.has_group_read(k),
    {
        let r = ConflictTracker {
            member_reads: Vec::new(),
            member_writes: Vec::new(),
            group_reads: Vec::new(),
        };
        proof {
            assert forall|k: KeyModel, m: TagModel|
                !r.has_member_read(k, m) && !r.has_member_write(k, m) by {
                assert(accesses_model(r.member_reads@).len() == 0);
                assert(accesses_model(r.member_writes@).len() == 0);
            }
            assert forall|k: KeyModel| !r.has_group_read(k) by {
                assert(keys_model(r.group_reads@).len() == 0);
            }
        }
        r
    }

    /// Logs a read of one member of one group.
    pub fn record_member_read(&mut self, key: &GroupKey, member: &StructTag)
        ensures
            forall|k: KeyModel, m: TagModel| final(self).has_member_read(k, m) == (
                old(self).has_member_read(k, m)
                    || (k == key_model(*key) && m == tag_model(*member))
            ),
            forall|k: KeyModel, m: TagModel|
                final(self).has_member_write(k, m) == old(self).has_member_write(k, m),
            forall|k: KeyModel| final(self).has_group_read(k) == old(self).has_group_read(k),
    {
        let ghost pre = accesses_model(self.member_reads@);
        let entry = (clone_key(key), clone_tag(member));
        let ghost em = (key_model(entry.0), tag_model(entry.1));
        self.member_reads.push(entry);
        proof {
            assert(accesses_model(self.member_reads@) =~= pre.push(em));
            assert forall|k: KeyModel, m: TagModel| self.has_member_read(k, m) == (
                old(self).has_member_read(k, m)
                    || (k == key_model(*key) && m == tag_model(*member))
            ) by {
                lemma_contains_push(pre, em, (k, m));
            }
        }
    }

    /// Logs a write (including a removal) of one member of one group.
    pub fn record_member_write(&mut self, key: &GroupKey, member: &StructTag)
        ensures
            forall|k: KeyModel, m: TagModel| final(self).has_member_write(k, m) == (
                old(self).has_member_write(k, m)
                    || (k == key_model(*key) && m == tag_model(*member))
            ),
            forall|k: KeyModel, m: TagModel|
                final(self).has_member_read(k, m) == old(self).has_member_read(k, m),
            forall|k: KeyModel| final(self).has_group_read(k) == old(self).has_group_read(k),
    {
        let ghost pre = accesses_model(self.member_writes@);
        let entry = (clone_key(key), clone_tag(member));
        let ghost em = (key_model(entry.0), tag_model(entry.1));
        self.member_writes.push(entry);
        proof {
            assert(accesses_model(self.member_writes@) =~= pre.push(em));
            assert forall|k: KeyModel, m: TagModel| self.has_member_write(k, m) == (
                old(self).has_member_write(k, m)
                    || (k == key_model(*key) && m == tag_model(*member))
            ) by {
                lemma_contains_push(pre, em, (k, m));
            }
        }
    }

    /// Logs a whole-group read, for queries that no single member can
    /// account for.
    pub fn record_group_read(&mut self, key: &GroupKey)
        ensures
            forall|k: KeyModel| final(self).has_group_read(k) == (
                old(self).has_group_read(k) || k == key_model(*key)
            ),
            forall|k: KeyModel, m: TagModel|
                final(self).has_member_read(k, m) == old(self).has_member_read(k, m),
            forall|k: KeyModel, m: TagModel|
                final(self).has_member_write(k, m) == old(self).has_member_write(k, m),
    {
        let ghost pre = keys_model(self.group_reads@);
        let entry = clone_key(key);
        let ghost em = key_model(entry);
        self.group_reads.push(entry);
        proof {
            assert(keys_model(self.group_reads@) =~= pre.push(em));
            assert forall|k: KeyModel| self.has_group_read(k) == (
                old(self).has_group_read(k) || k == key_model(*key)
            ) by {
                lemma_contains_push(pre, em, k);
            }
        }
    }
}

/// The validation rule: two transactions conflict only if one wrote a
/// member the other read or wrote, or one read a whole group of which
/// the other wrote any member.
pub open spec fn conflicts_spec(a: ConflictTracker, b: ConflictTracker) -> bool {
    ||| exists|k: KeyModel, m: TagModel| #[trigger] a.has_member_write(k, m)
        && (b.has_member_read(k, m) || b.has_member_write(k, m))
    ||| exists|k: KeyModel, m: TagModel| #[trigger] b.has_member_write(k, m)
        && a.has_member_read(k, m)
    ||| exists|k: KeyModel, m: TagModel| a.has_group_read(k)
        && #[trigger] b.has_member_write(k, m)
    ||| exists|k: KeyModel, m: TagModel| b.has_group_read(k)
        && #[trigger] a.has_member_write(k, m)
}

/// Whether the member accesses logged in `v` include `(key, member)`.
#[verifier::loop_isolation(false)]
fn contains_access(v: &Vec<(GroupKey, StructTag)>, key: &GroupKey, member: &StructTag) -> (r: bool)
    ensures
        r == accesses_model(v@).contains((key_model(*key), tag_model(*member))),
{
    let ghost target: AccessModel = (key_model(*key), tag_model(*member));
    let n = v.len();
    let mut i: usize = 0;
    while i < n
        invariant
            i <= n,
            n == v@.len(),
            forall|j: int| 0 <= j < i ==> accesses_model(v@)[j] != target,
        decreases n - i,
    {
        proof {
            assert(accesses_model(v@)[i as int] == (key_model(v@[i as int].0), tag_model(v@[i as int].1)));
        }
        if key_eq(&v[i].0, key) {
            let c = tag_cmp(&v[i].1, member);
            if c == TagOrder::Equal {
                proof {
                    assert(accesses_model(v@)[i as int] == target);
                    assert(accesses_model(v@).contains(target));
                }
                return true;
            }
        }
        i = i + 1;
    }
    proof {
        if accesses_model(v@).contains(target) {
            let j = choose|j: int| 0 <= j < accesses_model(v@).len()
                && accesses_model(v@)[j] == target;
            assert(accesses_model(v@)[j] != target);
        }
    }
    false
}

/// Whether `t` logged a write to any member of the group at `key`.
#[verifier::loop_isolation(false)]
fn writes_to_key(t: &ConflictTracker, key: &GroupKey) -> (r: bool)
    ensures
        r == exists|m: TagModel| t.has_member_write(key_model(*key), m),
{
    let ghost km = key_model(*key);
    let n = t.member_writes.len();
    let mut i: usize = 0;
    while i < n
        invariant
            i <= n,
            n == t.member_writes@.len(),
            forall|j: int| 0 <= j < i ==>
                (#[trigger] accesses_model(t.member_writes@)[j]).0 != km,
        decreases n - i,
    {
        if key_eq(&t.member_writes[i].0, key) {
            proof {
                let am = accesses_model(t.member_writes@)[i as int];
                assert(accesses_model(t.member_writes@).contains(am));
                assert(t.has_member_write(km, am.1));
            }
            return true;
        }
        i = i + 1;
    }
    proof {
        if exists|m: TagModel| t.has_member_write(km, m) {
            let m = choose|m: TagModel| t.has_member_write(km, m);
            let j = choose|j: int| 0 <= j < accesses_model(t.member_writes@).len()
                && accesses_model(t.member_writes@)[j] == (km, m);
            assert(accesses_model(t.member_writes@)[j].0 != km);
        }
    }
    false
}

/// Decides the validation rule for two transactions' trackers.
#[verifier::loop_isolation(false)]
pub fn conflicts(a: &ConflictTracker, b: &ConflictTracker) -> (r: bool)
    ensures
        r == conflicts_spec(*a, *b),
{
    let n1 = a.member_writes.len();
    let mut i: usize = 0;
    while i < n1
        invariant
            i <= n1,
            n1 == a.member_writes@.len(),
            forall|j: int| 0 <= j < i ==> {
                let e = #[trigger] accesses_model(a.member_writes@)[j];
                !b.has_member_read(e.0, e.1) && !b.has_member_write(e.0, e.1)
            },
        decreases n1 - i,
    {
        let key = &a.member_writes[i].0;
        let member = &a.member_writes[i].1;
        if contains_access(&b.member_reads, key, member)
            || contains_access(&b.member_writes, key, member) {
            proof {
                let e = accesses_model(a.member_writes@)[i as int];
                assert(accesses_model(a.member_writes@).contains(e));
                assert(a.has_member_write(e.0, e.1));
            }
            return true;
        }
        i = i + 1;
    }
    let n2 = b.member_writes.len();
    let mut i2: usize = 0;
    while i2 < n2
        invariant
            i2 <= n2,
            n2 == b.member_writes@.len(),
            forall|j: int| 0 <= j < i2 ==> {
                let e = #[trigger] accesses_model(b.member_writes@)[j];
                !a.has_member_read(e.0, e.1)
            },
        decreases n2 - i2,
    {
        let key = &b.member_writes[i2].0;
        let member = &b.member_writes[i2].1;
        if contains_access(&a.member_reads, key, member) {
            proof {
                let e = accesses_model(b.member_writes@)[i2 as int];
                assert(accesses_model(b.member_writes@).contains(e));
                assert(b.has_member_write(e.0, e.1));
            }
            return true;
        }
        i2 = i2 + 1;
    }
    let n3 = a.group_reads.len();
    let mut i3: usize = 0;
    while i3 < n3
        invariant
            i3 <= n3,
            n3 == a.group_reads@.len(),
            forall|j: int| 0 <= j < i3 ==> {
                let k = #[trigger] keys_model(a.group_reads@)[j];
                forall|m: TagModel| !b.has_member_write(k, m)
            },
        decreases n3 - i3,
    {
        if writes_to_key(b, &a.group_reads[i3]) {
            proof {
                let k = keys_model(a.group_reads@)[i3 as int];
                assert(keys_model(a.group_reads@).contains(k));
            }
            return true;
        }
        i3 = i3 + 1;
    }
    let n4 = b.group_reads.len();
    let mut i4: usize = 0;
    while i4 < n4
        invariant
            i4 <= n4,
            n4 == b.group_reads@.len(),
            forall|j: int| 0 <= j < i4 ==> {
                let k = #[trigger] keys_model(b.group_reads@)[j];
                forall|m: TagModel| !a.has_member_write(k, m)
            },
        decreases n4 - i4,
    {
        if writes_to_key(a, &b.group_reads[i4]) {
            proof {
                let k = keys_model(b.group_reads@)[i4 as int];
                assert(keys_model(b.group_reads@).contains(k));
            }
            return true;
        }
        i4 = i4 + 1;
    }
    proof {
        if conflicts_spec(*a, *b) {
            if exists|k: KeyModel, m: TagModel| #[trigger] a.has_member_write(k, m)
                && (b.has_member_read(k, m) || b.has_member_write(k, m)) {
                let (k, m) = choose|k: KeyModel, m: TagModel| #[trigger] a.has_member_write(k, m)
                    && (b.has_member_read(k, m) || b.has_member_write(k, m));
                let j = choose|j: int| 0 <= j < accesses_model(a.member_writes@).len()
                    && accesses_model(a.member_writes@)[j] == (k, m);
                assert(accesses_model(a.member_writes@)[j] == (k, m));
            } else if exists|k: KeyModel, m: TagModel| #[trigger] b.has_member_write(k, m)
                && a.has_member_read(k, m) {
                let (k, m) = choose|k: KeyModel, m: TagModel| #[trigger] b.has_member_write(k, m)
                    && a.has_member_read(k, m);
                let j = choose|j: int| 0 <= j < accesses_model(b.member_writes@).len()
                    && accesses_model(b.member_writes@)[j] == (k, m);
                assert(accesses_model(b.member_writes@)[j] == (k, m));
            } else if exists|k: KeyModel, m: TagModel| a.has_group_read(k)
                && #[trigger] b.has_member_write(k, m) {
                let (k, m) = choose|k: KeyModel, m: TagModel| a.has_group_read(k)
                    && #[trigger] b.has_member_write(k, m);
                let j = choose|j: int| 0 <= j < keys_model(a.group_reads@).len()
                    && keys_model(a.group_reads@)[j] == k;
                assert(keys_model(a.group_reads@)[j] == k);
            } else {
                let (k, m) = choose|k: KeyModel, m: TagModel| b.has_group_read(k)
                    && #[trigger] a.has_member_write(k, m);
                let j = choose|j: int| 0 <= j < keys_model(b.group_reads@).len()
                    && keys_model(b.group_reads@)[j] == k;
                assert(keys_model(b.group_reads@)[j] == k);
            }
        }
    }
    false
}

/// Non-interference: transactions that only wrote, and wrote disjoint
/// members, never conflict under the validation rule.
pub proof fn lemma_disjoint_writes_no_conflict(a: ConflictTracker, b: ConflictTracker)
    requires
        forall|k: KeyModel, m: TagModel| !a.has_member_read(k, m) && !b.has_member_read(k, m),
        forall|k: KeyModel| !a.has_group_read(k) && !b.has_group_read(k),
        forall|k: KeyModel, m: TagModel|
            !(#[trigger] a.has_member_write(k, m) && #[trigger] b.has_member_write(k, m)),
    ensures
        !conflicts_spec(a, b),
{
}

/// Interference: two transactions that wrote the same member of the
/// same group always conflict under the validation rule.
pub proof fn lemma_same_member_write_conflict(
    a: ConflictTracker,
    b: ConflictTracker,
    k: KeyModel,
    m: TagModel,
)
    requires
        a.has_member_write(k, m),
        b.has_member_write(k, m),
    ensures
        conflicts_spec(a, b),
{
}

} // verus!
