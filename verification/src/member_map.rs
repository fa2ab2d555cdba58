//! Member map: the decoded form of a group blob. An ordered mapping from
//! member tag to raw value bytes, kept sorted by the total tag order so
//! that re-encoding is deterministic.

use vstd::prelude::*;
use crate::tag::{
    StructTag, TagModel, TagOrder, tag_cmp, tag_lt, tag_model, clone_tag,
    lemma_tag_lt_asym, lemma_tag_lt_trans,
};
use crate::codec::{
    EntryModel, encodable_tag, entries_encodable, entries_sorted, len_limit,
};

verus! {

/// Looks a tag up in an entry list: the value of the first entry whose
/// tag is `t`, if any.
pub open spec fn lookup(es: Seq<EntryModel>, t: TagModel) -> Option<Seq<u8>>
    decreases es.len(),
{
    if es.len() == 0 {
        None
    } else if es[0].0 == t {
        Some(es[0].1)
    } else {
        lookup(es.subrange(1, es.len() as int), t)
    }
}

pub proof fn lemma_lookup_found(es: Seq<EntryModel>, t: TagModel, i: int)
    requires
        0 <= i < es.len(),
        es[i].0 == t,
        forall|k: int| 0 <= k < i ==> (#[trigger] es[k]).0 != t,
    ensures
        lookup(es, t) == Some(es[i].1),
    decreases i,
{
    if i > 0 {
        let rest = es.subrange(1, es.len() as int);
        lemma_lookup_found(rest, t, i - 1);
    }
}

pub proof fn lemma_lookup_absent(es: Seq<EntryModel>, t: TagModel)
    requires
        forall|k: int| 0 <= k < es.len() ==> (#[trigger] es[k]).0 != t,
    ensures
        lookup(es, t) is None,
    decreases es.len(),
{
    if es.len() > 0 {
        lemma_lookup_absent(es.subrange(1, es.len() as int), t);
    }
}

/// Inserting an entry with another tag does not change a lookup.
pub proof fn lemma_lookup_insert_other(es: Seq<EntryModel>, i: int, e: EntryModel, q: TagModel)
    requires
        0 <= i <= es.len(),
        e.0 != q,
    ensures
        lookup(es.insert(i, e), q) == lookup(es, q),
    decreases i,
{
    let es2 = es.insert(i, e);
    if i == 0 {
        assert(es2.subrange(1, es2.len() as int) =~= es);
    } else {
        assert(es2[0] == es[0]);
        if es[0].0 != q {
            let rest = es.subrange(1, es.len() as int);
            assert(es2.subrange(1, es2.len() as int) =~= rest.insert(i - 1, e));
            lemma_lookup_insert_other(rest, i - 1, e, q);
        }
    }
}

/// Removing an entry with another tag does not change a lookup.
pub proof fn lemma_lookup_remove_other(es: Seq<EntryModel>, i: int, q: TagModel)
    requires
        0 <= i < es.len(),
        es[i].0 != q,
    ensures
        lookup(es.remove(i), q) == lookup(es, q),
    decreases i,
{
    let es2 = es.remove(i);
    if i == 0 {
        assert(es2 =~= es.subrange(1, es.len() as int));
    } else {
        assert(es2[0] == es[0]);
        if es[0].0 != q {
            let rest = es.subrange(1, es.len() as int);
            assert(es2.subrange(1, es2.len() as int) =~= rest.remove(i - 1));
            lemma_lookup_remove_other(rest, i - 1, q);
        }
    }
}

/// In a sorted entry list every earlier tag is below every later one.
pub proof fn lemma_sorted_chain(es: Seq<EntryModel>, i: int, j: int)
    requires
        entries_sorted(es),
        0 <= i < j < es.len(),
    ensures
        tag_lt(es[i].0, es[j].0),
    decreases j - i,
{
    if j == i + 1 {
    } else {
        lemma_sorted_chain(es, i, j - 1);
        lemma_tag_lt_trans(es[i].0, es[j - 1].0, es[j].0);
    }
}

/// Ordered mapping from member tag to raw value bytes; the decoded form
/// of a group blob.
pub struct MemberMap {
    pub entries: Vec<(StructTag, Vec<u8>)>,
}

/// Model of one stored entry.
pub open spec fn entry_model(e: (StructTag, Vec<u8>)) -> EntryModel {
    (tag_model(e.0), e.1@)
}

/// Model of a stored entry list.
pub open spec fn entries_model(s: Seq<(StructTag, Vec<u8>)>) -> Seq<EntryModel> {
    s.map(|i: int, e: (StructTag, Vec<u8>)| entry_model(e))
}

impl MemberMap {
    /// Mathematical model: the entry list, tags and values abstracted.
    pub open spec fn model(self) -> Seq<EntryModel> {
        entries_model(self.entries@)
    }

    /// Well-formed: tags strictly ascending and all entries encodable.
    pub open spec fn wf(self) -> bool {
        &&& entries_sorted(self.model())
        &&& forall|i: int| 0 <= i < self.model().len() ==>
            encodable_tag((#[trigger] self.model()[i]).0)
    }

    /// The empty member map.
    pub fn new() -> (r: MemberMap)
        ensures
            r.wf(),
            r.model().len() == 0,
    {
        let r = MemberMap { entries: Vec::new() };
        proof {
            assert(r.model() =~= Seq::<EntryModel>::empty());
        }
        r
    }

    pub fn len(&self) -> (n: usize)
        ensures
            n == self.model().len(),
    {
        self.entries.len()
    }

    pub fn is_empty(&self) -> (r: bool)
        ensures
            r == (self.model().len() == 0),
    {
        self.entries.len() == 0
    }

    /// First position whose tag is not below `tag`; `len` if all are.
    fn find_pos(&self, tag: &StructTag) -> (i: usize)
        ensures
            i <= self.model().len(),
            forall|k: int| 0 <= k < i ==> tag_lt((#[trigger] self.model()[k]).0, tag_model(*tag)),
            i < self.model().len() ==> !tag_lt(self.model()[i as int].0, tag_model(*tag)),
    {
        let n = self.entries.len();
        let mut i: usize = 0;
        while i < n
            invariant
                i <= n,
                n == self.model().len(),
                n == self.entries@.len(),
                forall|k: int| 0 <= k < i ==>
                    tag_lt((#[trigger] self.model()[k]).0, tag_model(*tag)),
            decreases n - i,
        {
            let c = tag_cmp(&self.entries[i].0, tag);
            if c != TagOrder::Less {
                return i;
            }
            i = i + 1;
        }
        i
    }

    /// The raw bytes stored under `tag`, or nothing if the member is absent.
    pub fn get(&self, tag: &StructTag) -> (r: Option<&Vec<u8>>)
        ensures
            match r {
                Some(v) => lookup(self.model(), tag_model(*tag)) == Some(v@),
                None => lookup(self.model(), tag_model(*tag)) is None,
            },
    {
        let n = self.entries.len();
        let mut i: usize = 0;
        while i < n
            invariant
                i <= n,
                n == self.entries@.len(),
                forall|k: int| 0 <= k < i ==>
                    (#[trigger] self.model()[k]).0 != tag_model(*tag),
            decreases n - i,
        {
            let c = tag_cmp(&self.entries[i].0, tag);
            if c == TagOrder::Equal {
                proof {
                    lemma_lookup_found(self.model(), tag_model(*tag), i as int);
                }
                return Some(&self.entries[i].1);
            }
            proof {
                if tag_lt(self.model()[i as int].0, tag_model(*tag)) {
                    lemma_tag_lt_asym(self.model()[i as int].0, tag_model(*tag));
                } else {
                    lemma_tag_lt_asym(tag_model(*tag), self.model()[i as int].0);
                }
            }
            i = i + 1;
        }
        proof {
            lemma_lookup_absent(self.model(), tag_model(*tag));
        }
        None
    }

    /// Inserts or replaces the entry for `tag`; every other member's
    /// bytes are untouched.
    pub fn set(&mut self, tag: StructTag, value: Vec<u8>)
        requires
            old(self).wf(),
            encodable_tag(tag_model(tag)),
        ensures
            final(self).wf(),
            lookup(final(self).model(), tag_model(tag)) == Some(value@),
            forall|q: TagModel| #![trigger lookup(final(self).model(), q)]
                q != tag_model(tag) ==>
                    lookup(final(self).model(), q) == lookup(old(self).model(), q),
            final(self).model().len() == if lookup(old(self).model(), tag_model(tag)) is Some {
                old(self).model().len()
            } else {
                old(self).model().len() + 1
            },
    {
        let ghost oldm = self.model();
        let ghost tm = tag_model(tag);
        let i = self.find_pos(&tag);
        proof {
            assert forall|k: int| 0 <= k < i implies (#[trigger] oldm[k]).0 != tm by {
                lemma_tag_lt_asym(oldm[k].0, tm);
            }
        }
        if i < self.entries.len() {
            let c = tag_cmp(&self.entries[i].0, &tag);
            if c == TagOrder::Equal {
                proof {
                    lemma_lookup_found(oldm, tm, i as int);
                }
                let _ = self.entries.remove(i);
                self.entries.insert(i, (tag, value));
                proof {
                    let m1 = oldm.remove(i as int);
                    let m2 = m1.insert(i as int, (tm, value@));
                    assert(self.model() =~= m2);
                    assert forall|k: int| 0 <= k < m2.len() implies
                        (#[trigger] m2[k]).0 == oldm[k].0 by {}
                    assert(entries_sorted(m2));
                    lemma_lookup_found(m2, tm, i as int);
                    assert forall|q: TagModel| #![trigger lookup(self.model(), q)]
                        q != tm implies lookup(m2, q) == lookup(oldm, q) by {
                        lemma_lookup_insert_other(m1, i as int, (tm, value@), q);
                        lemma_lookup_remove_other(oldm, i as int, q);
                    }
                }
                return;
            }
        }
        // The tag is absent: everything before position `i` is below it,
        // everything from `i` on is above it.
        proof {
            assert forall|k: int| i <= k < oldm.len() implies
                tag_lt(tm, (#[trigger] oldm[k]).0) by {
                if k > i {
                    lemma_sorted_chain(oldm, i as int, k);
                    lemma_tag_lt_trans(tm, oldm[i as int].0, oldm[k].0);
                }
            }
            assert forall|k: int| 0 <= k < oldm.len() implies
                (#[trigger] oldm[k]).0 != tm by {
                if k < i {
                    lemma_tag_lt_asym(oldm[k].0, tm);
                } else {
                    lemma_tag_lt_asym(tm, oldm[k].0);
                }
            }
            lemma_lookup_absent(oldm, tm);
        }
        self.entries.insert(i, (tag, value));
        proof {
            let m2 = oldm.insert(i as int, (tm, value@));
            assert(self.model() =~= m2);
            assert(entries_sorted(m2)) by {
                assert forall|k: int| 0 <= k < m2.len() - 1 implies
                    tag_lt((#[trigger] m2[k]).0, m2[k + 1].0) by {
                    if k + 1 < i {
                        assert(m2[k] == oldm[k] && m2[k + 1] == oldm[k + 1]);
                    } else if k + 1 == i {
                        assert(m2[k] == oldm[k]);
                    } else if k == i {
                        assert(m2[k + 1] == oldm[k]);
                    } else {
                        assert(m2[k] == oldm[k - 1] && m2[k + 1] == oldm[k]);
                    }
                }
            }
            lemma_lookup_found(m2, tm, i as int);
            assert forall|q: TagModel| #![trigger lookup(self.model(), q)]
                q != tm implies lookup(m2, q) == lookup(oldm, q) by {
                lemma_lookup_insert_other(oldm, i as int, (tm, value@), q);
            }
        }
    }

    /// Removes the entry for `tag` if present; reports whether it was.
    pub fn remove(&mut self, tag: &StructTag) -> (r: bool)
        requires
            old(self).wf(),
        ensures
            final(self).wf(),
            r == (lookup(old(self).model(), tag_model(*tag)) is Some),
            lookup(final(self).model(), tag_model(*tag)) is None,
            forall|q: TagModel| #![trigger lookup(final(self).model(), q)]
                q != tag_model(*tag) ==>
                    lookup(final(self).model(), q) == lookup(old(self).model(), q),
            final(self).model().len() == if r {
                old(self).model().len() - 1
            } else {
                old(self).model().len() as int
            },
    {
        let ghost oldm = self.model();
        let ghost tm = tag_model(*tag);
        let i = self.find_pos(tag);
        proof {
            assert forall|k: int| 0 <= k < i implies (#[trigger] oldm[k]).0 != tm by {
                lemma_tag_lt_asym(oldm[k].0, tm);
            }
        }
        if i < self.entries.len() {
            let c = tag_cmp(&self.entries[i].0, tag);
            if c == TagOrder::Equal {
                proof {
                    lemma_lookup_found(oldm, tm, i as int);
                }
                let _ = self.entries.remove(i);
                proof {
                    let m1 = oldm.remove(i as int);
                    assert(self.model() =~= m1);
                    assert(entries_sorted(m1)) by {
                        assert forall|k: int| 0 <= k < m1.len() - 1 implies
                            tag_lt((#[trigger] m1[k]).0, m1[k + 1].0) by {
                            if k + 1 < i {
                                assert(m1[k] == oldm[k] && m1[k + 1] == oldm[k + 1]);
                            } else if k + 1 == i {
                                assert(m1[k] == oldm[k] && m1[k + 1] == oldm[k + 1 + 1]);
                                lemma_sorted_chain(oldm, k, k + 2);
                            } else {
                                assert(m1[k] == oldm[k + 1] && m1[k + 1] == oldm[k + 2]);
                            }
                        }
                    }
                    assert forall|k: int| 0 <= k < m1.len() implies
                        (#[trigger] m1[k]).0 != tm by {
                        if k < i {
                            lemma_tag_lt_asym(oldm[k].0, tm);
                        } else {
                            lemma_sorted_chain(oldm, i as int, k + 1);
                        }
                    }
                    lemma_lookup_absent(m1, tm);
                    assert forall|q: TagModel| #![trigger lookup(self.model(), q)]
                        q != tm implies lookup(m1, q) == lookup(oldm, q) by {
                        lemma_lookup_remove_other(oldm, i as int, q);
                    }
                }
                return true;
            }
        }
        proof {
            assert forall|k: int| 0 <= k < oldm.len() implies
                (#[trigger] oldm[k]).0 != tm by {
                if k < i {
                    lemma_tag_lt_asym(oldm[k].0, tm);
                } else if k == i {
                    lemma_tag_lt_asym(tm, oldm[k].0);
                } else {
                    lemma_sorted_chain(oldm, i as int, k);
                    lemma_tag_lt_trans(tm, oldm[i as int].0, oldm[k].0);
                    lemma_tag_lt_asym(tm, oldm[k].0);
                }
            }
            lemma_lookup_absent(oldm, tm);
        }
        false
    }

    /// The member tags, in ascending order.
    pub fn tags(&self) -> (r: Vec<StructTag>)
        ensures
            r@.len() == self.model().len(),
            forall|k: int| 0 <= k < r@.len() ==>
                tag_model(#[trigger] r@[k]) == self.model()[k].0,
    {
        let mut out: Vec<StructTag> = Vec::new();
        let mut i: usize = 0;
        let n = self.entries.len();
        while i < n
            invariant
                i <= n,
                n == self.entries@.len(),
                out@.len() == i,
                forall|k: int| 0 <= k < i ==>
                    tag_model(#[trigger] out@[k]) == self.model()[k].0,
            decreases n - i,
        {
            out.push(clone_tag(&self.entries[i].0));
            i = i + 1;
        }
        out
    }
}

/// Round-trip law over the executable type: decoding the canonical
/// encoding of any non-empty member map yields exactly its entries.
pub proof fn lemma_member_map_round_trip(m: MemberMap)
    requires
        m.wf(),
        m.model().len() >= 1,
    ensures
        crate::codec::spec_decode(crate::codec::blob_bytes(m.model())) == Some(m.model()),
{
    lemma_map_encodable(m);
    crate::codec::lemma_encode_decode_round_trip(m.model());
}

/// A well-formed member map is encodable as it stands.
pub proof fn lemma_map_encodable(m: MemberMap)
    requires
        m.wf(),
    ensures
        entries_encodable(m.model()),
{
    assert(vstd::std_specs::vec::spec_vec_len(&m.entries) == m.entries@.len());
    assert forall|i: int| 0 <= i < m.model().len() implies
        (#[trigger] m.model()[i]).1.len() < len_limit() by {
        let v = m.entries@[i].1;
        assert(vstd::std_specs::vec::spec_vec_len(&v) == v@.len());
    }
}

} // verus!
