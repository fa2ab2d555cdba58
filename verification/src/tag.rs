//! Tag and key model: structural type descriptors with a total,
//! deterministic ordering, used as canonical sort keys and map keys.

use vstd::prelude::*;

verus! {

/// Number of bytes in an account address.
pub const ADDRESS_LEN: usize = 32;

/// Mathematical model of a structural type descriptor.
#[verifier::ext_equal]
pub ghost struct TagModel {
    pub addr: Seq<u8>,
    pub module: Seq<u8>,
    pub name: Seq<u8>,
    pub args: Seq<TagModel>,
}

/// A well-formed tag has a fixed-width address, recursively.
pub open spec fn wf_tag_model(t: TagModel) -> bool
    decreases t,
{
    &&& t.addr.len() == ADDRESS_LEN
    &&& forall|i: int| 0 <= i < t.args.len() ==> wf_tag_model(#[trigger] t.args[i])
}

/// Strict lexicographic order on byte strings.
pub open spec fn bytes_lt(a: Seq<u8>, b: Seq<u8>) -> bool
    decreases a.len(),
{
    if b.len() == 0 {
        false
    } else if a.len() == 0 {
        true
    } else if a[0] < b[0] {
        true
    } else if a[0] == b[0] {
        bytes_lt(a.subrange(1, a.len() as int), b.subrange(1, b.len() as int))
    } else {
        false
    }
}

/// Strict total order on tags: lexicographic over address, then module
/// name, then type name, then the type-parameter list, recursively.
pub open spec fn tag_lt(a: TagModel, b: TagModel) -> bool
    decreases a, b,
{
    if bytes_lt(a.addr, b.addr) {
        true
    } else if a.addr != b.addr {
        false
    } else if bytes_lt(a.module, b.module) {
        true
    } else if a.module != b.module {
        false
    } else if bytes_lt(a.name, b.name) {
        true
    } else if a.name != b.name {
        false
    } else {
        tags_lt(a.args, b.args)
    }
}

/// Lexicographic lifting of `tag_lt` to tag lists.
pub open spec fn tags_lt(a: Seq<TagModel>, b: Seq<TagModel>) -> bool
    decreases a, b,
{
    if b.len() == 0 {
        false
    } else if a.len() == 0 {
        true
    } else if tag_lt(a[0], b[0]) {
        true
    } else if a[0] == b[0] {
        tags_lt(a.subrange(1, a.len() as int), b.subrange(1, b.len() as int))
    } else {
        false
    }
}

pub proof fn lemma_bytes_lt_asym(a: Seq<u8>, b: Seq<u8>)
    requires
        bytes_lt(a, b),
    ensures
        !bytes_lt(b, a),
        a != b,
    decreases a.len(),
{
    if a.len() != 0 && b.len() != 0 && a[0] == b[0] {
        lemma_bytes_lt_asym(
            a.subrange(1, a.len() as int),
            b.subrange(1, b.len() as int),
        );
        assert(a != b) by {
            if a == b {
                assert(a.subrange(1, a.len() as int) == b.subrange(1, b.len() as int));
            }
        }
    }
}

pub proof fn lemma_tag_lt_asym(a: TagModel, b: TagModel)
    requires
        tag_lt(a, b),
    ensures
        !tag_lt(b, a),
        a != b,
    decreases a, b,
{
    if bytes_lt(a.addr, b.addr) {
        lemma_bytes_lt_asym(a.addr, b.addr);
    } else if a.addr == b.addr && bytes_lt(a.module, b.module) {
        lemma_bytes_lt_asym(a.module, b.module);
    } else if a.addr == b.addr && a.module == b.module && bytes_lt(a.name, b.name) {
        lemma_bytes_lt_asym(a.name, b.name);
    } else {
        lemma_tags_lt_asym(a.args, b.args);
    }
}

pub proof fn lemma_tags_lt_asym(a: Seq<TagModel>, b: Seq<TagModel>)
    requires
        tags_lt(a, b),
    ensures
        !tags_lt(b, a),
        a != b,
    decreases a, b,
{
    if a.len() != 0 && b.len() != 0 {
        if tag_lt(a[0], b[0]) {
            lemma_tag_lt_asym(a[0], b[0]);
        } else {
            lemma_tags_lt_asym(
                a.subrange(1, a.len() as int),
                b.subrange(1, b.len() as int),
            );
            assert(a != b) by {
                if a == b {
                    assert(a.subrange(1, a.len() as int) == b.subrange(1, b.len() as int));
                }
            }
        }
    }
}

/// No tag is below itself.
pub proof fn lemma_tag_lt_irrefl(a: TagModel)
    ensures
        !tag_lt(a, a),
{
    if tag_lt(a, a) {
        lemma_tag_lt_asym(a, a);
    }
}

pub proof fn lemma_bytes_lt_trans(a: Seq<u8>, b: Seq<u8>, c: Seq<u8>)
    requires
        bytes_lt(a, b),
        bytes_lt(b, c),
    ensures
        bytes_lt(a, c),
    decreases a.len(), b.len(),
{
    if a.len() != 0 && b.len() != 0 && c.len() != 0 {
        if a[0] == b[0] && b[0] == c[0] {
            lemma_bytes_lt_trans(
                a.subrange(1, a.len() as int),
                b.subrange(1, b.len() as int),
                c.subrange(1, c.len() as int),
            );
        }
    }
}

pub proof fn lemma_tag_lt_trans(a: TagModel, b: TagModel, c: TagModel)
    requires
        tag_lt(a, b),
        tag_lt(b, c),
    ensures
        tag_lt(a, c),
    decreases a, b,
{
    if bytes_lt(a.addr, b.addr) {
        if bytes_lt(b.addr, c.addr) {
            lemma_bytes_lt_trans(a.addr, b.addr, c.addr);
        } else {
            assert(b.addr == c.addr);
        }
    } else {
        assert(a.addr == b.addr);
        if bytes_lt(b.addr, c.addr) {
        } else {
            assert(b.addr == c.addr);
            if bytes_lt(a.module, b.module) {
                if bytes_lt(b.module, c.module) {
                    lemma_bytes_lt_trans(a.module, b.module, c.module);
                } else {
                    assert(b.module == c.module);
                }
            } else {
                assert(a.module == b.module);
                if bytes_lt(b.module, c.module) {
                } else {
                    assert(b.module == c.module);
                    if bytes_lt(a.name, b.name) {
                        if bytes_lt(b.name, c.name) {
                            lemma_bytes_lt_trans(a.name, b.name, c.name);
                        } else {
                            assert(b.name == c.name);
                        }
                    } else {
                        assert(a.name == b.name);
                        if bytes_lt(b.name, c.name) {
                        } else {
                            assert(b.name == c.name);
                            lemma_tags_lt_trans(a.args, b.args, c.args);
                        }
                    }
                }
            }
        }
    }
}

pub proof fn lemma_tags_lt_trans(a: Seq<TagModel>, b: Seq<TagModel>, c: Seq<TagModel>)
    requires
        tags_lt(a, b),
        tags_lt(b, c),
    ensures
        tags_lt(a, c),
    decreases a, b,
{
    if a.len() != 0 && b.len() != 0 && c.len() != 0 {
        if tag_lt(a[0], b[0]) {
            if tag_lt(b[0], c[0]) {
                lemma_tag_lt_trans(a[0], b[0], c[0]);
            } else {
                assert(b[0] == c[0]);
            }
        } else {
            assert(a[0] == b[0]);
            if tag_lt(b[0], c[0]) {
            } else {
                assert(b[0] == c[0]);
                lemma_tags_lt_trans(
                    a.subrange(1, a.len() as int),
                    b.subrange(1, b.len() as int),
                    c.subrange(1, c.len() as int),
                );
            }
        }
    }
}

/// Fixed-width account identifier.
#[verifier::ext_equal]
pub struct Address {
    pub bytes: Vec<u8>,
}

impl Address {
    pub open spec fn model(self) -> Seq<u8> {
        self.bytes@
    }

    pub open spec fn wf(self) -> bool {
        self.bytes@.len() == ADDRESS_LEN
    }

    /// Builds an address from exactly `ADDRESS_LEN` bytes.
    pub fn new(bytes: Vec<u8>) -> (r: Option<Address>)
        ensures
            match r {
                Some(a) => a.wf() && a.model() == bytes@,
                None => bytes@.len() != ADDRESS_LEN,
            },
    {
        if bytes.len() == ADDRESS_LEN {
            Some(Address { bytes })
        } else {
            None
        }
    }
}

/// Structural type descriptor: defining address, module name, type name,
/// and the ordered list of type-parameter tags.
#[verifier::ext_equal]
pub struct StructTag {
    pub address: Address,
    pub module: Vec<u8>,
    pub name: Vec<u8>,
    pub type_args: Vec<StructTag>,
}

/// Mathematical model of a tag.
pub open spec fn tag_model(t: StructTag) -> TagModel
    decreases t,
{
    TagModel {
        addr: t.address.bytes@,
        module: t.module@,
        name: t.name@,
        args: tags_model(t.type_args@),
    }
}

/// Mathematical model of a tag list.
pub open spec fn tags_model(s: Seq<StructTag>) -> Seq<TagModel>
    decreases s,
{
    if s.len() == 0 {
        Seq::empty()
    } else {
        seq![tag_model(s[0])] + tags_model(s.subrange(1, s.len() as int))
    }
}

pub proof fn lemma_tags_model(s: Seq<StructTag>)
    ensures
        tags_model(s).len() == s.len(),
        forall|i: int| 0 <= i < s.len() ==> tags_model(s)[i] == tag_model(#[trigger] s[i]),
    decreases s,
{
    if s.len() != 0 {
        lemma_tags_model(s.subrange(1, s.len() as int));
        assert forall|i: int| 0 <= i < s.len() implies
            tags_model(s)[i] == tag_model(#[trigger] s[i]) by {
            if i > 0 {
                assert(s.subrange(1, s.len() as int)[i - 1] == s[i]);
            }
        }
    }
}

/// Suffix of a sequence from index `i` on.
pub open spec fn suffix<T>(s: Seq<T>, i: int) -> Seq<T> {
    s.subrange(i, s.len() as int)
}

/// Outcome of comparing two values under the total tag order.
#[derive(Clone, Copy, Debug, PartialEq, Eq, Structural)]
pub enum TagOrder {
    Less,
    Equal,
    Greater,
}

/// Three-way lexicographic comparison of byte strings.
pub fn bytes_cmp(a: &Vec<u8>, b: &Vec<u8>) -> (r: TagOrder)
    ensures
        (r == TagOrder::Less) == bytes_lt(a@, b@),
        (r == TagOrder::Equal) == (a@ == b@),
        (r == TagOrder::Greater) == bytes_lt(b@, a@),
{
    let alen = a.len();
    let blen = b.len();
    let mut i: usize = 0;
    proof {
        assert(suffix(a@, 0) =~= a@);
        assert(suffix(b@, 0) =~= b@);
    }
    loop
        invariant
            i <= alen,
            i <= blen,
            alen == a@.len(),
            blen == b@.len(),
            bytes_lt(a@, b@) == bytes_lt(suffix(a@, i as int), suffix(b@, i as int)),
            bytes_lt(b@, a@) == bytes_lt(suffix(b@, i as int), suffix(a@, i as int)),
            (a@ == b@) == (suffix(a@, i as int) == suffix(b@, i as int)),
        decreases alen - i,
    {
        if i == alen && i == blen {
            proof {
                assert(suffix(a@, i as int) =~= suffix(b@, i as int));
            }
            return TagOrder::Equal;
        }
        if i == alen {
            return TagOrder::Less;
        }
        if i == blen {
            return TagOrder::Greater;
        }
        let x = a[i];
        let y = b[i];
        if x < y {
            return TagOrder::Less;
        }
        if y < x {
            return TagOrder::Greater;
        }
        proof {
            let sa = suffix(a@, i as int);
            let sb = suffix(b@, i as int);
            assert(sa.subrange(1, sa.len() as int) =~= suffix(a@, i + 1));
            assert(sb.subrange(1, sb.len() as int) =~= suffix(b@, i + 1));
            if suffix(a@, i + 1) == suffix(b@, i + 1) && alen == blen {
                assert forall|k: int| 0 <= k < sa.len() implies sa[k] == sb[k] by {
                    if k == 0 {
                        assert(sa[0] == a@[i as int]);
                        assert(sb[0] == b@[i as int]);
                    } else {
                        assert(sa[k] == suffix(a@, i + 1)[k - 1]);
                        assert(sb[k] == suffix(b@, i + 1)[k - 1]);
                    }
                }
                assert(sa =~= sb);
            }
        }
        i = i + 1;
    }
}

/// Three-way comparison of tags under the total tag order.
pub fn tag_cmp(a: &StructTag, b: &StructTag) -> (r: TagOrder)
    ensures
        (r == TagOrder::Less) == tag_lt(tag_model(*a), tag_model(*b)),
        (r == TagOrder::Equal) == (tag_model(*a) == tag_model(*b)),
        (r == TagOrder::Greater) == tag_lt(tag_model(*b), tag_model(*a)),
    decreases *a,
{
    let ghost ma = tag_model(*a);
    let ghost mb = tag_model(*b);
    let ca = bytes_cmp(&a.address.bytes, &b.address.bytes);
    if ca != TagOrder::Equal {
        return ca;
    }
    let cm = bytes_cmp(&a.module, &b.module);
    if cm != TagOrder::Equal {
        return cm;
    }
    let cn = bytes_cmp(&a.name, &b.name);
    if cn != TagOrder::Equal {
        return cn;
    }
    let ghost ta = tags_model(a.type_args@);
    let ghost tb = tags_model(b.type_args@);
    proof {
        lemma_tags_model(a.type_args@);
        lemma_tags_model(b.type_args@);
    }
    let n = a.type_args.len();
    let m = b.type_args.len();
    let mut i: usize = 0;
    proof {
        assert(suffix(ta, 0) =~= ta);
        assert(suffix(tb, 0) =~= tb);
    }
    loop
        invariant
            i <= n,
            i <= m,
            n == a.type_args@.len(),
            m == b.type_args@.len(),
            ta == tags_model(a.type_args@),
            tb == tags_model(b.type_args@),
            ta.len() == n,
            tb.len() == m,
            forall|k: int| 0 <= k < n ==> ta[k] == tag_model(#[trigger] a.type_args@[k]),
            forall|k: int| 0 <= k < m ==> tb[k] == tag_model(#[trigger] b.type_args@[k]),
            ma == tag_model(*a),
            mb == tag_model(*b),
            ma.addr == mb.addr,
            ma.module == mb.module,
            ma.name == mb.name,
            ma.args == ta,
            mb.args == tb,
            !bytes_lt(ma.addr, mb.addr),
            !bytes_lt(mb.addr, ma.addr),
            !bytes_lt(ma.module, mb.module),
            !bytes_lt(mb.module, ma.module),
            !bytes_lt(ma.name, mb.name),
            !bytes_lt(mb.name, ma.name),
            tags_lt(ta, tb) == tags_lt(suffix(ta, i as int), suffix(tb, i as int)),
            tags_lt(tb, ta) == tags_lt(suffix(tb, i as int), suffix(ta, i as int)),
            (ta == tb) == (suffix(ta, i as int) == suffix(tb, i as int)),
        decreases n - i,
    {
        if i == n && i == m {
            proof {
                assert(suffix(ta, i as int) =~= suffix(tb, i as int));
                assert(ma =~= mb);
            }
            return TagOrder::Equal;
        }
        if i == n {
            return TagOrder::Less;
        }
        if i == m {
            return TagOrder::Greater;
        }
        let c = tag_cmp(&a.type_args[i], &b.type_args[i]);
        if c != TagOrder::Equal {
            return c;
        }
        proof {
            let sa = suffix(ta, i as int);
            let sb = suffix(tb, i as int);
            assert(sa.subrange(1, sa.len() as int) =~= suffix(ta, i + 1));
            assert(sb.subrange(1, sb.len() as int) =~= suffix(tb, i + 1));
            if suffix(ta, i + 1) == suffix(tb, i + 1) && n == m {
                assert forall|k: int| 0 <= k < sa.len() implies sa[k] == sb[k] by {
                    if k == 0 {
                        assert(sa[0] == ta[i as int]);
                        assert(sb[0] == tb[i as int]);
                    } else {
                        assert(sa[k] == suffix(ta, i + 1)[k - 1]);
                        assert(sb[k] == suffix(tb, i + 1)[k - 1]);
                    }
                }
                assert(sa =~= sb);
            }
        }
        i = i + 1;
    }
}

/// Copies a byte string.
pub fn clone_bytes(v: &Vec<u8>) -> (r: Vec<u8>)
    ensures
        r@ == v@,
{
    let mut out: Vec<u8> = Vec::new();
    let mut i: usize = 0;
    while i < v.len()
        invariant
            i <= v@.len(),
            out@ == v@.subrange(0, i as int),
        decreases v@.len() - i,
    {
        out.push(v[i]);
        proof {
            assert(out@ =~= v@.subrange(0, i + 1));
        }
        i = i + 1;
    }
    proof {
        assert(out@ =~= v@);
    }
    out
}

/// Copies a tag; the copy has the same mathematical model.
pub fn clone_tag(t: &StructTag) -> (r: StructTag)
    ensures
        tag_model(r) == tag_model(*t),
    decreases *t,
{
    let address = Address { bytes: clone_bytes(&t.address.bytes) };
    let module = clone_bytes(&t.module);
    let name = clone_bytes(&t.name);
    let mut type_args: Vec<StructTag> = Vec::new();
    let mut i: usize = 0;
    while i < t.type_args.len()
        invariant
            i <= t.type_args@.len(),
            type_args@.len() == i,
            forall|k: int| 0 <= k < i ==>
                tag_model(#[trigger] type_args@[k]) == tag_model(t.type_args@[k]),
        decreases t.type_args@.len() - i,
    {
        type_args.push(clone_tag(&t.type_args[i]));
        i = i + 1;
    }
    let r = StructTag { address, module, name, type_args };
    proof {
        lemma_tags_model(r.type_args@);
        lemma_tags_model(t.type_args@);
        assert forall|k: int| 0 <= k < r.type_args@.len() implies
            tags_model(r.type_args@)[k] == tags_model(t.type_args@)[k] by {
            assert(tags_model(r.type_args@)[k] == tag_model(r.type_args@[k]));
            assert(tag_model(r.type_args@[k]) == tag_model(t.type_args@[k]));
            assert(tags_model(t.type_args@)[k] == tag_model(t.type_args@[k]));
        }
        assert(tags_model(r.type_args@) =~= tags_model(t.type_args@));
        assert(tag_model(r) =~= tag_model(*t));
    }
    r
}

} // verus!
