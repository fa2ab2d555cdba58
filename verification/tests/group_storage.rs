use resource_groups::codec::{decode, encode};
use resource_groups::member_map::MemberMap;
use resource_groups::natives::{
    ExistsAtGasParameters, GasParameters, NativeError, ResolvedType, ResourceLocation,
    native_create_signer, native_exists_at,
};
use resource_groups::store::{Storage, TxnContext, apply_ops};
use resource_groups::tag::{Address, StructTag, TagOrder, clone_tag, tag_cmp};
use resource_groups::tracker::{GroupKey, conflicts};

fn addr(fill: u8) -> Address {
    Address::new(vec![fill; 32]).unwrap()
}

fn tag(a: u8, module: &str, name: &str) -> StructTag {
    StructTag {
        address: addr(a),
        module: module.as_bytes().to_vec(),
        name: name.as_bytes().to_vec(),
        type_args: Vec::new(),
    }
}

fn generic_tag(a: u8, module: &str, name: &str, args: Vec<StructTag>) -> StructTag {
    StructTag {
        address: addr(a),
        module: module.as_bytes().to_vec(),
        name: name.as_bytes().to_vec(),
        type_args: args,
    }
}

fn key(a: u8, group: &StructTag) -> GroupKey {
    GroupKey { address: addr(a), group: clone_tag(group) }
}

#[test]
fn tag_order_is_lexicographic() {
    let t1 = tag(1, "object", "Object");
    let t2 = tag(2, "object", "Object");
    assert_eq!(tag_cmp(&t1, &t2), TagOrder::Less);
    assert_eq!(tag_cmp(&t2, &t1), TagOrder::Greater);

    let t3 = tag(1, "object", "ObjectGroup");
    assert_eq!(tag_cmp(&t1, &t3), TagOrder::Less);

    let t4 = tag(1, "token", "Token");
    assert_eq!(tag_cmp(&t3, &t4), TagOrder::Less);

    let t5 = generic_tag(1, "object", "Object", vec![tag(1, "token", "Token")]);
    assert_eq!(tag_cmp(&t1, &t5), TagOrder::Less);
    assert_eq!(tag_cmp(&t5, &t5), TagOrder::Equal);
    assert_eq!(tag_cmp(&t1, &clone_tag(&t1)), TagOrder::Equal);
}

#[test]
fn member_map_set_get_remove() {
    let mut m = MemberMap::new();
    let t1 = tag(1, "object", "Object");
    let t2 = tag(1, "token", "Token");
    assert!(m.get(&t1).is_none());
    m.set(clone_tag(&t2), vec![9, 9]);
    m.set(clone_tag(&t1), vec![1, 2, 3]);
    assert_eq!(m.len(), 2);
    assert_eq!(m.get(&t1).unwrap().as_slice(), &[1, 2, 3]);
    assert_eq!(m.get(&t2).unwrap().as_slice(), &[9, 9]);
    m.set(clone_tag(&t1), vec![7]);
    assert_eq!(m.get(&t1).unwrap().as_slice(), &[7]);
    assert_eq!(m.len(), 2);
    assert!(m.remove(&t1));
    assert!(!m.remove(&t1));
    assert!(m.get(&t1).is_none());
    assert_eq!(m.len(), 1);
    let tags = m.tags();
    assert_eq!(tags.len(), 1);
    assert_eq!(tag_cmp(&tags[0], &t2), TagOrder::Equal);
}

#[test]
fn round_trip_preserves_members() {
    let mut m = MemberMap::new();
    let t1 = tag(1, "object", "Object");
    let t2 = tag(1, "token", "Token");
    let t3 = generic_tag(2, "coin", "Coin", vec![tag(3, "apt", "APT")]);
    m.set(clone_tag(&t1), vec![1, 2, 3]);
    m.set(clone_tag(&t2), b"Hero Quest!".to_vec());
    m.set(clone_tag(&t3), Vec::new());
    let blob = encode(&m);
    let back = decode(&blob).unwrap();
    assert_eq!(back.len(), 3);
    assert_eq!(back.get(&t1).unwrap().as_slice(), &[1, 2, 3]);
    assert_eq!(back.get(&t2).unwrap().as_slice(), b"Hero Quest!");
    assert!(back.get(&t3).unwrap().is_empty());
    // determinism: re-encoding the decoded map gives identical bytes
    assert_eq!(encode(&back), blob);
}

#[test]
fn encoding_is_insertion_order_independent() {
    let t1 = tag(1, "object", "Object");
    let t2 = tag(1, "token", "Token");
    let mut m1 = MemberMap::new();
    m1.set(clone_tag(&t1), vec![1]);
    m1.set(clone_tag(&t2), vec![2]);
    let mut m2 = MemberMap::new();
    m2.set(clone_tag(&t2), vec![2]);
    m2.set(clone_tag(&t1), vec![1]);
    assert_eq!(encode(&m1), encode(&m2));
}

fn singleton_entry_bytes(t: &StructTag, value: &[u8]) -> Vec<u8> {
    let mut m = MemberMap::new();
    m.set(clone_tag(t), value.to_vec());
    let blob = encode(&m);
    blob[8..].to_vec()
}

fn count_prefix(n: u64) -> Vec<u8> {
    n.to_le_bytes().to_vec()
}

#[test]
fn decode_rejects_out_of_order_tags() {
    let t1 = tag(1, "object", "Object");
    let t2 = tag(1, "token", "Token");
    let mut bad = count_prefix(2);
    bad.extend(singleton_entry_bytes(&t2, &[2]));
    bad.extend(singleton_entry_bytes(&t1, &[1]));
    assert!(decode(&bad).is_err());
}

#[test]
fn decode_rejects_duplicate_tags() {
    let t1 = tag(1, "object", "Object");
    let mut bad = count_prefix(2);
    bad.extend(singleton_entry_bytes(&t1, &[1]));
    bad.extend(singleton_entry_bytes(&t1, &[2]));
    assert!(decode(&bad).is_err());
}

#[test]
fn decode_rejects_truncation_and_trailing_bytes() {
    let mut m = MemberMap::new();
    m.set(tag(1, "object", "Object"), vec![1, 2, 3]);
    m.set(tag(1, "token", "Token"), vec![4]);
    let blob = encode(&m);
    for cut in [blob.len() - 1, blob.len() - 4, 9, 3] {
        let truncated = blob[..cut].to_vec();
        assert!(decode(&truncated).is_err(), "prefix of {} bytes accepted", cut);
    }
    let mut trailing = blob.clone();
    trailing.push(0);
    assert!(decode(&trailing).is_err());
}

#[test]
fn decode_rejects_empty_forms() {
    // a zero-length blob and an explicit empty map are both invalid:
    // an empty group must be an absent key instead
    assert!(decode(&Vec::new()).is_err());
    assert!(decode(&count_prefix(0)).is_err());
}

#[test]
fn group_store_reads_absent_and_present_members() {
    let group = tag(1, "object", "ObjectGroup");
    let t_obj = tag(1, "object", "Object");
    let t_tok = tag(1, "token", "Token");
    let g = key(0xca, &group);

    let mut m = MemberMap::new();
    m.set(clone_tag(&t_obj), vec![7]);
    let blob = encode(&m);
    let mut storage = Storage::new();
    storage.write_blob(key(0xca, &group), blob);

    let mut txn = TxnContext::begin(storage);
    assert!(txn.exists_group(&g).unwrap());
    assert_eq!(txn.get_member(&g, &t_obj).unwrap().unwrap(), vec![7]);
    assert!(txn.get_member(&g, &t_tok).unwrap().is_none());
    let members = txn.list_members(&g).unwrap();
    assert_eq!(members.len(), 1);
    assert_eq!(tag_cmp(&members[0], &t_obj), TagOrder::Equal);
}

#[test]
fn group_store_surfaces_corrupt_blob() {
    let group = tag(1, "object", "ObjectGroup");
    let g = key(0xca, &group);
    let mut storage = Storage::new();
    storage.write_blob(key(0xca, &group), vec![1, 2, 3]);
    let mut txn = TxnContext::begin(storage);
    assert!(txn.get_member(&g, &tag(1, "object", "Object")).is_err());
    assert!(txn.exists_group(&g).is_err());
}

#[test]
fn member_isolation_on_update() {
    let group = tag(1, "object", "ObjectGroup");
    let t_a = tag(1, "object", "Object");
    let t_b = tag(1, "token", "Token");
    let g = key(0xca, &group);

    let mut m = MemberMap::new();
    m.set(clone_tag(&t_a), vec![1, 1, 1]);
    m.set(clone_tag(&t_b), b"unchanged".to_vec());
    let mut storage = Storage::new();
    storage.write_blob(key(0xca, &group), encode(&m));

    let mut txn = TxnContext::begin(storage);
    txn.set_member(&g, &t_a, vec![9, 9]).unwrap();
    assert_eq!(txn.get_member(&g, &t_a).unwrap().unwrap(), vec![9, 9]);
    assert_eq!(txn.get_member(&g, &t_b).unwrap().unwrap(), b"unchanged".to_vec());
}

#[test]
fn group_disappears_when_last_member_removed() {
    let group = tag(1, "object", "ObjectGroup");
    let t_a = tag(1, "object", "Object");
    let g = key(0xca, &group);

    let mut m = MemberMap::new();
    m.set(clone_tag(&t_a), vec![1]);
    let mut storage = Storage::new();
    storage.write_blob(key(0xca, &group), encode(&m));

    let mut txn = TxnContext::begin(storage);
    assert!(txn.exists_group(&g).unwrap());
    assert!(txn.remove_member(&g, &t_a).unwrap());
    assert!(!txn.exists_group(&g).unwrap());
    assert!(txn.get_member(&g, &t_a).unwrap().is_none());
    assert!(txn.get_member(&g, &tag(9, "any", "Any")).unwrap().is_none());
}

#[test]
fn delete_completeness_after_removing_every_member() {
    let group = tag(1, "object", "ObjectGroup");
    let t_a = tag(1, "object", "Object");
    let t_b = tag(1, "token", "Token");
    let g = key(0xca, &group);

    let mut m = MemberMap::new();
    m.set(clone_tag(&t_a), vec![1]);
    m.set(clone_tag(&t_b), vec![2]);
    let mut storage = Storage::new();
    storage.write_blob(key(0xca, &group), encode(&m));

    let mut txn = TxnContext::begin(storage);
    assert!(txn.remove_member(&g, &t_a).unwrap());
    assert!(txn.remove_member(&g, &t_b).unwrap());
    let ops = txn.commit();
    assert_eq!(ops.len(), 1);
    assert!(ops[0].1.is_none(), "an emptied group must be deleted, not stored empty");

    let mut storage = txn.base;
    apply_ops(&mut storage, &ops);
    assert!(storage.get_blob(&g).is_none());

    let mut txn2 = TxnContext::begin(storage);
    assert!(!txn2.exists_group(&g).unwrap());
}

#[test]
fn commit_skips_clean_groups_and_reencodes_dirty_ones() {
    let group = tag(1, "object", "ObjectGroup");
    let t_a = tag(1, "object", "Object");
    let g = key(0xca, &group);

    let mut storage = Storage::new();
    let mut txn = TxnContext::begin(storage);
    // read-only touch emits nothing
    assert!(!txn.exists_group(&g).unwrap());
    assert_eq!(txn.commit().len(), 0);
    // a write to a fresh group emits exactly its encoded blob
    txn.set_member(&g, &t_a, vec![5, 5]).unwrap();
    let ops = txn.commit();
    assert_eq!(ops.len(), 1);
    let blob = ops[0].1.as_ref().unwrap();
    let back = decode(blob).unwrap();
    assert_eq!(back.get(&t_a).unwrap().as_slice(), &[5, 5]);

    storage = txn.base;
    apply_ops(&mut storage, &ops);
    let mut txn2 = TxnContext::begin(storage);
    assert!(txn2.exists_group(&g).unwrap());
    assert_eq!(txn2.get_member(&g, &t_a).unwrap().unwrap(), vec![5, 5]);
}

#[test]
fn disjoint_member_writes_do_not_conflict() {
    let group = tag(1, "object", "ObjectGroup");
    let t_a = tag(1, "object", "Object");
    let t_b = tag(1, "token", "Token");
    let g = key(0xca, &group);

    let mut txn1 = TxnContext::begin(Storage::new());
    txn1.set_member(&g, &t_a, vec![1]).unwrap();
    let mut txn2 = TxnContext::begin(Storage::new());
    txn2.set_member(&g, &t_b, vec![2]).unwrap();
    assert!(!conflicts(&txn1.tracker, &txn2.tracker));
}

#[test]
fn same_member_writes_conflict() {
    let group = tag(1, "object", "ObjectGroup");
    let t_a = tag(1, "object", "Object");
    let g = key(0xca, &group);

    let mut txn1 = TxnContext::begin(Storage::new());
    txn1.set_member(&g, &t_a, vec![1]).unwrap();
    let mut txn2 = TxnContext::begin(Storage::new());
    txn2.set_member(&g, &t_a, vec![2]).unwrap();
    assert!(conflicts(&txn1.tracker, &txn2.tracker));
}

#[test]
fn read_write_and_group_read_conflicts() {
    let group = tag(1, "object", "ObjectGroup");
    let t_a = tag(1, "object", "Object");
    let t_b = tag(1, "token", "Token");
    let g = key(0xca, &group);

    // member read vs write of the same member
    let mut reader = TxnContext::begin(Storage::new());
    let _ = reader.get_member(&g, &t_a).unwrap();
    let mut writer = TxnContext::begin(Storage::new());
    writer.set_member(&g, &t_a, vec![1]).unwrap();
    assert!(conflicts(&reader.tracker, &writer.tracker));

    // member read vs write of another member: no conflict
    let mut writer_b = TxnContext::begin(Storage::new());
    writer_b.set_member(&g, &t_b, vec![1]).unwrap();
    assert!(!conflicts(&reader.tracker, &writer_b.tracker));

    // whole-group read vs any member write of that group
    let mut lister = TxnContext::begin(Storage::new());
    let _ = lister.list_members(&g).unwrap();
    assert!(conflicts(&lister.tracker, &writer_b.tracker));
}

#[test]
fn native_exists_at_charges_and_answers() {
    let gas = ExistsAtGasParameters { base_cost: 404 };
    let group = tag(1, "object", "ObjectGroup");
    let t_obj = tag(1, "object", "Object");
    let g = key(0xca, &group);

    let mut m = MemberMap::new();
    m.set(clone_tag(&t_obj), vec![7]);
    let mut storage = Storage::new();
    storage.write_blob(key(0xca, &group), encode(&m));
    let mut txn = TxnContext::begin(storage);

    let outcome = native_exists_at(
        &gas,
        &mut txn,
        &ResolvedType::Struct(clone_tag(&t_obj)),
        &ResourceLocation::InGroup(clone_tag(&group)),
        &addr(0xca),
    )
    .unwrap();
    assert_eq!(outcome.gas_charged, 404);
    assert_eq!(outcome.result, Ok(true));

    let absent = native_exists_at(
        &gas,
        &mut txn,
        &ResolvedType::Struct(tag(1, "token", "Token")),
        &ResourceLocation::InGroup(clone_tag(&group)),
        &addr(0xca),
    )
    .unwrap();
    assert_eq!(absent.result, Ok(false));

    let non_struct = native_exists_at(
        &gas,
        &mut txn,
        &ResolvedType::NonStruct,
        &ResourceLocation::Plain,
        &addr(0xca),
    )
    .unwrap();
    assert_eq!(non_struct.gas_charged, 404);
    assert_eq!(non_struct.result, Err(NativeError::TypeResolutionFailure));
}

#[test]
fn native_create_signer_binds_address() {
    let params = GasParameters::new(32);
    assert_eq!(params.exists_at.base_cost, 32);
    let (signer, charged) = native_create_signer(32, addr(0xca));
    assert_eq!(charged, 32);
    assert_eq!(signer.address.bytes, vec![0xca; 32]);
}

#[test]
fn end_to_end_token_scenario() {
    // group G holds Object {guid: 7} and Token {name, description}
    let group = tag(1, "object", "ObjectGroup");
    let t_obj = tag(1, "object", "Object");
    let t_tok = tag(1, "token", "Token");
    let g = key(0xca, &group);

    let object_value = 7u64.to_le_bytes().to_vec();
    let token_value = |name: &str, description: &str| -> Vec<u8> {
        let mut v = (name.len() as u64).to_le_bytes().to_vec();
        v.extend(name.as_bytes());
        v.extend((description.len() as u64).to_le_bytes());
        v.extend(description.as_bytes());
        v
    };
    let token_v1 = token_value("Hero Quest!", "Beautiful specimen!");

    let mut m = MemberMap::new();
    m.set(clone_tag(&t_obj), object_value.clone());
    m.set(clone_tag(&t_tok), token_v1);
    let mut storage = Storage::new();
    storage.write_blob(key(0xca, &group), encode(&m));

    // transaction 1: update the token's description only
    let mut txn1 = TxnContext::begin(storage);
    let token_v2 = token_value("Hero Quest!", "Heck no!");
    txn1.set_member(&g, &t_tok, token_v2.clone()).unwrap();
    assert_eq!(txn1.get_member(&g, &t_obj).unwrap().unwrap(), object_value);
    assert_eq!(txn1.get_member(&g, &t_tok).unwrap().unwrap(), token_v2);
    let ops = txn1.commit();
    let mut storage = txn1.base;
    apply_ops(&mut storage, &ops);

    // the committed blob still holds the untouched object member
    let mut check = TxnContext::begin(storage);
    assert_eq!(check.get_member(&g, &t_obj).unwrap().unwrap(), object_value);
    assert_eq!(check.get_member(&g, &t_tok).unwrap().unwrap(), token_v2);
    let storage = check.base;

    // transaction 2: delete both members; the group key vanishes
    let mut txn2 = TxnContext::begin(storage);
    assert!(txn2.remove_member(&g, &t_tok).unwrap());
    assert!(txn2.remove_member(&g, &t_obj).unwrap());
    let ops = txn2.commit();
    let mut storage = txn2.base;
    apply_ops(&mut storage, &ops);

    assert!(storage.get_blob(&g).is_none());
    let mut txn3 = TxnContext::begin(storage);
    assert!(!txn3.exists_group(&g).unwrap());
}
