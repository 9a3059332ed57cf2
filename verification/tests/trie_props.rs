use starknet_types_core::felt::Felt as SFelt;
use starknet_types_core::hash::{Pedersen, StarkHash};
use storage_trie::commit::{commit, storage_root, StoredTrie};
use storage_trie::felt::Felt;
use storage_trie::hashing::{binary_node_hash, edge_node_hash};
use storage_trie::trie::Trie;

fn pair(k: u64, v: u64) -> (Felt, Felt) {
    (Felt::from_u64(k), Felt::from_u64(v))
}

#[test]
fn single_leaf_scenario() {
    // inserting (key = 0x1, value = 0x2A) into an empty depth-251 trie must
    // commit to hash(LeafEdge{path = bits of 0x1}, 0x2A)
    let mut trie = Trie::new();
    let key = Felt::from_u64(0x1);
    let value = Felt::from_u64(0x2A);
    trie.insert(&key, &value);
    let mut storage = StoredTrie::new();
    let out = commit(&trie, &mut storage).unwrap();

    let path = key.key_path();
    assert_eq!(path.len(), 251);
    let expected = edge_node_hash(&value, &path);
    assert!(out.root_hash.eq(&expected));
    assert!(out.root_index.is_some());
}

#[test]
fn single_leaf_matches_outside_pedersen() {
    // the same scenario, checked against a direct computation with the
    // outside Pedersen implementation: H(0x2A, 0x1) + 251
    let mut trie = Trie::new();
    trie.insert(&Felt::from_u64(0x1), &Felt::from_u64(0x2A));
    let mut storage = StoredTrie::new();
    let out = commit(&trie, &mut storage).unwrap();

    let h = Pedersen::hash(&SFelt::from(0x2Au64), &SFelt::from(0x1u64)) + SFelt::from(251u64);
    let expected = Felt::from_be_bytes(&h.to_bytes_be().to_vec()).unwrap();
    assert!(out.root_hash.eq(&expected));
}

#[test]
fn empty_trie_root_is_zero() {
    let trie = Trie::new();
    let mut storage = StoredTrie::new();
    let out = commit(&trie, &mut storage).unwrap();
    assert!(out.root_hash.eq(&Felt::from_u64(0)));
    assert!(out.root_index.is_none());
    assert_eq!(storage.nodes.len(), 0);
}

#[test]
fn order_independence() {
    let a = pair(0x1, 0x10);
    let b = pair(0x2, 0x20);
    let c = pair(0x123456789abcdef, 0x30);
    let perm1 = vec![a.clone(), b.clone(), c.clone()];
    let perm2 = vec![c.clone(), a.clone(), b.clone()];
    let perm3 = vec![b, c, a];

    let mut s1 = StoredTrie::new();
    let mut s2 = StoredTrie::new();
    let mut s3 = StoredTrie::new();
    let r1 = storage_root(&perm1, &mut s1).unwrap();
    let r2 = storage_root(&perm2, &mut s2).unwrap();
    let r3 = storage_root(&perm3, &mut s3).unwrap();
    assert!(r1.eq(&r2));
    assert!(r1.eq(&r3));
}

#[test]
fn idempotent_recommit() {
    let mut trie = Trie::new();
    trie.insert(&Felt::from_u64(5), &Felt::from_u64(55));
    trie.insert(&Felt::from_u64(9), &Felt::from_u64(99));
    let mut storage = StoredTrie::new();
    let first = commit(&trie, &mut storage).unwrap();
    let nodes_after_first = storage.nodes.len();
    let second = commit(&trie, &mut storage).unwrap();
    assert!(first.root_hash.eq(&second.root_hash));
    // no new index was assigned by the second call
    assert_eq!(storage.nodes.len(), nodes_after_first);
}

#[test]
fn overwrite_before_commit() {
    let key = Felt::from_u64(0x77);
    let mut t1 = Trie::new();
    t1.insert(&key, &Felt::from_u64(1));
    t1.insert(&key, &Felt::from_u64(2));
    let mut t2 = Trie::new();
    t2.insert(&key, &Felt::from_u64(2));
    let mut s1 = StoredTrie::new();
    let mut s2 = StoredTrie::new();
    let r1 = commit(&t1, &mut s1).unwrap();
    let r2 = commit(&t2, &mut s2).unwrap();
    assert!(r1.root_hash.eq(&r2.root_hash));
}

#[test]
fn content_addressed_sharing() {
    // keys 0 and 1 differ in the last bit only; with one value their two
    // leaves hash identically and must share a single stored entry
    let v = Felt::from_u64(42);
    let mut trie = Trie::new();
    trie.insert(&Felt::from_u64(0), &v);
    trie.insert(&Felt::from_u64(1), &v);
    let mut storage = StoredTrie::new();
    commit(&trie, &mut storage).unwrap();
    let mut leaf_entries = 0;
    for e in storage.nodes.iter() {
        if e.hash.eq(&v) {
            leaf_entries += 1;
        }
    }
    assert_eq!(leaf_entries, 1);
}

#[test]
fn two_keys_match_manual_hash_composition() {
    // an independent computation of the same commitment: keys 0 and 1 share
    // a 250-bit prefix of zeros, so the trie is one edge over a binary node
    // over the two leaves
    let va = Felt::from_u64(7);
    let vb = Felt::from_u64(8);
    let pairs = vec![
        (Felt::from_u64(0), va.clone()),
        (Felt::from_u64(1), vb.clone()),
    ];
    let mut storage = StoredTrie::new();
    let root = storage_root(&pairs, &mut storage).unwrap();

    let bottom = binary_node_hash(&va, &vb);
    let prefix = vec![false; 250];
    let expected = edge_node_hash(&bottom, &prefix);
    assert!(root.eq(&expected));
}

#[test]
fn recommit_after_new_insert_reuses_old_entries() {
    let mut trie = Trie::new();
    trie.insert(&Felt::from_u64(3), &Felt::from_u64(33));
    let mut storage = StoredTrie::new();
    commit(&trie, &mut storage).unwrap();
    let before = storage.nodes.len();
    trie.insert(&Felt::from_u64(4), &Felt::from_u64(44));
    let out = commit(&trie, &mut storage).unwrap();
    // the store only ever grows, and the new root is addressed in it
    assert!(storage.nodes.len() >= before);
    let ix = out.root_index.unwrap() as usize;
    assert!(storage.nodes[ix].hash.eq(&out.root_hash));
}
