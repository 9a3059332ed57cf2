use starknet_types_core::felt::Felt as SFelt;
use storage_trie::accum::Accumulator;
use storage_trie::commit::{storage_root, StoredTrie};
use storage_trie::err::TrieError;
use storage_trie::felt::Felt;
use storage_trie::hashing::binary_node_hash;
use storage_trie::retry::RetryPolicy;
use storage_trie::trie::Trie;

#[test]
fn felt_from_u64_roundtrip() {
    let a = Felt::from_u64(0xdead_beef_0123_4567);
    let b = Felt::from_u64(0xdead_beef_0123_4567);
    let c = Felt::from_u64(1);
    assert!(a.eq(&b));
    assert!(a.eq_val(&b));
    assert!(!a.eq(&c));
    assert!(!a.eq_val(&c));
}

#[test]
fn felt_from_be_bytes_checks_width() {
    let mut ok = vec![0u8; 32];
    ok[0] = 7;
    ok[31] = 9;
    let f = Felt::from_be_bytes(&ok).unwrap();
    assert!(!f.eq(&Felt::from_u64(9)));

    let mut wide = vec![0u8; 32];
    wide[0] = 8;
    assert!(Felt::from_be_bytes(&wide).is_none());
    assert!(Felt::from_be_bytes(&vec![0u8; 31]).is_none());
}

#[test]
fn key_path_of_one() {
    let path = Felt::from_u64(1).key_path();
    assert_eq!(path.len(), 251);
    for i in 0..250 {
        assert!(!path[i]);
    }
    assert!(path[250]);
}

#[test]
fn key_path_checked_accepts_narrow_keys() {
    let k = Felt::from_u64(u64::MAX);
    let p = k.key_path_checked().unwrap();
    assert_eq!(p.len(), 251);
    assert_eq!(p, k.key_path());
}

#[test]
fn insert_rejects_wrong_path_length() {
    let mut trie = Trie::new();
    let short = vec![true; 250];
    let res = trie.insert_path(&short, &Felt::from_u64(1));
    assert_eq!(res, Err(TrieError::InvalidKeyLength));
    let long = vec![false; 252];
    let res = trie.insert_path(&long, &Felt::from_u64(1));
    assert_eq!(res, Err(TrieError::InvalidKeyLength));
    let exact = Felt::from_u64(6).key_path();
    assert!(trie.insert_path(&exact, &Felt::from_u64(1)).is_ok());
}

#[test]
fn pedersen_matches_published_vector() {
    // the pair documented for the Starknet Pedersen hash
    let x = SFelt::from_hex("0x03d937c035c878245caf64531a5756109c53068da139362728feb561405371cb")
        .unwrap();
    let y = SFelt::from_hex("0x0208a0a10250e382e1e4bbe2880906c2791bf6275695e02fbbc6aeff9cd8b31a")
        .unwrap();
    let expected =
        SFelt::from_hex("0x030e480bed5fe53fa909cc0f8c4d99b8f9f2c016be4c41e13a4848797979c662")
            .unwrap();
    let xf = Felt::from_be_bytes(&x.to_bytes_be().to_vec()).unwrap();
    let yf = Felt::from_be_bytes(&y.to_bytes_be().to_vec()).unwrap();
    let ef = Felt::from_be_bytes(&expected.to_bytes_be().to_vec()).unwrap();
    assert!(binary_node_hash(&xf, &yf).eq(&ef));
}

#[test]
fn accumulator_last_write_wins_across_batches() {
    let mut acc = Accumulator::new();
    acc.extend(&vec![
        (Felt::from_u64(1), Felt::from_u64(10)),
        (Felt::from_u64(2), Felt::from_u64(20)),
    ]);
    acc.extend(&vec![
        (Felt::from_u64(1), Felt::from_u64(11)),
        (Felt::from_u64(3), Felt::from_u64(30)),
    ]);
    let snap = acc.snapshot();

    let direct = vec![
        (Felt::from_u64(1), Felt::from_u64(11)),
        (Felt::from_u64(2), Felt::from_u64(20)),
        (Felt::from_u64(3), Felt::from_u64(30)),
    ];
    let mut s1 = StoredTrie::new();
    let mut s2 = StoredTrie::new();
    let r1 = storage_root(&snap, &mut s1).unwrap();
    let r2 = storage_root(&direct, &mut s2).unwrap();
    assert!(r1.eq(&r2));
}

#[test]
fn retry_policy_counts_down() {
    let mut p = RetryPolicy::new();
    let mut failures = 0;
    while p.should_attempt() {
        let delay = p.on_failure();
        assert_eq!(delay, 5);
        failures += 1;
    }
    assert_eq!(failures, 15);
    assert!(!p.should_attempt());
}

#[test]
fn wide_key_is_rejected_by_checked_encoder() {
    // digests may exceed the 251-bit key width; the checked encoder must
    // reject such a key rather than truncate it
    let mut probe = Felt::from_u64(1);
    for i in 0..300u64 {
        let h = binary_node_hash(&probe, &Felt::from_u64(i));
        if h.to_be_bytes()[0] >= 8 {
            assert_eq!(h.key_path_checked(), Err(TrieError::InvalidKey));
            return;
        }
        probe = h;
    }
}
