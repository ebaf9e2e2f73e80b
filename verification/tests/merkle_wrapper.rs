use pds::hash_map::HashMap;
use pds::merkle_wrapper::{DiffEntry, MerkleWrapper};
use pds::persistent_map::PersistentMap;

type TestMap = MerkleWrapper<HashMap<String, u64>, String, u64>;

fn empty() -> TestMap {
    MerkleWrapper::new(HashMap::new())
}

#[test]
fn root_hash_empty_is_zero() {
    let m = empty();
    assert_eq!(m.root_hash(), [0u8; 32]);
}

#[test]
fn root_hash_round_trip_same_content() {
    let m = empty()
        .insert("a".to_string(), 1u64)
        .insert("b".to_string(), 2u64);
    let m2 = empty()
        .insert("b".to_string(), 2u64)
        .insert("a".to_string(), 1u64);
    // Same content regardless of insertion order → same root.
    assert_eq!(m.root_hash(), m2.root_hash());
}

#[test]
fn root_hash_mutation_changes_hash() {
    let m1 = empty().insert("x".to_string(), 42u64);
    let m2 = m1.insert("x".to_string(), 99u64);
    assert_ne!(m1.root_hash(), m2.root_hash());
}

#[test]
fn root_hash_insert_changes_hash() {
    let m1 = empty();
    let m2 = m1.insert("k".to_string(), 1u64);
    assert_ne!(m1.root_hash(), m2.root_hash());
}

#[test]
fn root_hash_cached_after_first_call() {
    let m = empty().insert("z".to_string(), 7u64);
    let h1 = m.root_hash();
    let h2 = m.root_hash();
    assert_eq!(h1, h2);
}

#[test]
fn clone_has_same_root() {
    let m = empty().insert("c".to_string(), 3u64);
    let h = m.root_hash();
    let clone = m.clone();
    assert_eq!(clone.root_hash(), h);
}

#[test]
fn version_equals_root_hash() {
    let m = empty().insert("v".to_string(), 5u64);
    assert_eq!(m.version(), m.root_hash());
}

#[test]
fn get_at_current_version_returns_value() {
    let m = empty().insert("k".to_string(), 100u64);
    let vid = m.version();
    assert_eq!(m.get_at(vid, &"k".to_string()), Some(100u64));
}

#[test]
fn get_at_wrong_version_returns_none() {
    let m = empty().insert("k".to_string(), 100u64);
    let wrong_vid = [0u8; 32];
    // Only fails if the root is actually non-zero.
    if m.version() != wrong_vid {
        assert_eq!(m.get_at(wrong_vid, &"k".to_string()), None);
    }
}

#[test]
fn checkout_current_version_returns_clone() {
    let m = empty().insert("r".to_string(), 8u64);
    let vid = m.version();
    let checked = m.checkout(vid);
    assert!(checked.is_some());
    let c = checked.unwrap();
    assert_eq!(c.root_hash(), vid);
}

#[test]
fn checkout_wrong_version_returns_none() {
    let m = empty().insert("r".to_string(), 8u64);
    let wrong_vid = [1u8; 32];
    if m.version() != wrong_vid {
        assert!(m.checkout(wrong_vid).is_none());
    }
}

#[test]
fn prove_inclusion_absent_key_returns_none() {
    let m = empty().insert("a".to_string(), 1u64);
    assert!(m.prove_inclusion(&"z".to_string()).is_none());
}

#[test]
fn proof_round_trip_single_entry() {
    let m = empty().insert("only".to_string(), 42u64);
    let root = m.root_hash();
    let proof = m
        .prove_inclusion(&"only".to_string())
        .expect("key is present");
    assert!(TestMap::verify_proof(
        &root,
        &"only".to_string(),
        &42u64,
        &proof
    ));
}

#[test]
fn proof_round_trip_multiple_entries() {
    let m = empty()
        .insert("alpha".to_string(), 1u64)
        .insert("beta".to_string(), 2u64)
        .insert("gamma".to_string(), 3u64);
    let root = m.root_hash();

    for (k, v) in [
        ("alpha".to_string(), 1u64),
        ("beta".to_string(), 2u64),
        ("gamma".to_string(), 3u64),
    ] {
        let proof = m.prove_inclusion(&k).expect("key is present");
        assert!(
            TestMap::verify_proof(&root, &k, &v, &proof),
            "verify_proof failed for key {k}"
        );
    }
}

#[test]
fn verify_proof_fails_for_tampered_value() {
    let m = empty().insert("key".to_string(), 1u64);
    let root = m.root_hash();
    let proof = m
        .prove_inclusion(&"key".to_string())
        .expect("key is present");
    // Use a different value — proof should fail.
    assert!(!TestMap::verify_proof(
        &root,
        &"key".to_string(),
        &999u64,
        &proof
    ));
}

#[test]
fn verify_proof_fails_for_wrong_key() {
    let m = empty().insert("key".to_string(), 1u64);
    let root = m.root_hash();
    let proof = m
        .prove_inclusion(&"key".to_string())
        .expect("key is present");
    // Use a different key — proof should fail.
    assert!(!TestMap::verify_proof(
        &root,
        &"other_key".to_string(),
        &1u64,
        &proof
    ));
}

#[test]
fn persistent_map_get_cloned() {
    let m = empty().insert("a".to_string(), 10u64);
    assert_eq!(m.get_cloned(&"a".to_string()), Some(10u64));
    assert_eq!(m.get_cloned(&"b".to_string()), None);
}

#[test]
fn persistent_map_remove() {
    let m = empty()
        .insert("a".to_string(), 1u64)
        .insert("b".to_string(), 2u64);
    let (m2, removed) = m.remove(&"a".to_string());
    assert_eq!(removed, Some(1u64));
    assert!(!m2.contains_key(&"a".to_string()));
    // Original unchanged.
    assert!(m.contains_key(&"a".to_string()));
    // Root hash changes after remove.
    assert_ne!(m.root_hash(), m2.root_hash());
}

#[test]
fn persistent_map_is_empty_len() {
    let m = empty();
    assert!(m.is_empty());
    assert_eq!(m.len(), 0);
    let m2 = m.insert("x".to_string(), 0u64);
    assert!(!m2.is_empty());
    assert_eq!(m2.len(), 1);
}

#[test]
fn diff_same_version_is_empty() {
    let m = empty().insert("a".to_string(), 1u64);
    let vid = m.version();
    let entries = m.diff(vid, vid);
    assert!(entries.is_empty());
}

#[test]
fn diff_unknown_to_current_yields_inserted() {
    let m = empty().insert("a".to_string(), 1u64);
    let current = m.version();
    let unknown = [0u8; 32];
    if current != unknown {
        let entries = m.diff(unknown, current);
        assert_eq!(entries.len(), 1);
        assert!(matches!(
            &entries[0],
            DiffEntry::Inserted { key, .. } if key == "a"
        ));
    }
}

#[test]
fn diff_current_to_unknown_yields_removed() {
    let m = empty().insert("a".to_string(), 1u64);
    let current = m.version();
    let unknown = [0u8; 32];
    if current != unknown {
        let entries = m.diff(current, unknown);
        assert_eq!(entries.len(), 1);
        assert!(matches!(
            &entries[0],
            DiffEntry::Removed { key, .. } if key == "a"
        ));
    }
}
