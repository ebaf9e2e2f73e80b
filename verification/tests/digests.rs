use pds::digest::{climb, next_level, pad, round_up, same_digest, steps_from, top_of};
use pds::hash_map::HashMap;
use pds::merkle_wrapper::{DiffEntry, MerkleWrapper};
use pds::persistent_map::PersistentMap;
use pds::record::Record;

fn leaf(key: &str, value: u64) -> [u8; 32] {
    let mut bytes = postcard::to_allocvec(key).unwrap();
    bytes.extend(postcard::to_allocvec(&value).unwrap());
    *blake3::hash(&bytes).as_bytes()
}

fn join(a: &[u8; 32], b: &[u8; 32]) -> [u8; 32] {
    let mut bytes = a.to_vec();
    bytes.extend(b);
    *blake3::hash(&bytes).as_bytes()
}

fn map_of(list: &[(&str, u64)]) -> MerkleWrapper<HashMap<String, u64>, String, u64> {
    let mut map = MerkleWrapper::new(HashMap::new());
    for (k, v) in list {
        map = map.insert(k.to_string(), *v);
    }
    map
}

#[test]
fn records_of_known_values() {
    assert_eq!(0u64.write(), vec![0]);
    assert_eq!(127u64.write(), vec![127]);
    assert_eq!(128u64.write(), vec![0x80, 1]);
    assert_eq!(300u64.write(), vec![0xac, 2]);
    assert_eq!(300u16.write(), vec![0xac, 2]);
    assert_eq!(300u32.write(), vec![0xac, 2]);
    assert_eq!(300usize.write(), vec![0xac, 2]);
    assert_eq!(
        u64::MAX.write(),
        vec![0xff, 0xff, 0xff, 0xff, 0xff, 0xff, 0xff, 0xff, 0xff, 1]
    );
    assert_eq!(0i64.write(), vec![0]);
    assert_eq!((-1i64).write(), vec![1]);
    assert_eq!(1i64.write(), vec![2]);
    assert_eq!((-65i16).write(), vec![0x81, 1]);
    assert_eq!(i64::MIN.write(), u64::MAX.write());
    assert_eq!((-1i32).write(), vec![1]);
    assert_eq!((-1isize).write(), vec![1]);
    assert_eq!(200u8.write(), vec![200]);
    assert_eq!(true.write(), vec![1]);
    assert_eq!(false.write(), vec![0]);
    assert_eq!("".write(), vec![0]);
    assert_eq!("é".to_string().write(), vec![2, 0xc3, 0xa9]);
}

#[test]
fn records_are_those_of_the_format() {
    for n in [0u64, 1, 127, 128, 16383, 16384, u64::MAX] {
        assert_eq!(n.write(), postcard::to_allocvec(&n).unwrap());
        assert_eq!((n as u32).write(), postcard::to_allocvec(&(n as u32)).unwrap());
        assert_eq!((n as u16).write(), postcard::to_allocvec(&(n as u16)).unwrap());
        assert_eq!((n as usize).write(), postcard::to_allocvec(&(n as usize)).unwrap());
        assert_eq!((n as u8).write(), postcard::to_allocvec(&(n as u8)).unwrap());
        assert_eq!((n as i64).write(), postcard::to_allocvec(&(n as i64)).unwrap());
        assert_eq!((n as i32).write(), postcard::to_allocvec(&(n as i32)).unwrap());
        assert_eq!((n as i16).write(), postcard::to_allocvec(&(n as i16)).unwrap());
        assert_eq!((n as isize).write(), postcard::to_allocvec(&(n as isize)).unwrap());
    }
    for n in [0u128, 1, u64::MAX as u128 + 1, u128::MAX] {
        assert_eq!(n.write(), postcard::to_allocvec(&n).unwrap());
        assert_eq!((n as i128).write(), postcard::to_allocvec(&(n as i128)).unwrap());
    }
    assert_eq!((-2i8).write(), postcard::to_allocvec(&-2i8).unwrap());
    for c in ['a', '\u{e9}', '\u{1f600}'] {
        assert_eq!(c.write(), postcard::to_allocvec(&c).unwrap());
    }
    assert_eq!(().write(), postcard::to_allocvec(&()).unwrap());
    assert_eq!(Some(300u16).write(), postcard::to_allocvec(&Some(300u16)).unwrap());
    assert_eq!(None::<u16>.write(), postcard::to_allocvec(&None::<u16>).unwrap());
    let list = vec![1u64, 200, 70000];
    assert_eq!(list.write(), postcard::to_allocvec(&list).unwrap());
    assert_eq!(list.duplicate(), list);
    let pair = (1u8, "two".to_string());
    assert_eq!(pair.write(), postcard::to_allocvec(&pair).unwrap());
    assert_eq!(pair.duplicate(), pair);
    let many = (1u8, 'x', -3i32, true, 5u64, ());
    assert_eq!(many.write(), postcard::to_allocvec(&many).unwrap());
    assert!(many.same_record(&many.duplicate()));
    assert!(!many.same_record(&(1, 'x', -3, true, 6, ())));
    assert_eq!(true.write(), postcard::to_allocvec(&true).unwrap());
    assert_eq!("key".write(), postcard::to_allocvec("key").unwrap());
}

#[test]
fn root_of_one_entry_is_its_leaf() {
    let map = map_of(&[("only", 42)]);
    assert_eq!(map.root_hash(), leaf("only", 42));
    assert_eq!(map.prove_inclusion(&"only".to_string()), Some(vec![]));
}

#[test]
fn root_of_three_entries_is_padded() {
    let map = map_of(&[("a", 1), ("b", 2), ("c", 3)]);
    let mut leaves = vec![leaf("a", 1), leaf("b", 2), leaf("c", 3)];
    leaves.sort();
    let zero = [0u8; 32];
    let left = join(&leaves[0], &leaves[1]);
    let right = join(&leaves[2], &zero);
    assert_eq!(map.root_hash(), join(&left, &right));
    assert_eq!(map.root_hash_at(map.version()), Some(map.root_hash()));
    assert_eq!(map.root_hash_at([7; 32]), None);
}

#[test]
fn proofs_of_all_sizes_lead_to_the_root() {
    let mut map = map_of(&[]);
    for n in 0..20u64 {
        map = map.insert(format!("key {n}"), n);
        let root = map.root_hash();
        for i in 0..=n {
            let key = format!("key {i}");
            let proof = map.prove_inclusion_at(root, &key).unwrap();
            assert!(MerkleWrapper::<HashMap<String, u64>, String, u64>::verify_proof(
                &root, &key, &i, &proof
            ));
            assert!(!MerkleWrapper::<HashMap<String, u64>, String, u64>::verify_proof(
                &root,
                &key,
                &(i + 1),
                &proof
            ));
        }
        assert_eq!(map.prove_inclusion_at([7; 32], &"key 0".to_string()), None);
    }
}

#[test]
fn differences_tell_every_entry() {
    let map = map_of(&[("a", 1), ("b", 2)]);
    let now = map.version();
    let mut inserted: Vec<(String, u64)> = map
        .diff([9; 32], now)
        .into_iter()
        .map(|entry| match entry {
            DiffEntry::Inserted { key, value } => (key, value),
            DiffEntry::Removed { .. } => panic!(),
        })
        .collect();
    inserted.sort();
    assert_eq!(inserted, vec![("a".to_string(), 1), ("b".to_string(), 2)]);
    let removed = map.diff(now, [9; 32]);
    assert_eq!(removed.len(), 2);
    assert!(removed.iter().all(|entry| matches!(entry, DiffEntry::Removed { .. })));
    assert!(map.diff([8; 32], [9; 32]).is_empty());
}

#[test]
fn levels_of_a_tree() {
    let a = [1u8; 32];
    let b = [2u8; 32];
    let c = [3u8; 32];
    assert_eq!(next_level(&vec![a, b, c]), vec![join(&a, &b)]);
    assert_eq!(top_of(vec![a]), a);
    assert_eq!(top_of(vec![a, b]), join(&a, &b));
    let mut leaves = vec![a, b, c];
    pad(&mut leaves);
    assert_eq!(leaves, vec![a, b, c, [0; 32]]);
    let steps = steps_from(leaves.clone(), 2);
    assert_eq!(steps, vec![([0; 32], false), (join(&a, &b), true)]);
    assert_eq!(climb(c, &steps), top_of(leaves));
    assert!(same_digest(&a, &[1; 32]));
    assert!(!same_digest(&a, &b));
}

#[test]
fn rounding_up_to_powers_of_two() {
    let expected = [1, 1, 2, 4, 4, 8, 8, 8, 8, 16];
    for (n, p) in expected.iter().enumerate() {
        assert_eq!(round_up(n), *p);
    }
    assert_eq!(round_up(1025), 2048);
}
