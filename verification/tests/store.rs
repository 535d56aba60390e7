use merkle_vector::store::{InMemoryBackend, ReadBackend, WriteBackend, resolves};
use merkle_vector::value::{intermediate_of, BackendError, Value};

fn leaf(byte: u8) -> Value {
    let mut bytes = [0u8; 32];
    bytes[0] = byte;
    Value::End(bytes)
}

// SHA-256 of 64 zero bytes.
const ZERO_PAIR: [u8; 32] = [
    0xf5, 0xa5, 0xfd, 0x42, 0xd1, 0x6a, 0x20, 0x30, 0x27, 0x98, 0xef, 0x6e, 0xd3, 0x09, 0x97, 0x9b,
    0x43, 0x00, 0x3d, 0x23, 0x20, 0xd9, 0xf0, 0xe8, 0xea, 0x98, 0x31, 0xa9, 0x27, 0x59, 0xfb, 0x4b,
];

#[test]
fn pair_hash_is_sha256_of_the_concatenation() {
    let zero = Value::zero();
    assert_eq!(intermediate_of(&zero, &zero), ZERO_PAIR);
    assert_ne!(intermediate_of(&leaf(1), &zero), ZERO_PAIR);
    assert_ne!(
        intermediate_of(&leaf(1), &leaf(2)),
        intermediate_of(&leaf(2), &leaf(1))
    );
    // An inner node contributes its key, a leaf its payload: the same bytes
    // hash alike.
    assert_eq!(
        intermediate_of(&Value::Intermediate([7u8; 32]), &zero),
        intermediate_of(&Value::End([7u8; 32]), &zero)
    );
}

#[test]
fn zero_value_is_thirty_two_zero_bytes() {
    assert_eq!(Value::zero(), Value::End([0u8; 32]));
    assert_eq!(Value::zero().bytes(), [0u8; 32]);
    assert_eq!(leaf(9).end(), Some(leaf(9).bytes()));
    assert_eq!(leaf(9).intermediate(), None);
    assert_eq!(Value::Intermediate(ZERO_PAIR).intermediate(), Some(ZERO_PAIR));
    assert!(leaf(3).same(&leaf(3)));
    assert!(!leaf(3).same(&leaf(4)));
    assert!(!Value::End(ZERO_PAIR).same(&Value::Intermediate(ZERO_PAIR)));
}

#[test]
fn insert_stores_under_the_hash_with_one_handle() {
    let mut db = InMemoryBackend::new();
    assert!(db.is_empty());
    let key = db.insert(leaf(1), leaf(2)).unwrap();
    assert_eq!(key, intermediate_of(&leaf(1), &leaf(2)));
    assert!(db.contains(&key));
    assert_eq!(db.get(&key), Ok((leaf(1), leaf(2))));
    let node = db.node(&key).unwrap();
    assert_eq!((node.handles, node.edges), (1, 0));
    // A second insert of the same pair hands out a second handle.
    assert_eq!(db.insert(leaf(1), leaf(2)), Ok(key));
    let node = db.node(&key).unwrap();
    assert_eq!((node.handles, node.edges), (2, 0));
}

#[test]
fn get_of_a_missing_key_is_refused() {
    let db = InMemoryBackend::new();
    assert_eq!(db.get(&[1u8; 32]), Err(BackendError::MissingNode));
    assert_eq!(db.node(&[1u8; 32]), None);
    assert!(!db.contains(&[1u8; 32]));
    assert!(resolves(&db, &leaf(1)));
    assert!(!resolves(&db, &Value::Intermediate([1u8; 32])));
}

#[test]
fn insert_refuses_a_missing_child() {
    let mut db = InMemoryBackend::new();
    let ghost = Value::Intermediate([9u8; 32]);
    assert_eq!(db.insert(ghost, leaf(1)), Err(BackendError::MissingNode));
    assert_eq!(db.insert(leaf(1), ghost), Err(BackendError::MissingNode));
    assert!(db.is_empty());
}

#[test]
fn a_new_parent_counts_an_edge_on_each_child_slot() {
    let mut db = InMemoryBackend::new();
    let a = db.insert(leaf(1), leaf(2)).unwrap();
    let both = db
        .insert(Value::Intermediate(a), Value::Intermediate(a))
        .unwrap();
    let node = db.node(&a).unwrap();
    assert_eq!((node.handles, node.edges), (1, 2));
    let node = db.node(&both).unwrap();
    assert_eq!((node.handles, node.edges), (1, 0));
}

#[test]
fn incref_and_decref_move_one_handle() {
    let mut db = InMemoryBackend::new();
    let key = db.insert(leaf(1), leaf(2)).unwrap();
    assert_eq!(db.unrooted_incref(&key), Ok(()));
    assert_eq!(db.node(&key).unwrap().handles, 2);
    assert_eq!(db.unrooted_decref(&key), Ok(()));
    assert_eq!(db.node(&key).unwrap().handles, 1);
    assert_eq!(db.unrooted_decref(&key), Ok(()));
    assert!(db.is_empty());
    assert_eq!(db.unrooted_decref(&key), Err(BackendError::MissingNode));
    assert_eq!(db.unrooted_incref(&key), Err(BackendError::MissingNode));
}

#[test]
fn decref_without_a_handle_is_refused() {
    let mut db = InMemoryBackend::new();
    let a = db.insert(leaf(1), leaf(2)).unwrap();
    let top = db.insert(Value::Intermediate(a), leaf(3)).unwrap();
    db.unrooted_decref(&a).unwrap();
    // The child is kept by its parent's edge.
    let node = db.node(&a).unwrap();
    assert_eq!((node.handles, node.edges), (0, 1));
    assert_eq!(db.unrooted_decref(&a), Err(BackendError::NotRooted));
    assert!(db.contains(&a));
    assert!(db.contains(&top));
}

#[test]
fn decref_removes_what_nothing_references() {
    let mut db = InMemoryBackend::new();
    let a = db.insert(leaf(1), leaf(2)).unwrap();
    let b = db.insert(leaf(3), leaf(4)).unwrap();
    let top = db
        .insert(Value::Intermediate(a), Value::Intermediate(b))
        .unwrap();
    db.unrooted_decref(&a).unwrap();
    // `b` keeps its own handle.
    db.unrooted_decref(&top).unwrap();
    assert!(!db.contains(&top));
    assert!(!db.contains(&a));
    let node = db.node(&b).unwrap();
    assert_eq!((node.handles, node.edges), (1, 0));
    db.unrooted_decref(&b).unwrap();
    assert!(db.is_empty());
}

#[test]
fn a_shared_child_outlives_one_of_its_parents() {
    let mut db = InMemoryBackend::new();
    let shared = db.insert(leaf(1), leaf(2)).unwrap();
    let p = db.insert(Value::Intermediate(shared), leaf(5)).unwrap();
    let q = db.insert(Value::Intermediate(shared), leaf(6)).unwrap();
    db.unrooted_decref(&shared).unwrap();
    assert_eq!(db.node(&shared).unwrap().edges, 2);
    db.unrooted_decref(&p).unwrap();
    assert!(!db.contains(&p));
    assert_eq!(db.node(&shared).unwrap().edges, 1);
    assert_eq!(db.get(&q), Ok((Value::Intermediate(shared), leaf(6))));
    db.unrooted_decref(&q).unwrap();
    assert!(db.is_empty());
}
