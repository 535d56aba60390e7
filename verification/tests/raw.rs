use merkle_vector::empty::empty_at;
use merkle_vector::index::Index;
use merkle_vector::raw::Raw;
use merkle_vector::store::{InMemoryBackend, ReadBackend, WriteBackend};
use merkle_vector::value::{intermediate_of, BackendError, Error, Value};

fn leaf(byte: u8) -> Value {
    let mut bytes = [0u8; 32];
    bytes[0] = byte;
    Value::End(bytes)
}

fn parent(left: &Value, right: &Value) -> Value {
    Value::Intermediate(intermediate_of(left, right))
}

fn at(value: u64) -> Index {
    Index::from_one(value).unwrap()
}

#[test]
fn a_new_tree_is_one_zero_leaf() {
    let db = InMemoryBackend::new();
    let raw = Raw::new();
    assert_eq!(raw.root(), Value::zero());
    assert!(raw.is_owned());
    assert_eq!(raw.get(&db, Index::root()), Ok(Some(Value::zero())));
    assert_eq!(raw.get(&db, at(2)), Ok(None));
    assert_eq!(raw.metadata(), Value::zero());
}

#[test]
fn set_below_a_leaf_materialises_zero_siblings() {
    let mut db = InMemoryBackend::new();
    let mut raw = Raw::new();
    raw.set(&mut db, at(4), leaf(2)).unwrap();
    assert_eq!(raw.get(&db, at(4)), Ok(Some(leaf(2))));
    assert_eq!(raw.get(&db, at(5)), Ok(Some(Value::zero())));
    assert_eq!(raw.get(&db, at(3)), Ok(Some(Value::zero())));
    let zero = Value::zero();
    assert_eq!(raw.root(), parent(&parent(&leaf(2), &zero), &zero));
    raw.set(&mut db, at(4), leaf(3)).unwrap();
    assert_eq!(raw.get(&db, at(4)), Ok(Some(leaf(3))));
    assert_eq!(raw.root(), parent(&parent(&leaf(3), &zero), &zero));
    // A leaf stands above every position below 3.
    assert_eq!(raw.get(&db, at(6)), Ok(None));
    raw.drop(&mut db).unwrap();
    assert!(db.is_empty());
}

#[test]
fn the_order_of_sets_does_not_matter() {
    let mut db1 = InMemoryBackend::new();
    let mut db2 = InMemoryBackend::new();
    let mut raw1 = Raw::new();
    let mut raw2 = Raw::new();
    for i in 32..64u64 {
        raw1.set(&mut db1, at(i), leaf(i as u8)).unwrap();
    }
    for i in (32..64u64).rev() {
        raw2.set(&mut db2, at(i), leaf(i as u8)).unwrap();
    }
    assert_eq!(raw1.root(), raw2.root());
    for i in 32..64u64 {
        assert_eq!(raw1.get(&db1, at(i)), Ok(Some(leaf(i as u8))));
        assert_eq!(raw2.get(&db2, at(i)), Ok(Some(leaf(i as u8))));
    }
    raw1.set(&mut db1, Index::root(), leaf(1)).unwrap();
    assert!(db1.is_empty());
    assert_eq!(raw1.root(), leaf(1));
}

#[test]
fn set_takes_a_subtree_as_a_value() {
    let mut db = InMemoryBackend::new();
    let mut raw = Raw::new();
    let zero = Value::zero();
    raw.set(&mut db, at(2), zero).unwrap();
    let empty1 = raw.root();
    assert_eq!(empty1, parent(&zero, &zero));
    raw.set(&mut db, at(2), empty1).unwrap();
    raw.set(&mut db, at(3), empty1).unwrap();
    for i in 4..8u64 {
        assert_eq!(raw.get(&db, at(i)), Ok(Some(zero)));
    }
    assert_eq!(raw.root(), parent(&empty1, &empty1));
    raw.set(&mut db, Index::root(), empty1).unwrap();
    assert_eq!(raw.get(&db, at(3)), Ok(Some(zero)));
    assert_eq!(db.get(&empty1.intermediate().unwrap()), Ok((zero, zero)));
    raw.drop(&mut db).unwrap();
    assert!(db.is_empty());
}

#[test]
fn set_refuses_what_the_store_does_not_hold() {
    let mut db = InMemoryBackend::new();
    let mut raw = Raw::new();
    let absent = Value::Intermediate([5u8; 32]);
    assert_eq!(
        raw.set(&mut db, at(2), absent),
        Err(Error::CorruptedDatabase)
    );
    assert_eq!(raw.root(), Value::zero());
    assert!(db.is_empty());
    let mut lost = Raw::from_leaked(absent, true);
    assert_eq!(
        lost.set(&mut db, at(2), leaf(1)),
        Err(Error::CorruptedDatabase)
    );
    assert_eq!(lost.get(&db, at(2)), Err(Error::CorruptedDatabase));
    assert_eq!(lost.get(&db, Index::root()), Ok(Some(absent)));
    assert_eq!(lost.drop(&mut db), Err(Error::CorruptedDatabase));
}

#[test]
fn an_owning_tree_needs_a_handle_on_its_root() {
    let mut db = InMemoryBackend::new();
    let a = db.insert(leaf(1), leaf(2)).unwrap();
    let top = db.insert(Value::Intermediate(a), leaf(3)).unwrap();
    db.unrooted_decref(&a).unwrap();
    let mut raw = Raw::from_leaked(Value::Intermediate(a), true);
    assert_eq!(
        raw.set(&mut db, at(2), leaf(9)),
        Err(Error::Backend(BackendError::NotRooted))
    );
    assert_eq!(
        raw.check_set(&db, &leaf(9)),
        Some(Error::Backend(BackendError::NotRooted))
    );
    assert_eq!(raw.drop(&mut db), Err(Error::Backend(BackendError::NotRooted)));
    // A tree that does not own its root leaves the old root alone.
    let mut view = Raw::from_leaked(Value::Intermediate(a), false);
    view.set(&mut db, at(2), leaf(9)).unwrap();
    assert_eq!(view.root(), parent(&leaf(9), &leaf(2)));
    assert_eq!(db.get(&top), Ok((Value::Intermediate(a), leaf(3))));
    assert_eq!(db.get(&a), Ok((leaf(1), leaf(2))));
    assert_eq!(view.drop(&mut db), Ok(()));
    assert!(db.contains(&view.root().intermediate().unwrap()));
}

#[test]
fn empty_at_chains_zero_pairs() {
    let mut db = InMemoryBackend::new();
    let zero = Value::zero();
    assert_eq!(empty_at(&mut db, 0), Ok(zero));
    assert!(db.is_empty());
    let e1 = parent(&zero, &zero);
    let e2 = parent(&e1, &e1);
    let e3 = parent(&e2, &e2);
    assert_eq!(empty_at(&mut db, 3), Ok(e3));
    let n3 = db.node(&e3.intermediate().unwrap()).unwrap();
    assert_eq!((n3.handles, n3.edges), (1, 0));
    let n2 = db.node(&e2.intermediate().unwrap()).unwrap();
    assert_eq!((n2.handles, n2.edges), (0, 2));
    db.unrooted_decref(&e3.intermediate().unwrap()).unwrap();
    assert!(db.is_empty());
}

#[test]
fn extend_and_shrink_are_inverse() {
    let mut db = InMemoryBackend::new();
    let mut raw = Raw::new();
    raw.set(&mut db, at(2), leaf(1)).unwrap();
    raw.set(&mut db, at(3), leaf(2)).unwrap();
    let small = raw.root();
    raw.extend(&mut db, 1).unwrap();
    let zero = Value::zero();
    assert_eq!(raw.root(), parent(&small, &parent(&zero, &zero)));
    assert_eq!(raw.get(&db, at(4)), Ok(Some(leaf(1))));
    assert_eq!(raw.get(&db, at(7)), Ok(Some(zero)));
    raw.shrink(&mut db).unwrap();
    assert_eq!(raw.root(), small);
    raw.drop(&mut db).unwrap();
    assert!(db.is_empty());
}
