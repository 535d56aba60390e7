use merkle_vector::index::Index;
use merkle_vector::store::{InMemoryBackend, ReadBackend};
use merkle_vector::value::{intermediate_of, Error, Value};
use merkle_vector::vector::Vector;

fn leaf(byte: u8) -> Value {
    let mut bytes = [0u8; 32];
    bytes[0] = byte;
    Value::End(bytes)
}

fn parent(left: &Value, right: &Value) -> Value {
    Value::Intermediate(intermediate_of(left, right))
}

#[test]
fn dynamic_push_past_boundary() {
    let mut db = InMemoryBackend::new();
    let mut v = Vector::create(&mut db, 0, None).unwrap();
    assert_eq!(v.current_max_len(), 1);
    let (a, b, c) = (leaf(1), leaf(2), leaf(3));
    v.push(&mut db, a).unwrap();
    assert_eq!(v.current_max_len(), 1);
    assert_eq!(v.root(), a);
    v.push(&mut db, b).unwrap();
    assert_eq!(v.current_max_len(), 2);
    assert_eq!(v.root(), parent(&a, &b));
    v.push(&mut db, c).unwrap();
    assert_eq!(v.current_max_len(), 4);
    assert_eq!(v.depth(), 2);
    let zero = Value::zero();
    assert_eq!(v.root(), parent(&parent(&a, &b), &parent(&c, &zero)));
    assert_eq!(v.get(&db, 2), Ok(c));
    assert_eq!(v.get(&db, 3), Err(Error::AccessOverflowed));
    assert_eq!(
        v.into_raw().get(&db, Index::from_depth(3, 2).unwrap()),
        Ok(Some(zero))
    );
}

#[test]
fn pop_coalesces_zeros_and_shrinks() {
    let mut db = InMemoryBackend::new();
    let mut v = Vector::create(&mut db, 0, None).unwrap();
    let (a, b, c) = (leaf(1), leaf(2), leaf(3));
    v.push(&mut db, a).unwrap();
    v.push(&mut db, b).unwrap();
    v.push(&mut db, c).unwrap();
    let zero = Value::zero();
    let empty1 = parent(&zero, &zero);
    assert_eq!(v.pop(&mut db), Ok(Some(c)));
    assert_eq!(v.current_max_len(), 2);
    assert_eq!(v.root(), parent(&a, &b));
    assert_eq!(v.pop(&mut db), Ok(Some(b)));
    assert_eq!(v.current_max_len(), 1);
    assert_eq!(v.root(), a);
    assert_eq!(v.pop(&mut db), Ok(Some(a)));
    assert_eq!(v.root(), zero);
    assert_eq!(v.pop(&mut db), Ok(None));
    v.drop(&mut db).unwrap();
    assert!(db.is_empty());
    let _ = empty1;
}

#[test]
fn create_checks_its_parameters() {
    let mut db = InMemoryBackend::new();
    assert_eq!(
        Vector::create(&mut db, 5, Some(4)),
        Err(Error::InvalidParameter)
    );
    assert_eq!(
        Vector::create(&mut db, 0, Some(0)),
        Err(Error::InvalidParameter)
    );
    assert_eq!(
        Vector::create(&mut db, 0, Some((1u64 << 63) + 1)),
        Err(Error::InvalidParameter)
    );
    assert!(db.is_empty());
    let v = Vector::create(&mut db, 4, Some(4)).unwrap();
    assert_eq!(v.len(), 4);
    assert_eq!(v.max_len(), Some(4));
    assert_eq!(v.depth(), 2);
    assert_eq!(v.current_max_len(), 4);
    let zero = Value::zero();
    let e1 = parent(&zero, &zero);
    assert_eq!(v.root(), parent(&e1, &e1));
    assert_eq!(v.get(&db, 3), Ok(zero));
    v.drop(&mut db).unwrap();
    assert!(db.is_empty());
}

#[test]
fn capped_vector_rounds_its_tree_up() {
    let mut db = InMemoryBackend::new();
    let mut v = Vector::create(&mut db, 0, Some(3)).unwrap();
    assert_eq!(v.depth(), 2);
    assert_eq!(v.current_max_len(), 4);
    v.push(&mut db, leaf(1)).unwrap();
    v.push(&mut db, leaf(2)).unwrap();
    v.push(&mut db, leaf(3)).unwrap();
    assert_eq!(v.push(&mut db, leaf(4)), Err(Error::AccessOverflowed));
    assert_eq!(v.len(), 3);
    let zero = Value::zero();
    assert_eq!(
        v.root(),
        parent(&parent(&leaf(1), &leaf(2)), &parent(&leaf(3), &zero))
    );
    // The tree keeps its depth when values leave.
    assert_eq!(v.pop(&mut db), Ok(Some(leaf(3))));
    assert_eq!(v.pop(&mut db), Ok(Some(leaf(2))));
    assert_eq!(v.depth(), 2);
    assert_eq!(v.root(), parent(&parent(&leaf(1), &zero), &parent(&zero, &zero)));
    v.drop(&mut db).unwrap();
    assert!(db.is_empty());
}

#[test]
fn get_and_set_check_the_index() {
    let mut db = InMemoryBackend::new();
    let mut v = Vector::create(&mut db, 2, Some(8)).unwrap();
    assert_eq!(v.get(&db, 2), Err(Error::AccessOverflowed));
    assert_eq!(v.set(&mut db, 2, leaf(1)), Err(Error::AccessOverflowed));
    v.set(&mut db, 1, leaf(7)).unwrap();
    assert_eq!(v.get(&db, 1), Ok(leaf(7)));
    assert_eq!(v.get(&db, 0), Ok(Value::zero()));
    assert_eq!(
        v.set(&mut db, 0, Value::Intermediate([3u8; 32])),
        Err(Error::CorruptedDatabase)
    );
    assert_eq!(v.get(&db, 0), Ok(Value::zero()));
}

#[test]
fn a_vector_over_a_missing_root_is_corrupted() {
    let mut db = InMemoryBackend::new();
    let absent = Value::Intermediate([3u8; 32]);
    let mut v = Vector::from_leaked((absent, 2, Some(2)), true);
    assert_eq!(v.get(&db, 0), Err(Error::CorruptedDatabase));
    assert_eq!(v.set(&mut db, 0, leaf(1)), Err(Error::CorruptedDatabase));
    assert_eq!(v.pop(&mut db), Err(Error::CorruptedDatabase));
    // A leaf where the depth asks for an inner node.
    let flat = Vector::from_leaked((leaf(1), 2, Some(2)), false);
    assert_eq!(flat.get(&db, 0), Err(Error::CorruptedDatabase));
}

#[test]
fn the_root_depends_on_the_values_alone() {
    let values: Vec<Value> = (1..=5u8).map(leaf).collect();
    let mut db1 = InMemoryBackend::new();
    let mut by_push = Vector::create(&mut db1, 0, Some(8)).unwrap();
    for value in &values {
        by_push.push(&mut db1, *value).unwrap();
    }
    let mut db2 = InMemoryBackend::new();
    let mut by_set = Vector::create(&mut db2, 5, Some(8)).unwrap();
    for i in (0..5).rev() {
        by_set.set(&mut db2, i, leaf(200)).unwrap();
        by_set.set(&mut db2, i, values[i]).unwrap();
    }
    assert_eq!(by_push.root(), by_set.root());
    let zero = Value::zero();
    let expected = parent(
        &parent(
            &parent(&values[0], &values[1]),
            &parent(&values[2], &values[3]),
        ),
        &parent(&parent(&values[4], &zero), &parent(&zero, &zero)),
    );
    assert_eq!(by_push.root(), expected);
    // Growing vectors agree with each other too.
    let mut db3 = InMemoryBackend::new();
    let mut grown = Vector::create(&mut db3, 0, None).unwrap();
    for value in &values {
        grown.push(&mut db3, *value).unwrap();
    }
    let mut made = Vector::create(&mut db3, 5, None).unwrap();
    for i in 0..5 {
        made.set(&mut db3, i, values[i]).unwrap();
    }
    assert_eq!(grown.root(), made.root());
    assert_eq!(grown.root(), expected);
}

#[test]
fn push_then_pop_restores_root_and_store() {
    let mut db = InMemoryBackend::new();
    let mut v = Vector::create(&mut db, 0, None).unwrap();
    let mut keys: Vec<[u8; 32]> = Vec::new();
    for i in 1..=9u8 {
        let root = v.root();
        let counts = root.intermediate().map(|k| db.node(&k).unwrap());
        let held: Vec<_> = keys.iter().map(|k| db.node(k)).collect();
        v.push(&mut db, leaf(100 + i)).unwrap();
        assert_eq!(v.pop(&mut db), Ok(Some(leaf(100 + i))));
        assert_eq!(v.root(), root);
        assert_eq!(root.intermediate().map(|k| db.node(&k).unwrap()), counts);
        let after: Vec<_> = keys.iter().map(|k| db.node(k)).collect();
        assert_eq!(after, held);
        v.push(&mut db, leaf(i)).unwrap();
        if let Some(k) = v.root().intermediate() {
            keys.push(k);
        }
    }
    v.drop(&mut db).unwrap();
    assert!(db.is_empty());
}

#[test]
fn the_tail_behind_the_length_is_zero() {
    let mut db = InMemoryBackend::new();
    let mut v = Vector::create(&mut db, 0, None).unwrap();
    for i in 1..=5u8 {
        v.push(&mut db, leaf(i)).unwrap();
    }
    assert_eq!(v.pop(&mut db), Ok(Some(leaf(5))));
    assert_eq!(v.pop(&mut db), Ok(Some(leaf(4))));
    assert_eq!(v.len(), 3);
    assert_eq!(v.current_max_len(), 4);
    let raw = v.into_raw();
    assert_eq!(
        raw.get(&db, Index::from_depth(3, 2).unwrap()),
        Ok(Some(Value::zero()))
    );
    let mut capped = Vector::create(&mut db, 0, Some(8)).unwrap();
    capped.push(&mut db, leaf(1)).unwrap();
    capped.push(&mut db, leaf(2)).unwrap();
    capped.pop(&mut db).unwrap();
    let raw = capped.into_raw();
    for i in 1..8 {
        assert_eq!(
            raw.get(&db, Index::from_depth(i, 3).unwrap()),
            Ok(Some(Value::zero()))
        );
    }
}

#[test]
fn create_ops_drop_leaves_the_store_as_it_was() {
    let mut db = InMemoryBackend::new();
    let mut other = Vector::create(&mut db, 0, None).unwrap();
    for i in 1..=4u8 {
        other.push(&mut db, leaf(i)).unwrap();
    }
    let kept = other.root().intermediate().unwrap();
    let before = db.node(&kept).unwrap();
    let left = db.get(&kept).unwrap().0.intermediate().unwrap();
    let left_before = db.node(&left).unwrap();

    let mut v = Vector::create(&mut db, 0, None).unwrap();
    for i in 1..=7u8 {
        v.push(&mut db, leaf(i)).unwrap();
    }
    v.set(&mut db, 2, leaf(50)).unwrap();
    v.pop(&mut db).unwrap();
    v.pop(&mut db).unwrap();
    v.set(&mut db, 0, leaf(60)).unwrap();
    // The other vector is untouched while this one shares its store.
    for i in 0..4usize {
        assert_eq!(other.get(&db, i), Ok(leaf(i as u8 + 1)));
    }
    v.drop(&mut db).unwrap();

    assert_eq!(db.node(&kept).unwrap(), before);
    assert_eq!(db.node(&left).unwrap(), left_before);
    for i in 0..4usize {
        assert_eq!(other.get(&db, i), Ok(leaf(i as u8 + 1)));
    }
    other.drop(&mut db).unwrap();
    assert!(db.is_empty());
}

#[test]
fn metadata_makes_the_vector_again() {
    let mut db = InMemoryBackend::new();
    let mut v = Vector::create(&mut db, 0, Some(4)).unwrap();
    v.push(&mut db, leaf(1)).unwrap();
    v.push(&mut db, leaf(2)).unwrap();
    let meta = v.metadata();
    assert_eq!(meta, (v.root(), 2, Some(4)));
    let view = Vector::from_leaked(meta, false);
    assert_eq!(view.get(&db, 1), Ok(leaf(2)));
    assert_eq!(view.len(), 2);
    // Dropping the view takes no handle back.
    view.drop(&mut db).unwrap();
    assert_eq!(v.get(&db, 0), Ok(leaf(1)));
    let again = v.into_raw().into_vector(2, Some(4));
    assert_eq!(again, v);
    assert_eq!(Vector::from_raw(v.into_raw(), 2, Some(4)), v);
    again.drop(&mut db).unwrap();
    assert!(db.is_empty());
}
