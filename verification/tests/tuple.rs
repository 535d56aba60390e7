use merkle_vector::store::{InMemoryBackend, WriteBackend};
use merkle_vector::tuple::{empty_value, MerkleTuple};
use merkle_vector::value::{intermediate_of, Error, Value};

fn payload(byte: u8) -> [u8; 32] {
    let mut bytes = [0u8; 32];
    bytes[0] = byte;
    bytes
}

fn parent(left: &Value, right: &Value) -> Value {
    Value::Intermediate(intermediate_of(left, right))
}

#[test]
fn tuple_grows_and_shrinks() {
    let mut db = InMemoryBackend::new();
    let mut t = MerkleTuple::create(&mut db, 0).unwrap();
    assert_eq!(t.len(), 0);
    assert_eq!(t.root(), Value::zero());
    assert_eq!(t.empty_root(), Value::zero());
    for i in 1..=3u8 {
        t.push(&mut db, payload(i)).unwrap();
    }
    assert_eq!(t.len(), 3);
    let zero = Value::zero();
    let e1 = parent(&zero, &zero);
    assert_eq!(t.empty_root(), parent(&e1, &e1));
    assert_eq!(t.empty_root(), empty_value(2));
    assert_eq!(
        t.root(),
        parent(
            &parent(&Value::End(payload(1)), &Value::End(payload(2))),
            &parent(&Value::End(payload(3)), &zero)
        )
    );
    assert_eq!(t.get(&db, 1), Ok(payload(2)));
    assert_eq!(t.get(&db, 3), Err(Error::AccessOverflowed));
    t.set(&mut db, 1, payload(9)).unwrap();
    assert_eq!(t.get(&db, 1), Ok(payload(9)));
    assert_eq!(t.set(&mut db, 3, payload(9)), Err(Error::AccessOverflowed));
    assert_eq!(t.pop(&mut db), Ok(Some(payload(3))));
    assert_eq!(t.empty_root(), e1);
    assert_eq!(t.pop(&mut db), Ok(Some(payload(9))));
    assert_eq!(t.pop(&mut db), Ok(Some(payload(1))));
    assert_eq!(t.pop(&mut db), Ok(None));
    assert_eq!(t.empty_root(), zero);
    t.drop(&mut db).unwrap();
    assert!(db.is_empty());
}

#[test]
fn tuple_starts_with_zero_payloads() {
    let mut db = InMemoryBackend::new();
    let t = MerkleTuple::create(&mut db, 5).unwrap();
    assert_eq!(t.len(), 5);
    assert_eq!(t.root(), empty_value(3));
    assert_eq!(t.root(), t.empty_root());
    for i in 0..5 {
        assert_eq!(t.get(&db, i), Ok([0u8; 32]));
    }
    let meta = t.metadata();
    assert_eq!(meta, (t.root(), t.empty_root(), 5));
    let view = MerkleTuple::from_leaked(meta, false);
    assert_eq!(view.get(&db, 4), Ok([0u8; 32]));
    t.drop(&mut db).unwrap();
    assert!(db.is_empty());
}

#[test]
fn tuple_refuses_a_last_value_that_is_no_payload() {
    let mut db = InMemoryBackend::new();
    let inner = db.insert(Value::zero(), Value::zero()).unwrap();
    let mut t = MerkleTuple::from_leaked((Value::Intermediate(inner), Value::zero(), 1), true);
    assert_eq!(t.get(&db, 0), Err(Error::CorruptedDatabase));
    assert_eq!(t.pop(&mut db), Err(Error::CorruptedDatabase));
    assert_eq!(t.len(), 1);
}
