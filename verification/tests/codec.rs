use merkle_vector::elemental_fixed::{ElementalFixedVec, ElementalFixedVecRef};
use merkle_vector::fixed::{hash_into_tree, FixedVec, FixedVecRef};
use merkle_vector::store::{InMemoryBackend, WriteBackend};
use merkle_vector::tuple::empty_value;
use merkle_vector::value::{intermediate_of, BackendError, Error, Value};
use merkle_vector::words::U256;

fn chunk(bytes: &[u8]) -> Value {
    let mut payload = [0u8; 32];
    payload[..bytes.len()].copy_from_slice(bytes);
    Value::End(payload)
}

fn parent(left: &Value, right: &Value) -> Value {
    Value::Intermediate(intermediate_of(left, right))
}

#[test]
fn empty_u64_vector_capped() {
    let mut db = InMemoryBackend::new();
    let values: Vec<u64> = Vec::new();
    let root = FixedVecRef(&values[..])
        .into_vector_tree(&mut db, Some(4))
        .unwrap();
    assert_eq!(root, empty_value(0));
    assert_eq!(root, Value::zero());
    assert_eq!(
        FixedVec::<u64>::from_vector_tree(&root, &db, 0, Some(4)),
        Ok(FixedVec(values))
    );
}

#[test]
fn packed_u16() {
    let mut db = InMemoryBackend::new();
    let values: Vec<u16> = vec![0x0001, 0x0002, 0x0003];
    let root = FixedVecRef(&values[..])
        .into_vector_tree(&mut db, Some(3))
        .unwrap();
    assert_eq!(root, chunk(&[1, 0, 2, 0, 3, 0]));
    assert_eq!(
        FixedVec::<u16>::from_vector_tree(&root, &db, 3, Some(3)),
        Ok(FixedVec(values))
    );
}

#[test]
fn bool_bitpacking() {
    let mut db = InMemoryBackend::new();
    let bits = vec![true, false, true, true, false, false, false, false, true];
    let root = FixedVecRef(&bits[..])
        .into_vector_tree(&mut db, Some(9))
        .unwrap();
    assert_eq!(root, chunk(&[0x0D, 0x01]));
    assert_eq!(
        FixedVec::<bool>::from_vector_tree(&root, &db, 9, Some(9)),
        Ok(FixedVec(bits))
    );
}

#[test]
fn u256_unpacked() {
    let mut db = InMemoryBackend::new();
    let values = vec![U256([1, 0, 0, 0])];
    let root = FixedVecRef(&values[..])
        .into_vector_tree(&mut db, Some(2))
        .unwrap();
    let left = chunk(&[1]);
    assert_eq!(root, parent(&left, &Value::zero()));
    assert_eq!(
        FixedVec::<U256>::from_vector_tree(&root, &db, 1, Some(2)),
        Ok(FixedVec(values))
    );
}

#[test]
fn u256_limbs_are_written_lowest_first() {
    let mut db = InMemoryBackend::new();
    let values = vec![U256([
        0x0807_0605_0403_0201,
        0x1817_1615_1413_1211,
        0x2827_2625_2423_2221,
        0x3837_3635_3433_3231,
    ])];
    let root = FixedVecRef(&values[..]).into_tree(&mut db).unwrap();
    let expected: Vec<u8> = (0..32u8).map(|i| (i / 8) * 0x10 + i % 8 + 1).collect();
    assert_eq!(root, chunk(&expected));
    assert_eq!(
        FixedVec::<U256>::from_vector_tree(&root, &db, 1, None),
        Ok(FixedVec(values))
    );
}

#[test]
fn words_round_trip_across_chunks() {
    let mut db = InMemoryBackend::new();
    let bytes: Vec<u8> = (0..70u8).collect();
    let root = FixedVecRef(&bytes[..])
        .into_vector_tree(&mut db, Some(100))
        .unwrap();
    // 70 bytes fill three chunks; a cap of 100 bytes asks for four.
    let c0 = chunk(&bytes[0..32]);
    let c1 = chunk(&bytes[32..64]);
    let c2 = chunk(&bytes[64..70]);
    assert_eq!(root, parent(&parent(&c0, &c1), &parent(&c2, &Value::zero())));
    assert_eq!(
        FixedVec::<u8>::from_vector_tree(&root, &db, 70, Some(100)),
        Ok(FixedVec(bytes))
    );

    let words: Vec<u32> = vec![0xdead_beef, 1, 0, u32::MAX, 7, 8, 9, 10, 11];
    let root = FixedVecRef(&words[..]).into_tree(&mut db).unwrap();
    assert_eq!(
        FixedVec::<u32>::from_vector_tree(&root, &db, 9, None),
        Ok(FixedVec(words.clone()))
    );
    let first = chunk(&[
        0xef, 0xbe, 0xad, 0xde, 1, 0, 0, 0, 0, 0, 0, 0, 0xff, 0xff, 0xff, 0xff, 7, 0, 0, 0, 8, 0,
        0, 0, 9, 0, 0, 0, 10, 0, 0, 0,
    ]);
    assert_eq!(root, parent(&first, &chunk(&[11])));

    let longs: Vec<u64> = vec![u64::MAX, 0x0102_0304_0506_0708, 3, 4, 5];
    let root = FixedVec(longs.clone())
        .into_vector_tree(&mut db, Some(5))
        .unwrap();
    assert_eq!(
        FixedVec::<u64>::from_vector_tree(&root, &db, 5, Some(5)),
        Ok(FixedVec(longs))
    );

    let wide: Vec<u128> = vec![u128::MAX, 1 << 127, 0x0102, 5];
    let root = FixedVec(wide.clone()).into_tree(&mut db).unwrap();
    assert_eq!(
        FixedVec::<u128>::from_vector_tree(&root, &db, 4, None),
        Ok(FixedVec(wide))
    );
}

#[test]
fn bits_round_trip_across_bytes_and_chunks() {
    let mut db = InMemoryBackend::new();
    for len in [0usize, 1, 7, 8, 9, 255, 256, 257, 600] {
        let bits: Vec<bool> = (0..len).map(|i| i % 3 == 0 || i % 7 == 2).collect();
        let root = FixedVecRef(&bits[..])
            .into_vector_tree(&mut db, Some(len))
            .unwrap();
        assert_eq!(
            FixedVec::<bool>::from_vector_tree(&root, &db, len, Some(len)),
            Ok(FixedVec(bits))
        );
    }
}

#[test]
fn the_cap_decides_the_depth() {
    let mut db = InMemoryBackend::new();
    let values: Vec<u64> = vec![1, 2];
    // Two 8-byte words fit one chunk; a cap of 16 words asks for four.
    let root = FixedVecRef(&values[..])
        .into_vector_tree(&mut db, Some(16))
        .unwrap();
    let first = chunk(&[1, 0, 0, 0, 0, 0, 0, 0, 2]);
    let zero = Value::zero();
    assert_eq!(
        root,
        parent(&parent(&first, &zero), &parent(&zero, &zero))
    );
    assert_eq!(
        FixedVec::<u64>::from_vector_tree(&root, &db, 2, Some(16)),
        Ok(FixedVec(values.clone()))
    );
    // Read at another depth, the tree does not fit.
    assert_eq!(
        FixedVec::<u64>::from_vector_tree(&root, &db, 2, Some(2)),
        Err(Error::CorruptedDatabase)
    );
    // A cap below the length does not shorten the tree.
    let many: Vec<u64> = (0..9).collect();
    let root = FixedVecRef(&many[..])
        .into_vector_tree(&mut db, Some(1))
        .unwrap();
    assert_eq!(
        FixedVec::<u64>::from_vector_tree(&root, &db, 9, Some(1)),
        Ok(FixedVec(many))
    );
}

#[test]
fn decoding_refuses_malformed_leaves() {
    let mut db = InMemoryBackend::new();
    // A byte behind the declared words is set.
    let stray = chunk(&[1, 0, 2, 0, 9]);
    assert_eq!(
        FixedVec::<u16>::from_vector_tree(&stray, &db, 2, None),
        Err(Error::CorruptedDatabase)
    );
    assert_eq!(
        FixedVec::<u16>::from_vector_tree(&stray, &db, 3, None),
        Ok(FixedVec(vec![1, 2, 9]))
    );
    // A bit behind the declared bits is set.
    let tail = chunk(&[0b0000_1101]);
    assert_eq!(
        FixedVec::<bool>::from_vector_tree(&tail, &db, 3, None),
        Err(Error::CorruptedDatabase)
    );
    assert_eq!(
        FixedVec::<bool>::from_vector_tree(&tail, &db, 4, None),
        Ok(FixedVec(vec![true, false, true, true]))
    );
    // An inner node where a leaf payload is due.
    let key = db.insert(chunk(&[1]), chunk(&[2])).unwrap();
    let top = db
        .insert(Value::Intermediate(key), Value::zero())
        .unwrap();
    assert_eq!(
        FixedVec::<u8>::from_vector_tree(&Value::Intermediate(top), &db, 64, None),
        Err(Error::CorruptedDatabase)
    );
    // A root that the store does not hold.
    assert_eq!(
        FixedVec::<u8>::from_vector_tree(&Value::Intermediate([1u8; 32]), &db, 64, None),
        Err(Error::CorruptedDatabase)
    );
}

#[test]
fn sizes_beyond_the_machine_are_refused() {
    let mut db = InMemoryBackend::new();
    let values: Vec<u64> = vec![1];
    assert_eq!(
        FixedVecRef(&values[..]).into_vector_tree(&mut db, Some(usize::MAX)),
        Err(Error::InvalidParameter)
    );
    assert_eq!(
        FixedVec::<u64>::from_vector_tree(&Value::zero(), &db, usize::MAX, None),
        Err(Error::InvalidParameter)
    );
    assert!(db.is_empty());
}

#[test]
fn composite_elements_round_trip_by_their_roots() {
    let mut db = InMemoryBackend::new();
    // Three elements, each a vector of its own.
    let items: Vec<Vec<u64>> = vec![vec![1, 2, 3, 4, 5], vec![], vec![9; 12]];
    let mut roots: Vec<Value> = Vec::new();
    for item in &items {
        roots.push(FixedVecRef(&item[..]).into_tree(&mut db).unwrap());
    }
    let root = FixedVecRef(&roots[..])
        .into_vector_tree(&mut db, Some(4))
        .unwrap();
    assert_eq!(
        root,
        parent(
            &parent(&roots[0], &roots[1]),
            &parent(&roots[2], &Value::zero())
        )
    );
    // The element trees are kept by the vector's tree alone from here on.
    for r in &roots {
        if let Some(k) = r.intermediate() {
            db.unrooted_decref(&k).unwrap();
        }
    }
    let read = FixedVec::<Value>::from_vector_tree(&root, &db, 3, Some(4)).unwrap();
    assert_eq!(read, FixedVec(roots));
    for (i, item) in items.iter().enumerate() {
        assert_eq!(
            FixedVec::<u64>::from_vector_tree(&read.0[i], &db, item.len(), None),
            Ok(FixedVec(item.clone()))
        );
    }
    db.unrooted_decref(&root.intermediate().unwrap()).unwrap();
    assert!(db.is_empty());
}

#[test]
fn composite_elements_must_be_held() {
    let mut db = InMemoryBackend::new();
    let absent = vec![Value::Intermediate([4u8; 32])];
    assert_eq!(
        FixedVecRef(&absent[..]).into_vector_tree(&mut db, None),
        Err(Error::CorruptedDatabase)
    );
    let inner = db.insert(chunk(&[1]), chunk(&[2])).unwrap();
    let outer = db.insert(Value::Intermediate(inner), chunk(&[3])).unwrap();
    db.unrooted_decref(&inner).unwrap();
    let unheld = vec![Value::Intermediate(inner)];
    assert_eq!(
        FixedVecRef(&unheld[..]).into_vector_tree(&mut db, None),
        Err(Error::Backend(BackendError::NotRooted))
    );
    assert!(db.contains(&outer));
}

#[test]
fn a_hash_is_its_own_tree() {
    let mut db = InMemoryBackend::new();
    let hash = [0xabu8; 32];
    assert_eq!(hash_into_tree(&hash, &mut db), Ok(Value::End(hash)));
    assert!(db.is_empty());
}

#[test]
fn elemental_vectors_pack_alike() {
    let mut db = InMemoryBackend::new();
    let values: Vec<u16> = vec![0x0001, 0x0002, 0x0003];
    let root = ElementalFixedVecRef(&values[..])
        .into_vector_tree(&mut db, Some(3))
        .unwrap();
    assert_eq!(root, chunk(&[1, 0, 2, 0, 3, 0]));
    assert_eq!(
        ElementalFixedVec::<u16>::from_vector_tree(&root, &db, 3, Some(3)),
        Ok(ElementalFixedVec(values.clone()))
    );
    assert_eq!(
        ElementalFixedVec::<u16>::from_vector_tree_with_config(&root, &db, 3, Some(3), &"any"),
        Ok(ElementalFixedVec(values.clone()))
    );
    assert_eq!(
        ElementalFixedVec(values).into_vector_tree(&mut db, Some(3)),
        Ok(root)
    );
    // A cap in words comes to a cap in chunks: 17 words need two.
    let one: Vec<u16> = vec![5];
    let root = ElementalFixedVecRef(&one[..])
        .into_vector_tree(&mut db, Some(17))
        .unwrap();
    assert_eq!(root, parent(&chunk(&[5]), &Value::zero()));
    let bits = vec![true, true, false, true];
    let root = ElementalFixedVecRef(&bits[..]).into_tree(&mut db).unwrap();
    assert_eq!(root, chunk(&[0b1011]));
    assert_eq!(
        ElementalFixedVec::<bool>::from_vector_tree_with_config(&root, &db, 4, None, &0u8),
        Ok(ElementalFixedVec(bits))
    );
    let roots = vec![chunk(&[1]), chunk(&[2]), chunk(&[3])];
    let root = ElementalFixedVecRef(&roots[..]).into_tree(&mut db).unwrap();
    assert_eq!(
        ElementalFixedVec::<Value>::from_vector_tree(&root, &db, 3, None),
        Ok(ElementalFixedVec(roots))
    );
}
