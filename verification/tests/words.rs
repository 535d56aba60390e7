use merkle_vector::packing::{
    bits_to_bytes, bytes_to_bits, bytes_to_words, pack, unpack, words_to_bytes,
};
use merkle_vector::value::Value;
use merkle_vector::words::{push_le, read_le, Word, U256};

#[test]
fn words_are_written_lowest_byte_first() {
    let mut out = Vec::new();
    push_le(&mut out, 0x0102_0304, 4);
    assert_eq!(out, vec![4, 3, 2, 1]);
    push_le(&mut out, 0x0102_0304, 2);
    assert_eq!(out, vec![4, 3, 2, 1, 4, 3]);
    assert_eq!(read_le(&out, 0, 4), 0x0102_0304);
    assert_eq!(read_le(&out, 2, 4), 0x0304_0102);
    assert_eq!(read_le(&out, 5, 1), 3);
    assert_eq!(read_le(&out, 0, 0), 0);
}

#[test]
fn every_word_type_has_its_width() {
    assert_eq!(<u8 as Word>::width(), 1);
    assert_eq!(<u16 as Word>::width(), 2);
    assert_eq!(<u32 as Word>::width(), 4);
    assert_eq!(<u64 as Word>::width(), 8);
    assert_eq!(<u128 as Word>::width(), 16);
    assert_eq!(<U256 as Word>::width(), 32);
    let mut out = Vec::new();
    0xabu8.write_le(&mut out);
    0x0102u16.write_le(&mut out);
    0x0304_0506u32.write_le(&mut out);
    assert_eq!(out, vec![0xab, 2, 1, 6, 5, 4, 3]);
    assert_eq!(<u16 as Word>::read_le(&out, 1), 0x0102);
    assert_eq!(<u32 as Word>::read_le(&out, 3), 0x0304_0506);
    let mut out = Vec::new();
    let x: u128 = 0x0102_0304_0506_0708_090a_0b0c_0d0e_0f10;
    x.write_le(&mut out);
    assert_eq!(out[0], 0x10);
    assert_eq!(out[15], 0x01);
    assert_eq!(<u128 as Word>::read_le(&out, 0), x);
}

#[test]
fn u256_is_thirty_two_bytes_lowest_limb_first() {
    let x = U256([1, 2, 3, 0x8000_0000_0000_0000]);
    let mut out = Vec::new();
    x.write_le(&mut out);
    let mut expected = vec![0u8; 32];
    expected[0] = 1;
    expected[8] = 2;
    expected[16] = 3;
    expected[31] = 0x80;
    assert_eq!(out, expected);
    assert_eq!(<U256 as Word>::read_le(&out, 0), x);
}

#[test]
fn words_and_bytes() {
    let words: Vec<u16> = vec![0x0102, 0xffee];
    assert_eq!(words_to_bytes(&words[..]), vec![2, 1, 0xee, 0xff]);
    assert_eq!(
        bytes_to_words::<u16>(&vec![2, 1, 0xee, 0xff, 9], 2),
        words
    );
    assert_eq!(words_to_bytes::<u64>(&[]), Vec::<u8>::new());
}

#[test]
fn bits_and_bytes() {
    assert_eq!(bits_to_bytes(&[]), Vec::<u8>::new());
    assert_eq!(bits_to_bytes(&[true]), vec![1]);
    assert_eq!(
        bits_to_bytes(&[false, false, false, false, false, false, false, true]),
        vec![0x80]
    );
    assert_eq!(
        bits_to_bytes(&[true, false, true, true, false, false, false, false, true]),
        vec![0x0D, 0x01]
    );
    assert_eq!(
        bytes_to_bits(&vec![0x0D, 0x01], 9),
        Some(vec![true, false, true, true, false, false, false, false, true])
    );
    assert_eq!(bytes_to_bits(&vec![0x0D, 0x03], 9), None);
    assert_eq!(bytes_to_bits(&vec![0x0D], 3), None);
    assert_eq!(bytes_to_bits(&vec![0xff], 8), Some(vec![true; 8]));
}

#[test]
fn bytes_and_leaves() {
    assert_eq!(pack(&vec![]), Vec::<Value>::new());
    let bytes: Vec<u8> = (1..=33u8).collect();
    let leaves = pack(&bytes);
    assert_eq!(leaves.len(), 2);
    let mut first = [0u8; 32];
    first.copy_from_slice(&bytes[0..32]);
    let mut second = [0u8; 32];
    second[0] = 33;
    assert_eq!(leaves, vec![Value::End(first), Value::End(second)]);
    assert_eq!(unpack(&leaves, 33), Some(bytes));
    assert_eq!(unpack(&leaves, 32), None);
    assert_eq!(unpack(&leaves, 65), None);
    assert_eq!(
        unpack(&vec![Value::Intermediate(first)], 32),
        None
    );
    assert_eq!(unpack(&vec![Value::End(first)], 32), Some((1..=32u8).collect()));
}
