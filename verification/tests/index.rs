use merkle_vector::index::{level_width, required_depth, Index, LIMIT};

#[test]
fn root_and_children() {
    let root = Index::root();
    assert_eq!(root.value(), 1);
    assert_eq!(root.left().unwrap().value(), 2);
    assert_eq!(root.right().unwrap().value(), 3);
    assert_eq!(root.right().unwrap().left().unwrap().value(), 6);
    assert_eq!(root.parent(), None);
    assert_eq!(Index::from_one(7).unwrap().parent().unwrap().value(), 3);
    assert_eq!(Index::from_one(6).unwrap().parent().unwrap().value(), 3);
}

#[test]
fn from_one_refuses_zero() {
    assert_eq!(Index::from_one(0), None);
    assert_eq!(Index::from_one(1), Some(Index::root()));
}

#[test]
fn depth_is_highest_set_bit() {
    assert_eq!(Index::root().depth(), 0);
    assert_eq!(Index::from_one(2).unwrap().depth(), 1);
    assert_eq!(Index::from_one(3).unwrap().depth(), 1);
    assert_eq!(Index::from_one(4).unwrap().depth(), 2);
    assert_eq!(Index::from_one(1023).unwrap().depth(), 9);
    assert_eq!(Index::from_one(1024).unwrap().depth(), 10);
    assert_eq!(Index::from_one(u64::MAX).unwrap().depth(), 63);
}

#[test]
fn from_depth_is_width_plus_offset() {
    assert_eq!(Index::from_depth(0, 0).unwrap().value(), 1);
    assert_eq!(Index::from_depth(0, 3).unwrap().value(), 8);
    assert_eq!(Index::from_depth(5, 3).unwrap().value(), 13);
    assert_eq!(Index::from_depth(7, 3).unwrap().value(), 15);
    assert_eq!(Index::from_depth(8, 3), None);
    assert_eq!(Index::from_depth(1, 0), None);
}

#[test]
fn overflow_is_checked_at_the_top_level() {
    let top = Index::from_depth(0, 63).unwrap();
    assert_eq!(top.value(), 1u64 << 63);
    assert_eq!(top.left(), None);
    assert_eq!(top.right(), None);
    assert_eq!(Index::from_depth(0, 64), None);
    assert_eq!(Index::from_depth((1u64 << 63) - 1, 63).unwrap().value(), u64::MAX);
    let below = Index::from_depth(0, 62).unwrap();
    assert_eq!(below.left().unwrap().value(), 1u64 << 63);
    assert_eq!(below.right().unwrap().value(), (1u64 << 63) + 1);
}

#[test]
fn is_left_means_even_and_not_root() {
    assert!(!Index::root().is_left());
    assert!(Index::from_one(2).unwrap().is_left());
    assert!(!Index::from_one(3).unwrap().is_left());
    assert!(Index::from_one(12).unwrap().is_left());
}

#[test]
fn route_lists_turns_last_first() {
    assert_eq!(Index::root().route(), Vec::<bool>::new());
    assert_eq!(Index::from_one(2).unwrap().route(), vec![false]);
    assert_eq!(Index::from_one(3).unwrap().route(), vec![true]);
    // 6 = root.right().left(): the last turn (left) comes first.
    assert_eq!(Index::from_one(6).unwrap().route(), vec![false, true]);
    // 22 = 0b10110: turns from the root are left, right, right, left.
    assert_eq!(
        Index::from_one(22).unwrap().route(),
        vec![false, true, true, false]
    );
}

#[test]
fn required_depth_rounds_up() {
    assert_eq!(required_depth(0), 0);
    assert_eq!(required_depth(1), 0);
    assert_eq!(required_depth(2), 1);
    assert_eq!(required_depth(3), 2);
    assert_eq!(required_depth(4), 2);
    assert_eq!(required_depth(5), 3);
    assert_eq!(required_depth(LIMIT), 63);
    assert_eq!(level_width(0), 1);
    assert_eq!(level_width(10), 1024);
    assert_eq!(level_width(63), LIMIT);
}
