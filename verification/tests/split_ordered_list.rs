use concprim::bits::bit_reverse;
use concprim::split_ordered_list::SplitOrderedList;

#[test]
fn bit_reverse_exact_values() {
    assert_eq!(bit_reverse(0), 0);
    assert_eq!(bit_reverse(1), 1u64 << 63);
    assert_eq!(bit_reverse(1u64 << 63), 1);
    assert_eq!(bit_reverse(0b1011), 0xd000000000000000);
    assert_eq!(bit_reverse(0xffffffffffffffff), 0xffffffffffffffff);
    assert_eq!(bit_reverse(bit_reverse(0x123456789abcdef0)), 0x123456789abcdef0);
}

#[test]
fn new_map_is_empty() {
    let mut map: SplitOrderedList<u64> = SplitOrderedList::new();
    assert_eq!(map.size(), 2);
    assert_eq!(map.count(), 0);
    assert_eq!(map.lookup(5), None);
    assert_eq!(map.delete(5), Err(()));
}

#[test]
fn insert_duplicate_returns_value() {
    let mut map: SplitOrderedList<String> = SplitOrderedList::new();
    assert_eq!(map.insert(5, String::from("a")), Ok(()));
    assert_eq!(map.insert(5, String::from("b")), Err(String::from("b")));
    assert_eq!(map.lookup(5), Some(&String::from("a")));
}

#[test]
fn hundred_inserts_double_the_buckets() {
    let mut map: SplitOrderedList<u64> = SplitOrderedList::new();
    for k in 1..=100u64 {
        assert_eq!(map.insert(k, k * 10), Ok(()));
    }
    assert_eq!(map.count(), 100);
    // the bucket count started at 2 and doubled five times
    assert_eq!(map.size(), 64);
    for k in 1..=100u64 {
        assert_eq!(map.lookup(k), Some(&(k * 10)));
    }
}

#[test]
fn insert_delete_lookup_absent() {
    let keys: [u64; 4] = [0, 1, 1u64 << 62, (1u64 << 63) - 1];
    for &k in keys.iter() {
        let mut map: SplitOrderedList<u64> = SplitOrderedList::new();
        assert_eq!(map.insert(k, 1), Ok(()));
        assert_eq!(map.delete(k), Ok(1));
        assert_eq!(map.lookup(k), None);
        assert_eq!(map.count(), 0);
    }
}

#[test]
fn high_bit_key_is_rejected_by_the_check() {
    assert!(!SplitOrderedList::<u64>::is_valid_key(1u64 << 63));
    assert!(SplitOrderedList::<u64>::is_valid_key((1u64 << 63) - 1));
}

#[test]
fn delete_missing_reports_absent() {
    let mut map: SplitOrderedList<u64> = SplitOrderedList::new();
    assert_eq!(map.insert(3, 30), Ok(()));
    assert_eq!(map.delete(4), Err(()));
    assert_eq!(map.lookup(3), Some(&30));
    assert_eq!(map.count(), 1);
}

#[test]
fn size_never_shrinks() {
    let mut map: SplitOrderedList<u64> = SplitOrderedList::new();
    let mut last: usize = map.size();
    for k in 1..=40u64 {
        map.insert(k, k).unwrap();
        let s = map.size();
        assert!(s >= last);
        assert!(s.is_power_of_two());
        last = s;
    }
    for k in 1..=40u64 {
        map.delete(k).unwrap();
        assert_eq!(map.size(), last);
    }
}
