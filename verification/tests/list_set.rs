use concprim::list_set::OrderedListSet;

#[test]
fn iteration_is_ascending() {
    let mut set = OrderedListSet::new();
    assert_eq!(set.insert(3), Ok(()));
    assert_eq!(set.insert(1), Ok(()));
    assert_eq!(set.insert(2), Ok(()));
    let mut it = set.iter();
    assert_eq!(it.next(), Some(1));
    assert_eq!(it.next(), Some(2));
    assert_eq!(it.next(), Some(3));
    assert_eq!(it.next(), None);

    assert_eq!(set.remove(2), Ok(2));
    let mut it = set.iter();
    assert_eq!(it.next(), Some(1));
    assert_eq!(it.next(), Some(3));
    assert_eq!(it.next(), None);
}

#[test]
fn insert_then_contains() {
    let mut set = OrderedListSet::new();
    assert!(!set.contains(4));
    assert_eq!(set.insert(4), Ok(()));
    assert!(set.contains(4));
    assert!(!set.contains(9));
}

#[test]
fn duplicate_insert_returns_key() {
    let mut set = OrderedListSet::new();
    assert_eq!(set.insert(5), Ok(()));
    assert_eq!(set.insert(5), Err(5));
    assert!(set.contains(5));
}

#[test]
fn remove_missing_reports_absent() {
    let mut set = OrderedListSet::new();
    assert_eq!(set.remove(7), Err(()));
    assert_eq!(set.insert(7), Ok(()));
    assert_eq!(set.remove(7), Ok(7));
    assert_eq!(set.remove(7), Err(()));
}

#[test]
fn empty_set_iterates_nothing() {
    let set = OrderedListSet::new();
    let mut it = set.iter();
    assert_eq!(it.next(), None);
    assert_eq!(it.next(), None);
}
