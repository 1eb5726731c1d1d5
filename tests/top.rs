use spellcast::top::Top;

#[test]
fn capacity_zero_keeps_nothing() {
    let mut t: Top<i64> = Top::new(0);
    t.insert(5);
    t.insert(-3);
    t.insert_by_key(7, 0);
    assert!(t.worst().is_none());
    assert!(t.into_inner().is_empty());
}

#[test]
fn capacity_one_keeps_best() {
    let mut t: Top<&str> = Top::new(1);
    t.insert_by_key("eight", -8);
    t.insert_by_key("three", -3);
    t.insert_by_key("twelve", -12);
    t.insert_by_key("five", -5);
    assert_eq!(t.into_inner(), vec!["twelve"]);
}

#[test]
fn keeps_lowest_ranks_in_order() {
    let mut t: Top<i64> = Top::new(3);
    for v in [5, 1, 9, 3, 7, 2] {
        t.insert(v);
    }
    assert_eq!(t.into_inner(), vec![1, 2, 3]);
}

#[test]
fn worst_only_once_full() {
    let mut t: Top<i64> = Top::new(2);
    assert!(t.worst().is_none());
    t.insert(4);
    assert!(t.worst().is_none());
    t.insert(6);
    assert_eq!(t.worst(), Some(&6));
    t.insert(1);
    assert_eq!(t.worst(), Some(&4));
}
