use disjoint_set::union_find::weighted_quick_union::Weighted_Quick_Union;
use disjoint_set::union_find::UnionBeforeInsert;

#[test]
fn test_weighted_quick_union_basics() {
    let mut wqu = Weighted_Quick_Union::new();
    wqu.insert(0);
    wqu.insert(1);
    wqu.insert(2);
    wqu.insert(3);
    wqu.insert(4);

    assert!(wqu.union(&0, &1).is_ok());
    assert!(wqu.union(&1, &2).is_ok());

    assert_eq!(wqu.parent_entries()[0], 1);
    assert_eq!(wqu.parent_entries()[1], 1);
    assert_eq!(wqu.parent_entries()[2], 1);

    assert!(wqu.union(&2, &3).is_ok());
    assert!(wqu.union(&3, &4).is_ok());

    assert_eq!(wqu.parent_entries()[3], 1);
    assert_eq!(wqu.parent_entries()[4], 1);

    assert_eq!(wqu.size_entries(), [1, 5, 1, 1, 1]);
}

#[test]
fn insert_twice_leaves_size_and_group() {
    let mut wqu = Weighted_Quick_Union::new();
    wqu.insert(7);
    wqu.insert(8);
    assert_eq!(wqu.size(), 2);
    assert!(wqu.union(&7, &8).is_ok());

    wqu.insert(7);
    assert_eq!(wqu.size(), 2);
    assert!(wqu.is_connected(&7, &8));
    assert_eq!(wqu.parent_entries(), [1, 1]);
    assert_eq!(wqu.size_entries(), [1, 2]);
}

#[test]
fn reflexivity_of_inserted_items() {
    let mut wqu = Weighted_Quick_Union::new();
    wqu.insert(5);
    wqu.insert(6);
    assert!(wqu.is_connected(&5, &5));
    assert!(wqu.is_connected(&6, &6));
}

#[test]
fn unregistered_items_are_isolated() {
    let mut wqu = Weighted_Quick_Union::new();
    wqu.insert(1);
    assert!(!wqu.is_connected(&99, &1));
    assert!(!wqu.is_connected(&1, &99));
    assert!(!wqu.is_connected(&99, &99));
    assert!(!wqu.is_connected(&99, &100));
}

#[test]
fn union_before_insert_is_an_error() {
    let mut wqu = Weighted_Quick_Union::new();
    wqu.insert(1);
    wqu.insert(2);
    assert_eq!(wqu.union(&1, &3), Err(UnionBeforeInsert));
    assert_eq!(wqu.union(&3, &1), Err(UnionBeforeInsert));
    assert_eq!(wqu.union(&3, &4), Err(UnionBeforeInsert));

    assert_eq!(wqu.size(), 2);
    assert!(!wqu.is_connected(&1, &2));
    assert!(!wqu.is_connected(&1, &3));
    assert_eq!(wqu.parent_entries(), [0, 1]);
    assert_eq!(wqu.size_entries(), [1, 1]);
}

#[test]
fn union_establishes_lasting_connectivity() {
    let mut wqu = Weighted_Quick_Union::new();
    wqu.insert(10);
    wqu.insert(20);
    wqu.insert(30);
    assert!(wqu.union(&10, &20).is_ok());
    assert!(wqu.is_connected(&10, &20));
    assert!(wqu.is_connected(&20, &10));

    wqu.insert(40);
    assert!(wqu.union(&30, &40).is_ok());
    assert!(wqu.is_connected(&10, &20));
    assert!(!wqu.is_connected(&10, &30));
}

#[test]
fn chained_unions_are_transitive() {
    let mut wqu = Weighted_Quick_Union::new();
    wqu.insert(10);
    wqu.insert(20);
    wqu.insert(30);
    wqu.insert(40);
    wqu.insert(50);
    assert!(wqu.union(&10, &20).is_ok());
    assert!(wqu.union(&20, &30).is_ok());
    assert!(wqu.union(&30, &40).is_ok());
    assert!(wqu.union(&40, &50).is_ok());
    assert!(wqu.is_connected(&10, &50));
    assert!(wqu.is_connected(&50, &10));
    // Identifier 1 survives every merge of the chain, and its size entry
    // counts all five items.
    assert_eq!(wqu.size_entries()[1], 5);
}

#[test]
fn size_accounting_worked_example() {
    let mut wqu = Weighted_Quick_Union::new();
    for item in 0..5 {
        wqu.insert(item);
    }
    // Five singleton groups: every identifier its own root, each of size 1.
    assert_eq!(wqu.parent_entries(), [0, 1, 2, 3, 4]);
    assert_eq!(wqu.size_entries(), [1, 1, 1, 1, 1]);

    assert!(wqu.union(&0, &1).is_ok());
    assert!(wqu.union(&1, &2).is_ok());
    assert!(wqu.union(&2, &3).is_ok());
    assert!(wqu.union(&3, &4).is_ok());

    // Every non-root parent entry points at the surviving root picked by the
    // larger-size rule at each step, and that root's group holds all five.
    assert_eq!(wqu.parent_entries(), [1, 1, 1, 1, 1]);
    assert_eq!(wqu.size_entries(), [1, 5, 1, 1, 1]);
}

#[test]
fn union_leaves_other_groups_untouched() {
    let mut wqu = Weighted_Quick_Union::new();
    for item in 0..6 {
        wqu.insert(item);
    }
    assert!(wqu.union(&2, &3).is_ok());
    let parents_before = wqu.parent_entries();
    let sizes_before = wqu.size_entries();

    assert!(wqu.union(&0, &1).is_ok());

    let parents_after = wqu.parent_entries();
    let sizes_after = wqu.size_entries();
    for id in 2..6 {
        assert_eq!(parents_after[id], parents_before[id]);
        assert_eq!(sizes_after[id], sizes_before[id]);
    }
    assert!(!wqu.is_connected(&0, &2));
    assert!(!wqu.is_connected(&4, &5));
    assert!(wqu.is_connected(&2, &3));
}

#[test]
fn size_grows_only_on_novel_insertions() {
    let mut wqu = Weighted_Quick_Union::new();
    assert_eq!(wqu.size(), 0);
    wqu.insert(3);
    assert_eq!(wqu.size(), 1);
    wqu.insert(4);
    assert_eq!(wqu.size(), 2);
    wqu.insert(3);
    assert_eq!(wqu.size(), 2);
    assert!(wqu.union(&3, &4).is_ok());
    assert_eq!(wqu.size(), 2);
    wqu.insert(5);
    assert_eq!(wqu.size(), 3);
}

#[test]
fn merging_a_group_with_itself_changes_nothing() {
    let mut wqu = Weighted_Quick_Union::new();
    wqu.insert(1);
    wqu.insert(2);
    assert!(wqu.union(&1, &2).is_ok());
    let parents_before = wqu.parent_entries();
    let sizes_before = wqu.size_entries();

    assert!(wqu.union(&1, &2).is_ok());
    assert!(wqu.union(&2, &2).is_ok());

    assert_eq!(wqu.parent_entries(), parents_before);
    assert_eq!(wqu.size_entries(), sizes_before);
    assert_eq!(wqu.size(), 2);
}
