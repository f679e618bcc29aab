use suda_core::table::{IdSet, IdTable};

#[test]
fn a_table_gives_back_what_was_put_in() {
    let mut table: IdTable<&str> = IdTable::new();
    assert!(table.is_empty());
    assert_eq!(table.insert(5, "five"), None);
    assert_eq!(table.insert(9, "nine"), None);
    assert_eq!(table.insert(5, "cinq"), Some("five"));
    assert_eq!(table.get(5), Some(&"cinq"));
    assert_eq!(table.get(6), None);
    assert_eq!(table.len(), 2);
    if let Some(v) = table.get_mut(9) {
        *v = "neuf";
    }
    assert_eq!(table.remove(9), Some("neuf"));
    assert_eq!(table.remove(9), None);
    assert!(!table.contains_key(9));
    assert_eq!(table.len(), 1);
    table.clear();
    assert!(table.is_empty());
}

#[test]
fn a_table_survives_many_changes() {
    let mut table: IdTable<u64> = IdTable::new();
    for i in 0..1000u64 {
        table.insert(i.wrapping_mul(0x9e37_79b9_7f4a_7c15), i);
    }
    for i in (0..1000u64).filter(|i| i % 3 == 0) {
        assert_eq!(table.remove(i.wrapping_mul(0x9e37_79b9_7f4a_7c15)), Some(i));
    }
    assert_eq!(table.len(), 666);
    for i in 0..1000u64 {
        let found = table.get(i.wrapping_mul(0x9e37_79b9_7f4a_7c15)).copied();
        assert_eq!(found, if i % 3 == 0 { None } else { Some(i) });
    }
    let mut seen: Vec<u64> = (0..table.len()).map(|i| *table.value_at(i)).collect();
    seen.sort();
    assert_eq!(seen, (0..1000).filter(|i| i % 3 != 0).collect::<Vec<u64>>());
}

#[test]
fn a_set_holds_each_member_once() {
    let mut set = IdSet::new();
    assert!(set.insert(4));
    assert!(!set.insert(4));
    assert!(set.contains(4));
    assert_eq!(set.len(), 1);
    assert!(set.remove(4));
    assert!(!set.remove(4));
    assert!(set.is_empty());
}
