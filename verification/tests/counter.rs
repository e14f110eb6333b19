use gyoll::counter::Counter;
use gyoll::cursor::BegCursor;

#[test]
fn counter_insert() {
    let mut c = Counter::new();
    c.insert(5);
    assert_eq!(c.min(), Some(&5));
}

#[test]
fn counter_empty_min() {
    let c: Counter<i32> = Counter::new();
    assert_eq!(c.min(), None);
}

#[test]
fn counter_remove() {
    let mut c = Counter::new();
    c.remove(&5);
    c.insert(5);
    c.insert(6);
    c.remove(&5);
    assert_eq!(c.min(), Some(&6));
}

#[test]
fn counter_counts_repeated_keys() {
    let mut c = Counter::new();
    assert!(c.is_empty());
    c.insert(7);
    c.insert(7);
    c.insert(3);
    assert_eq!(c.count(&7), 2);
    assert_eq!(c.count(&3), 1);
    assert_eq!(c.count(&5), 0);
    assert_eq!(c.min(), Some(&3));
    assert_eq!(c.max(), Some(&7));
    c.remove(&7);
    assert_eq!(c.count(&7), 1);
    assert_eq!(c.max(), Some(&7));
    c.remove(&7);
    assert_eq!(c.count(&7), 0);
    assert_eq!(c.max(), Some(&3));
    c.remove(&3);
    assert!(c.is_empty());
    assert_eq!(c.max(), None);
    assert!(!c.saturated());
}

#[test]
fn counter_orders_cursors_by_cycle_first() {
    let mut c = Counter::new();
    c.insert(BegCursor { cycle: 1, offset: 0 });
    c.insert(BegCursor { cycle: 0, offset: 100 });
    c.insert(BegCursor { cycle: 0, offset: 7 });
    assert_eq!(c.min(), Some(&BegCursor { cycle: 0, offset: 7 }));
    assert_eq!(c.max(), Some(&BegCursor { cycle: 1, offset: 0 }));
}
