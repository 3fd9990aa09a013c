use neutopia::interval::{Interval, IntervalStore};

#[test]
pub fn no_overlap() {
    let mut store = IntervalStore::new();
    store.add(0usize, 2);
    store.add(3, 5);
    store.add(6, 8);
    let intervals = store.get_intervals();
    assert_eq!(
        intervals,
        vec![
            Interval { start: 0, end: 2 },
            Interval { start: 3, end: 5 },
            Interval { start: 6, end: 8 },
        ]
    );
}

#[test]
pub fn adjacent_overlap() {
    let mut store = IntervalStore::new();
    store.add(0usize, 2);
    store.add(4, 6);
    store.add(2, 4);
    let intervals = store.get_intervals();
    assert_eq!(intervals, vec![Interval { start: 0, end: 6 }]);
}

#[test]
pub fn full_overlap() {
    let mut store = IntervalStore::new();
    store.add(0usize, 2);
    store.add(4, 6);
    store.add(1, 5);
    let intervals = store.get_intervals();
    assert_eq!(intervals, vec![Interval { start: 0, end: 6 }]);
}

#[test]
fn listing_is_sorted_by_start_then_end() {
    let mut store = IntervalStore::new();
    store.add(20, 22);
    store.add(10, 12);
    store.add(30, 31);
    store.add(0, 1);
    assert_eq!(
        store.get_intervals(),
        vec![
            Interval { start: 0, end: 1 },
            Interval { start: 10, end: 12 },
            Interval { start: 20, end: 22 },
            Interval { start: 30, end: 31 },
        ]
    );
}

#[test]
fn later_intervals_join_the_first_that_touches() {
    let mut store = IntervalStore::new();
    store.add(10, 20);
    store.add(30, 40);
    store.add(50, 60);
    store.add(15, 35);
    assert_eq!(
        store.get_intervals(),
        vec![Interval { start: 10, end: 40 }, Interval { start: 50, end: 60 }]
    );
}

#[test]
fn an_interval_is_not_taken_in_by_what_grew_later() {
    // The new interval touches the first two; the third touches only what
    // the first has grown into while taking in the second, and stays.
    let mut store = IntervalStore::new();
    store.add(0, 10);
    store.add(12, 30);
    store.add(25, 40);
    let mut single = IntervalStore::new();
    single.add(0, 10);
    single.add(20, 30);
    single.add(32, 40);
    single.add(5, 20);
    assert_eq!(
        single.get_intervals(),
        vec![Interval { start: 0, end: 30 }, Interval { start: 32, end: 40 }]
    );
    assert_eq!(
        store.get_intervals(),
        vec![Interval { start: 0, end: 10 }, Interval { start: 12, end: 40 }]
    );
}

#[test]
fn can_merge_accepts_adjacent_and_rejects_apart() {
    let a = Interval { start: 0, end: 2 };
    let b = Interval { start: 2, end: 4 };
    let c = Interval { start: 3, end: 5 };
    assert!(a.can_merge(&b));
    assert!(b.can_merge(&a));
    assert!(!a.can_merge(&c));
    assert!(!c.can_merge(&a));
}

#[test]
fn merge_spans_both() {
    let mut a = Interval { start: 4, end: 6 };
    a.merge(&Interval { start: 1, end: 5 });
    assert_eq!(a, Interval { start: 1, end: 6 });
}

#[test]
fn a_default_store_is_empty() {
    let store = IntervalStore::default();
    assert_eq!(store.get_intervals(), vec![]);
    assert_eq!(IntervalStore::new().get_intervals(), vec![]);
}

#[test]
fn no_claimed_point_is_lost() {
    let claims = [(40usize, 44usize), (10, 12), (12, 20), (30, 31), (19, 41), (0, 1), (50, 50)];
    let mut store = IntervalStore::new();
    for (k, (start, end)) in claims.iter().enumerate() {
        store.add(*start, *end);
        let listed = store.get_intervals();
        for (s, e) in &claims[..=k] {
            for x in *s..*e {
                assert!(listed.iter().any(|i| i.start <= x && x < i.end));
            }
        }
    }
    assert_eq!(
        store.get_intervals(),
        vec![
            Interval { start: 0, end: 1 },
            Interval { start: 10, end: 44 },
            Interval { start: 50, end: 50 },
        ]
    );
}
