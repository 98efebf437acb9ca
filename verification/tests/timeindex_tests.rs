use raphtory::timeindex::{TimeIndex, TimeIndexEntry};

#[test]
fn index_goes_from_empty_to_one_to_many() {
    let mut index = TimeIndex::new();
    assert_eq!(index, TimeIndex::Empty);
    assert_eq!((index.first(), index.last(), index.len()), (None, None, 0));
    assert!(index.is_empty());
    assert!(index.insert(4));
    assert_eq!(index, TimeIndex::One(4));
    assert!(!index.insert(4));
    assert_eq!(index, TimeIndex::One(4));
    assert!(index.insert(-2));
    assert_eq!(index, TimeIndex::Many(vec![-2, 4]));
    assert!(index.insert(9));
    assert!(index.insert(0));
    assert!(!index.insert(9));
    assert_eq!(index.iter(), vec![-2, 0, 4, 9]);
    assert_eq!((index.first(), index.last(), index.len()), (Some(-2), Some(9), 4));
    assert!(index.contains(0));
    assert!(!index.contains(1));
}

#[test]
fn range_is_half_open() {
    let mut index = TimeIndex::one(5);
    assert_eq!(index.range(5..6), vec![5]);
    assert_eq!(index.range(4..5), Vec::<i64>::new());
    assert_eq!(index.range(i64::MIN..i64::MAX), vec![5]);
    for t in [1, 3, 7, i64::MAX, i64::MIN] {
        index.insert(t);
    }
    assert_eq!(index.range(3..7), vec![3, 5]);
    assert_eq!(index.range(i64::MIN..i64::MAX), vec![i64::MIN, 1, 3, 5, 7]);
    assert_eq!(index.range(8..i64::MAX), Vec::<i64>::new());
    assert_eq!(index.range(7..3), Vec::<i64>::new());
    assert!(index.active(7..8));
    assert!(!index.active(8..i64::MAX));
    assert!(!TimeIndex::new().active(i64::MIN..i64::MAX));
}

#[test]
fn timestamps_are_ordered_by_time_then_sequence() {
    let a = TimeIndexEntry::new(1, 5);
    let b = TimeIndexEntry::new(2, 0);
    let c = TimeIndexEntry::new(2, 1);
    assert!(a.lt(&b) && b.lt(&c) && a.lt(&c));
    assert!(!b.lt(&a) && !c.lt(&c));
    assert!(a < b && b < c);
    assert_eq!(TimeIndexEntry::from(7), TimeIndexEntry::start(7));
    assert_eq!(TimeIndexEntry::start(7), TimeIndexEntry(7, 0));
    assert_eq!(TimeIndexEntry::end(7), TimeIndexEntry(7, usize::MAX));
    assert_eq!((c.t(), c.i()), (2, 1));
    let r = TimeIndexEntry::range(3..9);
    assert_eq!((r.start, r.end), (TimeIndexEntry(3, 0), TimeIndexEntry(9, 0)));
}
