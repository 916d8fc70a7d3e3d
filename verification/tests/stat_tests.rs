use svo::stat_bool::{InnerStatBool, StatBool};
use svo::stat_int::{InnerStatInt, StatInt};
use svo::svo::{AggregateData, Either, LeafCell, MergeableData};

fn bool_leaves(values: [bool; 8]) -> Vec<StatBool> {
    values.iter().map(|v| StatBool(*v)).collect()
}

#[test]
fn stat_bool_aggregate_any_and_all() {
    let leaves = bool_leaves([false, false, true, false, false, false, false, false]);
    let refs: Vec<Either<&InnerStatBool, &StatBool>> = leaves.iter().map(Either::Right).collect();
    assert_eq!(StatBool::aggregate(refs), InnerStatBool { any: true, all: false });

    let leaves = bool_leaves([true; 8]);
    let refs: Vec<Either<&InnerStatBool, &StatBool>> = leaves.iter().map(Either::Right).collect();
    assert_eq!(StatBool::aggregate(refs), InnerStatBool { any: true, all: true });

    let leaves = bool_leaves([false; 8]);
    let refs: Vec<Either<&InnerStatBool, &StatBool>> = leaves.iter().map(Either::Right).collect();
    assert_eq!(StatBool::aggregate(refs), InnerStatBool { any: false, all: false });
}

#[test]
fn stat_bool_aggregate_reads_internal_summaries() {
    let inner = InnerStatBool { any: true, all: false };
    let leaf = StatBool(true);
    let mut refs: Vec<Either<&InnerStatBool, &StatBool>> = vec![Either::Left(&inner)];
    for _ in 0..7 {
        refs.push(Either::Right(&leaf));
    }
    assert_eq!(StatBool::aggregate(refs), InnerStatBool { any: true, all: false });
}

#[test]
fn stat_bool_merge() {
    let this = InnerStatBool::default();
    let same = bool_leaves([true; 8]);
    assert!(StatBool::can_merge(&this, same.iter().collect()));
    assert_eq!(StatBool::merge(this, same), Some(StatBool(true)));
    let mixed = bool_leaves([true, true, true, true, true, true, true, false]);
    assert!(!StatBool::can_merge(&this, mixed.iter().collect()));
    assert_eq!(StatBool::merge(this, mixed), None);
}

#[test]
fn stat_bool_defaults_and_leaf() {
    assert_eq!(StatBool::default(), StatBool(false));
    assert_eq!(InnerStatBool::default(), InnerStatBool { any: false, all: false });
    let l: LeafCell<StatBool> = StatBool(true).into();
    assert_eq!(l.data, StatBool(true));
}

fn int_aggregate(children: Vec<Either<&InnerStatInt<i64>, &StatInt<i64>>>) -> InnerStatInt<i64> {
    StatInt::<i64>::aggregate(children)
}

#[test]
fn stat_int_aggregate_of_leaves() {
    let leaves: Vec<StatInt<i64>> = (1..=8).map(StatInt).collect();
    let refs = leaves.iter().map(Either::Right).collect();
    assert_eq!(int_aggregate(refs), InnerStatInt { min: 1, max: 8, average: 4 });
}

#[test]
fn stat_int_average_uses_the_maximum_of_internal_children() {
    let inner = InnerStatInt { min: -5, max: 100, average: 0 };
    let zero = StatInt(0i64);
    let mut refs = vec![Either::Left(&inner)];
    for _ in 0..7 {
        refs.push(Either::Right(&zero));
    }
    assert_eq!(int_aggregate(refs), InnerStatInt { min: -5, max: 100, average: 12 });
}

#[test]
fn stat_int_average_rounds_toward_zero() {
    let leaves: Vec<StatInt<i64>> = vec![-9, 0, 0, 0, 0, 0, 0, 0].into_iter().map(StatInt).collect();
    let refs = leaves.iter().map(Either::Right).collect();
    assert_eq!(int_aggregate(refs), InnerStatInt { min: -9, max: 0, average: -1 });
}

#[test]
fn stat_int_sum_restarts_on_overflow() {
    let leaves: Vec<StatInt<i64>> = vec![i64::MAX, 1, 16, 0, 0, 0, 0, 0].into_iter().map(StatInt).collect();
    let refs = leaves.iter().map(Either::Right).collect();
    assert_eq!(int_aggregate(refs), InnerStatInt { min: 0, max: i64::MAX, average: 2 });
}

#[test]
fn stat_int_unsigned() {
    let leaves: Vec<StatInt<u32>> = vec![3, 9, 1, 4, 4, 4, 4, 4].into_iter().map(StatInt).collect();
    let refs: Vec<Either<&InnerStatInt<u32>, &StatInt<u32>>> = leaves.iter().map(Either::Right).collect();
    assert_eq!(StatInt::<u32>::aggregate(refs), InnerStatInt { min: 1, max: 9, average: 4 });
}

#[test]
fn stat_int_merge() {
    let this = InnerStatInt::<i64>::default();
    let same: Vec<StatInt<i64>> = vec![StatInt(-3); 8];
    assert!(StatInt::<i64>::can_merge(&this, same.iter().collect()));
    assert_eq!(StatInt::<i64>::merge(this, same), Some(StatInt(-3)));
    let mut mixed: Vec<StatInt<i64>> = vec![StatInt(-3); 8];
    mixed[5] = StatInt(2);
    assert!(!StatInt::<i64>::can_merge(&this, mixed.iter().collect()));
    assert_eq!(StatInt::<i64>::merge(this, mixed), None);
}

#[test]
fn stat_int_defaults() {
    assert_eq!(StatInt::<i64>::default(), StatInt(0));
    assert_eq!(InnerStatInt::<i32>::default(), InnerStatInt { min: 0, max: 0, average: 0 });
}

#[test]
fn consistent_children_give_a_consistent_summary() {
    let a = InnerStatBool { any: true, all: false };
    let b = InnerStatBool { any: false, all: false };
    let l = StatBool(true);
    let refs = vec![Either::Left(&a), Either::Left(&b), Either::Right(&l), Either::Right(&l),
        Either::Right(&l), Either::Right(&l), Either::Right(&l), Either::Right(&l)];
    let r = StatBool::aggregate(refs);
    assert!(!r.all || r.any);
    assert_eq!(r, InnerStatBool { any: true, all: false });

    let x = InnerStatInt { min: -4i64, max: 2, average: 0 };
    let v = StatInt(7i64);
    let refs = vec![Either::Left(&x), Either::Right(&v), Either::Right(&v), Either::Right(&v),
        Either::Right(&v), Either::Right(&v), Either::Right(&v), Either::Right(&v)];
    let r = int_aggregate(refs);
    assert!(r.min <= r.max);
    assert_eq!(r, InnerStatInt { min: -4, max: 7, average: 6 });
}
