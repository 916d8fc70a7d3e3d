use svo::cell_path::{CellPath, U3};
use svo::stat_bool::{InnerStatBool, StatBool};
use svo::stat_int::{InnerStatInt, StatInt};
use svo::svo::{Cell, Either, InternalCell, LeafCell};

fn leaf(b: bool) -> Cell<StatBool> {
    Cell::Leaf(LeafCell::new(StatBool(b)))
}

fn path(octants: &[u8]) -> CellPath {
    let mut p = CellPath::new();
    for o in octants {
        p.push(U3::new(*o));
    }
    p
}

fn inner_data(c: &Cell<StatBool>) -> InnerStatBool {
    match c.data() {
        Either::Left(i) => *i,
        Either::Right(_) => panic!("a leaf"),
    }
}

fn leaf_data(c: &Cell<StatBool>) -> StatBool {
    match c.data() {
        Either::Right(d) => *d,
        Either::Left(_) => panic!("an internal cell"),
    }
}

#[test]
fn split_then_merge_gives_the_leaf_back() {
    let mut c = leaf(true);
    c.split();
    assert!(c.is_inner());
    assert!(!c.is_leaf());
    assert_eq!(c.depth(), 1);
    assert_eq!(inner_data(&c), InnerStatBool { any: true, all: true });
    assert_eq!(c.iter_children().len(), 8);
    assert!(c.try_merge());
    assert!(c.is_leaf());
    assert_eq!(c.as_leaf().data, StatBool(true));
}

#[test]
fn try_merge_on_a_leaf_is_true() {
    let mut c = leaf(false);
    assert!(c.try_merge());
    assert_eq!(leaf_data(&c), StatBool(false));
}

#[test]
fn try_merge_refuses_different_leaves() {
    let mut children = Vec::new();
    for k in 0..8 {
        children.push(leaf(k == 3));
    }
    let inner = InternalCell::from_children(children);
    assert_eq!(inner.data, InnerStatBool { any: true, all: false });
    let mut c: Cell<StatBool> = inner.into();
    assert!(!c.try_merge());
    assert!(c.is_inner());
    assert_eq!(c.as_inner().get_child(U3::new(3)).as_leaf().data, StatBool(true));
}

#[test]
fn try_merge_refuses_internal_children() {
    let mut c = Cell::new_with_depth(2, StatBool(true));
    assert!(!c.try_merge());
    assert_eq!(c.depth(), 2);
}

#[test]
fn new_with_depth_builds_a_full_tree() {
    let c = Cell::new_with_depth(3, StatBool(false));
    assert_eq!(c.depth(), 3);
    assert_eq!(inner_data(&c), InnerStatBool { any: false, all: false });
    let leaf0 = Cell::new_with_depth(0, StatBool(true));
    assert!(leaf0.is_leaf());
    assert_eq!(leaf0.depth(), 0);
}

#[test]
fn simplify_counts_merges() {
    let mut c = Cell::new_with_depth(2, StatBool(true));
    assert_eq!(c.simplify(), 9);
    assert!(c.is_leaf());
    assert_eq!(leaf_data(&c), StatBool(true));
}

#[test]
fn simplify_stops_at_different_leaves() {
    let mut c = Cell::new_with_depth(2, StatBool(true));
    let (found, cell) = c.follow_path_mut(path(&[4, 6]));
    assert_eq!(found, path(&[4, 6]));
    *cell = leaf(false);
    c.updated_child(path(&[4, 6]));
    assert_eq!(inner_data(&c), InnerStatBool { any: true, all: false });
    assert_eq!(c.simplify(), 7);
    assert!(c.is_inner());
    assert_eq!(c.depth(), 2);
}

#[test]
fn simplify_on_path_only_follows_the_path() {
    let mut c = Cell::new_with_depth(2, StatBool(true));
    assert_eq!(c.simplify_on_path(path(&[2])), 1);
    assert!(c.is_inner());
    assert!(c.as_inner().get_child(U3::new(2)).is_leaf());
    assert!(c.as_inner().get_child(U3::new(3)).is_inner());
}

#[test]
fn follow_path_stops_at_a_leaf() {
    let c = Cell::new_with_depth(1, StatBool(true));
    let (found, cell) = c.follow_path(path(&[3, 5]));
    assert_eq!(found, path(&[3]));
    assert!(cell.is_leaf());
    let (found, cell) = c.follow_path(CellPath::new());
    assert_eq!(found, CellPath::new());
    assert!(cell.is_inner());
    let l = leaf(true);
    let (found, _) = l.follow_path(path(&[1, 2, 3]));
    assert_eq!(found, CellPath::new());
    let deep = Cell::new_with_depth(2, StatBool(true));
    let (found, _) = deep.follow_path(path(&[6, 1, 4, 2]));
    assert_eq!(found, path(&[6, 1]));
    let rest = path(&[6, 1, 4, 2]).reparent(found.depth());
    assert_eq!(rest, path(&[4, 2]));
}

#[test]
fn follow_path_and_split_goes_all_the_way() {
    let mut c = leaf(false);
    let cell = c.follow_path_and_split(path(&[1, 2]));
    assert!(cell.is_leaf());
    *cell = leaf(true);
    assert_eq!(c.depth(), 2);
    let (found, reached) = c.follow_path(path(&[1, 2]));
    assert_eq!(found, path(&[1, 2]));
    assert_eq!(leaf_data(reached), StatBool(true));
    c.updated_child(path(&[1, 2]));
    assert_eq!(inner_data(&c), InnerStatBool { any: true, all: false });
}

#[test]
fn full_split_reaches_the_depth() {
    let mut c = leaf(true);
    c.full_split(2);
    assert_eq!(c.depth(), 2);
    let mut it = c.iter();
    let mut n = 0;
    while let Some(item) = it.next() {
        assert_eq!(item.path.len(), 2);
        assert_eq!(item.cell.data, StatBool(true));
        n += 1;
    }
    assert_eq!(n, 64);
    for p in CellPath::all_iter(2) {
        let (found, reached) = c.follow_path(p);
        assert_eq!(found, p);
        assert!(reached.is_leaf());
    }
}

#[test]
fn iteration_yields_leaves_in_octant_order() {
    let mut c = leaf(false);
    let cell = c.follow_path_and_split(path(&[7]));
    *cell = leaf(true);
    let mut it = c.iter();
    let mut seen = Vec::new();
    while let Some(item) = it.next() {
        seen.push((item.path, item.cell.data));
    }
    assert_eq!(seen.len(), 8);
    for k in 0..8u8 {
        assert_eq!(seen[k as usize].0, path(&[k]));
        assert_eq!(seen[k as usize].1, StatBool(k == 7));
    }
}

#[test]
fn iteration_over_a_leaf_yields_it() {
    let c = leaf(true);
    let mut it = c.iter();
    let item = it.next().unwrap();
    assert_eq!(item.path, CellPath::new());
    assert_eq!(item.cell.data, StatBool(true));
    assert!(it.next().is_none());
}

#[test]
fn iteration_goes_depth_first() {
    let mut c = Cell::new_with_depth(1, StatBool(false));
    c.follow_path_and_split(path(&[0, 5]));
    let mut it = c.iter();
    let mut paths = Vec::new();
    while let Some(item) = it.next() {
        paths.push(item.path);
    }
    assert_eq!(paths.len(), 15);
    assert_eq!(paths[0], path(&[0, 0]));
    assert_eq!(paths[7], path(&[0, 7]));
    assert_eq!(paths[8], path(&[1]));
    assert_eq!(paths[14], path(&[7]));
}

#[test]
fn conversions_and_default() {
    let c: Cell<StatBool> = StatBool(true).into();
    assert_eq!(leaf_data(&c), StatBool(true));
    let l: LeafCell<StatBool> = StatBool(false).into();
    let c: Cell<StatBool> = l.into();
    assert_eq!(c.unwrap_leaf().data, StatBool(false));
    let d: Cell<StatBool> = Cell::default();
    assert_eq!(leaf_data(&d), StatBool(false));
    let i = InternalCell::new_full(StatBool(true));
    let c: Cell<StatBool> = i.into();
    assert_eq!(c.unwrap_inner().data, InnerStatBool { any: true, all: true });
}

#[test]
fn accessors_by_kind() {
    let mut c = leaf(true);
    assert!(c.try_inner().is_none());
    assert!(c.try_leaf().is_some());
    c.as_leaf_mut().data = StatBool(false);
    assert_eq!(c.try_leaf_mut().unwrap().data, StatBool(false));
    match c.data_mut() {
        Either::Right(d) => *d = StatBool(true),
        Either::Left(_) => panic!("a leaf"),
    }
    assert_eq!(leaf_data(&c), StatBool(true));
    c.split();
    assert!(c.try_inner_mut().is_some());
    assert!(c.try_leaf_mut().is_none());
    *c.as_inner_mut().get_child_mut(U3::new(0)) = leaf(false);
    c.as_inner_mut().shallow_update();
    assert_eq!(inner_data(&c), InnerStatBool { any: true, all: false });
    assert_eq!(c.as_inner().iter_children().len(), 8);
}

#[test]
fn stat_int_tree_summaries() {
    let mut children = Vec::new();
    for k in 1..=8i64 {
        children.push(Cell::Leaf(LeafCell::new(StatInt(k))));
    }
    let inner = InternalCell::from_children(children);
    assert_eq!(inner.data, InnerStatInt { min: 1, max: 8, average: 4 });
    let mut c: Cell<StatInt<i64>> = inner.into();
    assert!(!c.try_merge());
    let mut same = Cell::new_with_depth(1, StatInt(5i64));
    assert!(same.try_merge());
    assert_eq!(same.unwrap_leaf().data, StatInt(5));
    assert_eq!(c.depth(), 1);
}

#[test]
fn follow_path_mut_returns_the_octants_followed() {
    let c = Cell::new_with_depth(1, StatBool(true));
    let (found, cell) = c.follow_path(path(&[3, 5]));
    assert_eq!(found, path(&[3]));
    assert!(cell.is_leaf());
    let mut m = Cell::new_with_depth(2, StatBool(false));
    let (found, cell) = m.follow_path_mut(path(&[6, 1, 4]));
    assert_eq!(found, path(&[6, 1]));
    *cell = leaf(true);
    m.updated_child(path(&[6, 1]));
    assert_eq!(inner_data(&m), InnerStatBool { any: true, all: false });
}

#[test]
fn well_formedness_is_checked() {
    assert!(leaf(true).is_well_formed());
    assert!(Cell::new_with_depth(2, StatBool(false)).is_well_formed());
    let bad: Cell<StatBool> = Cell::Internal(InternalCell { children: vec![leaf(true)], data: InnerStatBool { any: true, all: true } });
    assert!(!bad.is_well_formed());
}

#[test]
fn cells_clone_deeply() {
    let mut c = Cell::new_with_depth(2, StatBool(false));
    let copy = c.clone();
    let (_, cell) = c.follow_path_mut(path(&[1, 1]));
    *cell = leaf(true);
    let (_, original) = copy.follow_path(path(&[1, 1]));
    assert_eq!(leaf_data(original), StatBool(false));
    assert_eq!(copy.depth(), 2);
    let l = LeafCell::new(StatBool(true)).clone();
    assert_eq!(l.data, StatBool(true));
}
