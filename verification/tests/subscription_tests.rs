use std::collections::HashMap;
use svo::cell_path::{CellPath, U3};
use svo::stat_int::StatInt;
use svo::subscription::subscribers;
use svo::svo::{Cell, LeafCell};

fn path(octants: &[u8]) -> CellPath {
    let mut p = CellPath::new();
    for o in octants {
        p.push(U3::new(*o));
    }
    p
}

#[test]
fn subscribers_of_a_cell() {
    let mut subs: HashMap<i32, Cell<StatInt<i64>>> = HashMap::new();
    subs.insert(1, Cell::Leaf(LeafCell::new(StatInt(2))));
    subs.insert(2, Cell::Leaf(LeafCell::new(StatInt(0))));
    let mut partial = Cell::new_with_depth(1, StatInt(-1i64));
    let (_, c) = partial.follow_path_mut(path(&[4]));
    *c = Cell::Leaf(LeafCell::new(StatInt(3)));
    partial.updated_child(path(&[4]));
    subs.insert(3, partial);

    let mut at_root = subscribers(&subs, CellPath::new());
    at_root.sort();
    assert_eq!(at_root, vec![1, 3]);

    let mut at_four = subscribers(&subs, path(&[4, 1]));
    at_four.sort();
    assert_eq!(at_four, vec![1, 3]);

    let mut at_two = subscribers(&subs, path(&[2]));
    at_two.sort();
    assert_eq!(at_two, vec![1]);

    assert!(subscribers(&HashMap::new(), CellPath::new()).is_empty());
}
