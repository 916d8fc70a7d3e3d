use svo::cell_path::{CellPath, U3};

fn path(raw: u128) -> CellPath {
    CellPath::from_raw(raw).unwrap()
}

#[test]
fn test_neighbor() {
    let p = CellPath::new().with_push(U3::new(0b000));
    assert_eq!(p.neighbor(0, 0, 0), Some(p));
    assert_eq!(p.neighbor(0, 1, 0), Some(path(0b1_010)));
    assert_eq!(p.neighbor(1, 1, 0), Some(path(0b1_011)));
    assert_eq!(p.neighbor(1, 1, 1), Some(path(0b1_111)));
    assert_eq!(p.neighbor(-1, 1, 1), None);

    let p = path(0b1010);
    assert_eq!(p.neighbor(0, 0, 0), Some(p));
    assert_eq!(p.neighbor(0, 1, 0), None);
    assert_eq!(p.neighbor(0, -1, 0), Some(path(0b1_000)));
    assert_eq!(p.neighbor(1, 0, 0), Some(path(0b1_011)));
    assert_eq!(p.neighbor(1, 0, 1), Some(path(0b1_111)));
    assert_eq!(p.neighbor(-1, 1, 1), None);

    let p = path(0b1_100_010);
    assert_eq!(p.neighbor(0, 0, 0), Some(path(0b1_100_010)));
    assert_eq!(p.neighbor(1, 0, 0), Some(path(0b1_100_011)));
    assert_eq!(p.neighbor(1, 0, 1), Some(path(0b1_100_111)));
    assert_eq!(p.neighbor(1, -1, 1), Some(path(0b1_100_101)));
    assert_eq!(p.neighbor(1, 1, 1), Some(path(0b1_110_101)));

    let p = path(0b1_000_111);
    assert_eq!(p.neighbor(0, 0, 0), Some(path(0b1_000_111)));
    assert_eq!(p.neighbor(1, 0, 0), Some(path(0b1_001_110)));
    assert_eq!(p.neighbor(0, 1, 0), Some(path(0b1_010_101)));
    assert_eq!(p.neighbor(1, 1, 0), Some(path(0b1_011_100)));
    assert_eq!(p.neighbor(0, 0, 1), Some(path(0b1_100_011)));
    assert_eq!(p.neighbor(1, 0, 1), Some(path(0b1_101_010)));
    assert_eq!(p.neighbor(0, 1, 1), Some(path(0b1_110_001)));
    assert_eq!(p.neighbor(1, 1, 1), Some(path(0b1_111_000)));
    assert_eq!(p.neighbor(-1, 0, 0), Some(path(0b1_000_110)));
    assert_eq!(p.neighbor(0, -1, 0), Some(path(0b1_000_101)));
    assert_eq!(p.neighbor(-1, -1, 0), Some(path(0b1_000_100)));
    assert_eq!(p.neighbor(0, 0, -1), Some(path(0b1_000_011)));
    assert_eq!(p.neighbor(-1, 0, -1), Some(path(0b1_000_010)));
    assert_eq!(p.neighbor(0, -1, -1), Some(path(0b1_000_001)));
    assert_eq!(p.neighbor(-1, -1, -1), Some(path(0b1_000_000)));
}

#[test]
fn test_extended() {
    let path_a = path(0b1_000_000);
    let path_b = path(0b1_000_000);
    assert_eq!(path_a.extended(path_b), path(0b1_000_000_000_000));
    let path_a = path(0b1_110_011);
    let path_b = path(0b1_100_101);
    assert_eq!(path_a.extended(path_b), path(0b1_110_011_100_101));
    assert_eq!(path_b.extended(path_a), path(0b1_100_101_110_011));
}

#[test]
fn new_path_is_empty() {
    let p = CellPath::new();
    assert_eq!(p.raw(), 1);
    assert_eq!(p.len(), 0);
    assert_eq!(p.depth(), 0);
    assert_eq!(p.capacity(), 42);
    assert_eq!(CellPath::default(), p);
}

#[test]
fn from_raw_refuses_invalid_values() {
    assert_eq!(CellPath::from_raw(0), None);
    assert_eq!(CellPath::from_raw(0b10), None);
    assert_eq!(CellPath::from_raw(0b1000_0), None);
    assert!(CellPath::from_raw(0b1_101).is_some());
    assert_eq!(CellPath::from_raw(0b1_101).unwrap().raw(), 0b1_101);
}

#[test]
fn push_pop_peek() {
    let mut p = CellPath::new();
    p.push(U3::new(3));
    p.push(U3::new(5));
    assert_eq!(p.raw(), 0b1_011_101);
    assert_eq!(p.len(), 2);
    assert_eq!(p.peek(), Some(U3::new(3)));
    assert_eq!(p.pop(), Some(U3::new(3)));
    assert_eq!(p, path(0b1_101));
    assert_eq!(p.pop(), Some(U3::new(5)));
    assert_eq!(p.pop(), None);
    assert_eq!(p.peek(), None);
    assert_eq!(p, CellPath::new());
}

#[test]
fn push_back_goes_to_root() {
    let mut p = path(0b1_101);
    p.push_back(U3::new(2));
    assert_eq!(p, path(0b1_010_101));
    assert_eq!(path(0b1_101).with_push_back(U3::new(7)), path(0b1_111_101));
    let mut q = p;
    assert_eq!(q.next(), Some(U3::new(2)));
    assert_eq!(q.next(), Some(U3::new(5)));
    assert_eq!(q.next(), None);
}

#[test]
fn parent_and_parents() {
    let p = path(0b1_001_010_011);
    assert_eq!(p.parent(), Some(path(0b1_001_010)));
    assert_eq!(CellPath::new().parent(), None);
    assert_eq!(p.parents(), vec![path(0b1_001_010), path(0b1_001), CellPath::new()]);
}

#[test]
fn children_in_octant_order() {
    let p = path(0b1_110);
    let ch = p.children();
    for k in 0..8u8 {
        assert_eq!(ch[k as usize], p.with_push(U3::new(k)));
        assert_eq!(ch[k as usize].parent(), Some(p));
    }
}

#[test]
fn all_iter_in_index_order() {
    assert_eq!(CellPath::all_iter(0), vec![CellPath::new()]);
    let one = CellPath::all_iter(1);
    assert_eq!(one.len(), 8);
    for (k, p) in one.iter().enumerate() {
        assert_eq!(p.len(), 1);
        assert_eq!(p.index(), k as u128);
    }
    let two = CellPath::all_iter(2);
    assert_eq!(two.len(), 64);
    assert_eq!(two[9], path(0b1_001_001));
    for (k, p) in two.iter().enumerate() {
        assert_eq!(p.index(), k as u128);
    }
}

#[test]
fn index_is_the_octants_as_a_number() {
    assert_eq!(CellPath::new().index(), 0);
    assert_eq!(path(0b1_011_101).index(), 0b011_101);
}

#[test]
fn take_depth_and_reparent_split_a_path() {
    let p = path(0b1_001_010_011);
    assert_eq!(p.take_depth(2), path(0b1_001_010));
    assert_eq!(p.reparent(1), path(0b1_010_011));
    assert_eq!(p.take_depth(1).extended(p.reparent(1)), p);
    assert_eq!(p.take_depth(0), CellPath::new());
    assert_eq!(p.reparent(3), CellPath::new());
}

#[test]
fn neighbor_back_and_forth() {
    let p = path(0b1_000_111_010);
    let q = p.neighbor(1, -1, 1).unwrap();
    assert_eq!(q.neighbor(-1, 1, -1), Some(p));
}

#[test]
fn neighbors_of_a_corner() {
    let p = path(0b1_000);
    let n = p.neighbors();
    assert_eq!(n.len(), 7);
    assert_eq!(n[0], ((0, 0, 1), path(0b1_100)));
    assert_eq!(n[6], ((1, 1, 1), path(0b1_111)));
    let middle = path(0b1_000_111);
    assert_eq!(middle.neighbors().len(), 26);
}

#[test]
fn debug_string_in_binary() {
    assert_eq!(CellPath::new().debug_string(), "CellPath(1)");
    assert_eq!(path(0b1_010).debug_string(), "CellPath(1010)");
}

#[test]
fn u3_bounds() {
    assert_eq!(U3::max_value().value(), 7);
    assert_eq!(U3::new(5).value(), 5);
}

#[test]
fn neighbors_each_once_in_offset_order() {
    let p = path(0b1_000_111);
    let n = p.neighbors();
    let rank = |o: (i8, i8, i8)| (o.0 as i32 + 1) * 9 + (o.1 as i32 + 1) * 3 + (o.2 as i32 + 1);
    for w in n.windows(2) {
        assert!(rank(w[0].0) < rank(w[1].0));
    }
    for (o, q) in &n {
        assert_ne!(*o, (0, 0, 0));
        assert_eq!(p.neighbor(o.0, o.1, o.2), Some(*q));
    }
}

#[test]
fn of_index_serves_every_depth() {
    assert_eq!(CellPath::of_index(2, 9), Some(path(0b1_001_001)));
    assert_eq!(CellPath::of_index(0, 0), Some(CellPath::new()));
    assert_eq!(CellPath::of_index(1, 8), None);
    assert_eq!(CellPath::of_index(43, 0), None);
    let deep = CellPath::of_index(30, 12345).unwrap();
    assert_eq!(deep.len(), 30);
    assert_eq!(deep.index(), 12345);
    let last = CellPath::of_index(42, (1u128 << 126) - 1).unwrap();
    assert_eq!(last.len(), 42);
    assert_eq!(last.index(), (1u128 << 126) - 1);
}
