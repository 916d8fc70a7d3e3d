//! Which peers follow the changes of which parts of an octree.
//!
//! Each peer has an octree of integers: a positive value at a cell means that the
//! peer is subscribed to the changes under that cell.
use vstd::prelude::*;
use std::collections::HashMap;
use crate::cell_path::CellPath;
use crate::stat_int::{InnerStatInt, StatInt};
use crate::svo::{Cell, Either, Tree, follow};
use vstd::std_specs::iter::IteratorSpec;

verus! {

/// A peer whose subscription octree reaches the cell `t` is subscribed to it: a leaf
/// by its value, an internal cell by its maximum.
pub open spec fn subscribed(t: Tree<StatInt<i64>, InnerStatInt<i64>>) -> bool {
    match t {
        Tree::Leaf(d) => d.0 > 0,
        Tree::Node(_, i) => i.max > 0,
    }
}

/// The peers subscribed to the cell at `path`, each once, in the order in which the map
/// is walked.
pub fn subscribers(subscriptions: &HashMap<i32, Cell<StatInt<i64>>>, path: CellPath) -> (r: Vec<i32>)
    requires
        forall|id: i32| subscriptions@.contains_key(id) ==> (#[trigger] subscriptions@[id]).wf(),
    ensures
        r@.no_duplicates(),
        forall|id: i32| r@.contains(id) <==>
            (subscriptions@.contains_key(id) && subscribed(follow(subscriptions@[id]@, path@))),
{
    broadcast use vstd::std_specs::hash::group_hash_axioms;
    let mut out: Vec<i32> = Vec::new();
    for pair in it: subscriptions.iter()
        invariant
            forall|id: i32| subscriptions@.contains_key(id) ==> (#[trigger] subscriptions@[id]).wf(),
            it.seq() == vstd::std_specs::hash::spec_hash_map_iter(subscriptions).remaining(),
            it.seq().no_duplicates(),
            out@.no_duplicates(),
            forall|id: i32| out@.contains(id) <==> exists|j: int| 0 <= j < it.index()
                && *it.seq()[j].0 == id && subscribed(follow((*it.seq()[j].1)@, path@)),
    {
        let (id, cell) = pair;
        let ghost i = it.index();
        let ghost sq = it.seq();
        proof {
            assert(pair == sq[i]);
            assert(subscriptions@.contains_key(*sq[i].0) && subscriptions@[*sq[i].0] == *sq[i].1);
        }
        let (_, reached) = cell.follow_path(path);
        let value = match reached.data() {
            Either::Left(l) => l.max,
            Either::Right(d) => d.0,
        };
        proof {
            crate::svo::lemma_cell_tree(*reached);
            assert((value > 0) == subscribed(follow(cell@, path@)));
        }
        let ghost before = out@;
        if value > 0 {
            proof {
                assert forall|j: int| 0 <= j < i implies *sq[j].0 != *id by {
                    if *sq[j].0 == *id {
                        assert(subscriptions@[*sq[j].0] == *sq[j].1);
                        assert(sq[j] == sq[i]);
                    }
                }
                assert(!before.contains(*id));
            }
            out.push(*id);
        }
        proof {
            assert forall|x: i32| out@.contains(x) implies exists|j: int| 0 <= j < i + 1
                && *sq[j].0 == x && subscribed(follow((*sq[j].1)@, path@)) by {
                if before.contains(x) {
                    let j = choose|j: int| 0 <= j < i && *sq[j].0 == x && subscribed(follow((*sq[j].1)@, path@));
                    assert(0 <= j < i + 1);
                } else {
                    assert(x == *id);
                    assert(*sq[i].0 == x);
                }
            }
            assert forall|x: i32| (exists|j: int| 0 <= j < i + 1
                && *sq[j].0 == x && subscribed(follow((*sq[j].1)@, path@))) implies out@.contains(x) by {
                let j = choose|j: int| 0 <= j < i + 1 && *sq[j].0 == x && subscribed(follow((*sq[j].1)@, path@));
                if j < i {
                    assert(before.contains(x));
                    assert(out@.contains(x)) by {
                        let k = choose|k: int| 0 <= k < before.len() && before[k] == x;
                        assert(out@[k] == x);
                    }
                } else {
                    assert(out@.last() == x);
                }
            }
        }
    }
    proof {
        let v = vstd::std_specs::hash::spec_hash_map_iter(subscriptions).remaining();
        assert forall|id: i32| subscriptions@.contains_key(id) && subscribed(follow(subscriptions@[id]@, path@))
            implies out@.contains(id) by {
            assert(v.contains((&id, &subscriptions@[id])));
            let j = choose|j: int| 0 <= j < v.len() && v[j] == (&id, &subscriptions@[id]);
            assert(*v[j].0 == id);
        }
    }
    out
}

} // verus!
