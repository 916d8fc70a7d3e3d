//! A boolean per leaf, summarised in internal cells by whether any and whether all
//! of the leaves below hold `true`.
use vstd::prelude::*;
use crate::svo::{AggregateData, Data, Either, InternalData, LeafCell, MergeableData, Tree, deref_seq, deref_either_seq, is_split_of, tree_merged, all_leaves};

verus! {

/// What an internal cell knows of the booleans below it.
#[derive(Clone, Copy, Debug, PartialEq, Eq, Structural)]
pub struct InnerStatBool {
    pub any: bool,
    pub all: bool,
}

impl Default for InnerStatBool {
    fn default() -> (r: Self)
        ensures r == (InnerStatBool { any: false, all: false }),
    {
        InnerStatBool { any: false, all: false }
    }
}

impl InternalData for InnerStatBool {}

/// A boolean stored in a leaf.
#[derive(Clone, Copy, Debug, PartialEq, Eq, Structural)]
pub struct StatBool(pub bool);

impl Default for StatBool {
    fn default() -> (r: Self)
        ensures r == StatBool(false),
    {
        StatBool(false)
    }
}

impl Data for StatBool {
    type Internal = InnerStatBool;
}

impl From<StatBool> for LeafCell<StatBool> {
    fn from(value: StatBool) -> (r: LeafCell<StatBool>) {
        LeafCell { data: value }
    }
}

impl vstd::std_specs::convert::FromSpecImpl<StatBool> for LeafCell<StatBool> {
    open spec fn obeys_from_spec() -> bool {
        true
    }

    open spec fn from_spec(value: StatBool) -> LeafCell<StatBool> {
        LeafCell { data: value }
    }
}

/// Every value of `s` equals its first one.
pub open spec fn all_equal<T>(s: Seq<T>) -> bool {
    forall|k: int| 0 <= k < s.len() ==> #[trigger] s[k] == s[0]
}

/// Whether a child counts as `true` for `any`: a leaf by its value, an internal cell by its `any`.
pub open spec fn any_of(e: Either<InnerStatBool, StatBool>) -> bool {
    match e {
        Either::Left(i) => i.any,
        Either::Right(d) => d.0,
    }
}

/// Whether a child counts as `true` for `all`: a leaf by its value, an internal cell by its `all`.
pub open spec fn all_of(e: Either<InnerStatBool, StatBool>) -> bool {
    match e {
        Either::Left(i) => i.all,
        Either::Right(d) => d.0,
    }
}

impl MergeableData for StatBool {
    /// Eight leaves merge when they all hold the same value.
    open spec fn spec_can_merge(this: InnerStatBool, children: Seq<StatBool>) -> bool {
        all_equal(children)
    }

    open spec fn spec_merge(this: InnerStatBool, children: Seq<StatBool>) -> Option<StatBool> {
        if all_equal(children) { Some(children[0]) } else { None }
    }

    fn can_merge(this: &InnerStatBool, children: Vec<&StatBool>) -> (r: bool) {
        let first = children[0].0;
        let mut k: usize = 1;
        while k < children.len()
            invariant
                1 <= k <= children.len(),
                children.len() == 8,
                first == children@[0].0,
                forall|j: int| 0 <= j < k ==> (#[trigger] children@[j]).0 == first,
            decreases children.len() - k,
        {
            if children[k].0 != first {
                proof {
                    assert(deref_seq(children@)[k as int] != deref_seq(children@)[0]);
                }
                return false;
            }
            k = k + 1;
        }
        proof {
            assert forall|j: int| 0 <= j < deref_seq(children@).len() implies
                #[trigger] deref_seq(children@)[j] == deref_seq(children@)[0] by {
                assert(children@[j].0 == first);
            }
        }
        true
    }

    fn merge(this: InnerStatBool, children: Vec<StatBool>) -> (r: Option<StatBool>) {
        let mut refs: Vec<&StatBool> = Vec::new();
        let mut k: usize = 0;
        while k < children.len()
            invariant
                k <= children.len(),
                refs.len() == k,
                forall|j: int| 0 <= j < k ==> *(#[trigger] refs@[j]) == children@[j],
            decreases children.len() - k,
        {
            refs.push(&children[k]);
            k = k + 1;
        }
        proof { assert(deref_seq(refs@) =~= children@); }
        if !Self::can_merge(&this, refs) {
            return None;
        }
        Some(StatBool(children[0].0))
    }
}

impl AggregateData for StatBool {
    /// `any` holds when some child counts as `true` for it, `all` when every child does.
    open spec fn spec_aggregate(children: Seq<Either<InnerStatBool, StatBool>>) -> InnerStatBool {
        InnerStatBool {
            any: exists|k: int| 0 <= k < children.len() && any_of(#[trigger] children[k]),
            all: forall|k: int| 0 <= k < children.len() ==> all_of(#[trigger] children[k]),
        }
    }

    fn aggregate(children: Vec<Either<&InnerStatBool, &StatBool>>) -> (r: InnerStatBool) {
        let ghost d = deref_either_seq(children@);
        let mut any = false;
        let mut all = true;
        let mut k: usize = 0;
        while k < children.len()
            invariant
                k <= children.len(),
                d == deref_either_seq(children@),
                any == exists|j: int| 0 <= j < k && any_of(#[trigger] d[j]),
                all == forall|j: int| 0 <= j < k ==> all_of(#[trigger] d[j]),
            decreases children.len() - k,
        {
            let (a, b) = match children[k] {
                Either::Left(l) => (l.any, l.all),
                Either::Right(x) => (x.0, x.0),
            };
            proof {
                assert(a == any_of(d[k as int]) && b == all_of(d[k as int]));
            }
            any = any || a;
            all = all && b;
            k = k + 1;
        }
        InnerStatBool { any, all }
    }
}

/// An internal cell's summary is consistent when `all` implies `any`.
pub open spec fn consistent(i: InnerStatBool) -> bool {
    i.all ==> i.any
}

/// Aggregating keeps summaries consistent: when every internal child is consistent,
/// so is the summary of the eight children.
pub proof fn law_aggregate_consistent(children: Seq<Either<InnerStatBool, StatBool>>)
    requires
        children.len() == 8,
        forall|k: int| 0 <= k < 8 ==> (#[trigger] children[k] matches Either::Left(i) ==> consistent(i)),
    ensures consistent(StatBool::spec_aggregate(children)),
{
    if StatBool::spec_aggregate(children).all {
        assert(all_of(children[0]));
        assert(children[0] matches Either::Left(i) ==> consistent(i));
        assert(any_of(children[0]));
    }
}

/// Merging undoes splitting: the eight leaves that splitting a leaf gives merge back into
/// that leaf.
pub proof fn law_split_then_merge(d: StatBool, s: Tree<StatBool, InnerStatBool>)
    requires is_split_of(d, s),
    ensures tree_merged(s) == Tree::<StatBool, InnerStatBool>::Leaf(d),
{
    let ch = s->Node_0;
    assert forall|k: int| 0 <= k < 8 implies (#[trigger] ch[k])->Leaf_0 == d by {
        assert(ch[k] is Leaf && cloned(d, ch[k]->Leaf_0));
    }
    let datas = ch.map_values(|t: Tree<StatBool, InnerStatBool>| t->Leaf_0);
    assert(all_equal(datas));
}

/// Aggregation reads every child: a child that counts as `true` makes `any` true, a child
/// that does not makes `all` false, and neither is set without such a child.
pub proof fn law_aggregate_reads_every_child(children: Seq<Either<InnerStatBool, StatBool>>)
    requires children.len() == 8,
    ensures
        forall|k: int| 0 <= k < 8 && any_of(#[trigger] children[k]) ==> StatBool::spec_aggregate(children).any,
        forall|k: int| 0 <= k < 8 && !all_of(#[trigger] children[k]) ==> !StatBool::spec_aggregate(children).all,
        StatBool::spec_aggregate(children).any ==> exists|k: int| 0 <= k < 8 && any_of(#[trigger] children[k]),
        (forall|k: int| 0 <= k < 8 ==> all_of(#[trigger] children[k])) ==> StatBool::spec_aggregate(children).all,
{
}

/// Merging keeps every value: eight leaves merge exactly when they all hold the same
/// value, and the merged leaf holds it.
pub proof fn law_merge_keeps_values(ch: Seq<Tree<StatBool, InnerStatBool>>, i: InnerStatBool, d: StatBool)
    requires ch.len() == 8,
    ensures
        tree_merged(Tree::Node(ch, i)) == Tree::<StatBool, InnerStatBool>::Leaf(d)
            <==> forall|k: int| 0 <= k < 8 ==> #[trigger] ch[k] == Tree::<StatBool, InnerStatBool>::Leaf(d),
        StatBool::spec_merge(i, ch.map_values(|t: Tree<StatBool, InnerStatBool>| t->Leaf_0)) == Some(d) ==>
            forall|k: int| 0 <= k < 8 ==> (#[trigger] ch[k])->Leaf_0 == d,
{
    let datas = ch.map_values(|t: Tree<StatBool, InnerStatBool>| t->Leaf_0);
    if StatBool::spec_merge(i, datas) == Some(d) {
        assert forall|k: int| 0 <= k < 8 implies (#[trigger] ch[k])->Leaf_0 == d by {
            assert(datas[k] == datas[0]);
        }
    }
    if tree_merged(Tree::Node(ch, i)) == Tree::<StatBool, InnerStatBool>::Leaf(d) {
        assert forall|k: int| 0 <= k < 8 implies #[trigger] ch[k] == Tree::<StatBool, InnerStatBool>::Leaf(d) by {
            assert(ch[k] is Leaf);
            assert(datas[k] == datas[0]);
        }
    }
    if forall|k: int| 0 <= k < 8 ==> #[trigger] ch[k] == Tree::<StatBool, InnerStatBool>::Leaf(d) {
        assert(all_leaves(ch));
        assert forall|k: int| 0 <= k < datas.len() implies #[trigger] datas[k] == datas[0] by {
            assert(ch[k] == Tree::<StatBool, InnerStatBool>::Leaf(d));
            assert(ch[0] == Tree::<StatBool, InnerStatBool>::Leaf(d));
        }
    }
}

/// Eight leaves can merge exactly when they all hold the same value.
pub proof fn law_can_merge_all_equal(this: InnerStatBool, children: Seq<StatBool>)
    requires children.len() == 8,
    ensures
        StatBool::spec_can_merge(this, children)
            <==> forall|j: int, k: int| 0 <= j < 8 && 0 <= k < 8 ==> (#[trigger] children[j]) == (#[trigger] children[k]),
{
    if StatBool::spec_can_merge(this, children) {
        assert forall|j: int, k: int| 0 <= j < 8 && 0 <= k < 8 implies (#[trigger] children[j]) == (#[trigger] children[k]) by {
            assert(children[j] == children[0]);
            assert(children[k] == children[0]);
        }
    }
    if forall|j: int, k: int| 0 <= j < 8 && 0 <= k < 8 ==> (#[trigger] children[j]) == (#[trigger] children[k]) {
        assert forall|k: int| 0 <= k < children.len() implies (#[trigger] children[k]) == children[0] by {
            assert(children[k] == children[0]);
        }
    }
}

} // verus!
