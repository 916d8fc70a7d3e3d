//! Sparse voxel octrees: every internal cell has eight children and carries data
//! summarising them, every leaf carries data of its own.
use vstd::prelude::*;
use crate::cell_path::{CellPath, U3};
use crate::path_model::all_octants;

verus! {

/// One of two values, as `either::Either`.
#[derive(Clone, Copy, Debug, PartialEq, Eq)]
pub enum Either<L, R> {
    Left(L),
    Right(R),
}

impl<T> Either<T, T> {
    /// The value, whichever side holds it.
    pub fn into_inner(self) -> (r: T)
        ensures r == match self { Either::Left(l) => l, Either::Right(x) => x },
    {
        match self {
            Either::Left(l) => l,
            Either::Right(r) => r,
        }
    }
}

/// Data stored in the internal cells of an octree.
pub trait InternalData: Sized + Default {}

impl InternalData for () {}

/// Data stored in the leaves of an octree.
pub trait Data: Sized + Default {
    type Internal: InternalData;
}

impl Data for () {
    type Internal = ();
}

/// The values of a sequence of references.
pub open spec fn deref_seq<T>(s: Seq<&T>) -> Seq<T> {
    s.map_values(|r: &T| *r)
}

/// The values behind a sequence of references to internal or leaf data.
pub open spec fn deref_either_seq<I, D>(s: Seq<Either<&I, &D>>) -> Seq<Either<I, D>> {
    s.map_values(|e: Either<&I, &D>| match e {
        Either::Left(l) => Either::Left(*l),
        Either::Right(r) => Either::Right(*r),
    })
}

/// Leaf data that eight sibling leaves can sometimes be merged into.
pub trait MergeableData: Data {
    /// Whether the eight leaves `children` under an internal cell with data `this` can be merged.
    spec fn spec_can_merge(this: Self::Internal, children: Seq<Self>) -> bool;

    /// The data of the leaf that replaces the internal cell when it is merged.
    spec fn spec_merge(this: Self::Internal, children: Seq<Self>) -> Option<Self>;

    fn can_merge(this: &Self::Internal, children: Vec<&Self>) -> (r: bool)
        requires children.len() == 8,
        ensures r == Self::spec_can_merge(*this, deref_seq(children@));

    fn merge(this: Self::Internal, children: Vec<Self>) -> (r: Option<Self>)
        requires children.len() == 8,
        ensures
            r == Self::spec_merge(this, children@),
            Self::spec_can_merge(this, children@) ==> r is Some;
}

/// Leaf data from which the data of an internal cell is computed.
pub trait AggregateData: Data {
    /// The data of an internal cell whose eight children hold `children`.
    spec fn spec_aggregate(children: Seq<Either<Self::Internal, Self>>) -> Self::Internal;

    fn aggregate(children: Vec<Either<&Self::Internal, &Self>>) -> (r: Self::Internal)
        requires children.len() == 8,
        ensures r == Self::spec_aggregate(deref_either_seq(children@));
}

impl AggregateData for () {
    open spec fn spec_aggregate(children: Seq<Either<(), ()>>) -> () {
        ()
    }

    fn aggregate(children: Vec<Either<&(), &()>>) -> (r: ()) {
    }
}

/// The mathematical value of an octree.
pub enum Tree<D, I> {
    Leaf(D),
    Node(Seq<Tree<D, I>>, I),
}

/// The data of the root of a tree: `Left` for an internal cell, `Right` for a leaf.
pub open spec fn tree_data<D, I>(t: Tree<D, I>) -> Either<I, D> {
    match t {
        Tree::Leaf(d) => Either::Right(d),
        Tree::Node(_, i) => Either::Left(i),
    }
}

/// Every node has eight children.
pub open spec fn tree_wf<D, I>(t: Tree<D, I>) -> bool
    decreases t,
{
    match t {
        Tree::Leaf(_) => true,
        Tree::Node(ch, _) => ch.len() == 8 && forall|k: int| 0 <= k < 8 ==> tree_wf(#[trigger] ch[k]),
    }
}

/// How many octants of `p` lead from the root of `t` down to a cell, stopping at a leaf.
pub open spec fn follow_len<D, I>(t: Tree<D, I>, p: Seq<u8>) -> nat
    decreases p.len(),
{
    if p.len() == 0 {
        0
    } else {
        match t {
            Tree::Leaf(_) => 0,
            Tree::Node(ch, _) => if p[0] < ch.len() { 1 + follow_len(ch[p[0] as int], p.drop_first()) } else { 0 },
        }
    }
}

/// The cell reached from the root of `t` by following `p`, stopping at a leaf.
pub open spec fn follow<D, I>(t: Tree<D, I>, p: Seq<u8>) -> Tree<D, I>
    decreases p.len(),
{
    if p.len() == 0 {
        t
    } else {
        match t {
            Tree::Leaf(_) => t,
            Tree::Node(ch, _) => if p[0] < ch.len() { follow(ch[p[0] as int], p.drop_first()) } else { t },
        }
    }
}

/// `t` with the cell reached by following `p` replaced by `c`.
pub open spec fn replace_followed<D, I>(t: Tree<D, I>, p: Seq<u8>, c: Tree<D, I>) -> Tree<D, I>
    decreases p.len(),
{
    if p.len() == 0 {
        c
    } else {
        match t {
            Tree::Leaf(_) => c,
            Tree::Node(ch, i) => if p[0] < ch.len() {
                Tree::Node(ch.update(p[0] as int, replace_followed(ch[p[0] as int], p.drop_first(), c)), i)
            } else {
                c
            },
        }
    }
}

pub open spec fn max_nat(a: nat, b: nat) -> nat {
    if a >= b { a } else { b }
}

/// The largest depth of the children of a node, among the first `k`.
pub open spec fn max_child_depth<D, I>(ch: Seq<Tree<D, I>>, k: nat) -> nat
    decreases ch, k,
{
    if k == 0 || k > ch.len() {
        0
    } else {
        max_nat(max_child_depth(ch, (k - 1) as nat), tree_depth(ch[k - 1]))
    }
}

/// The length of the longest path from the root to a leaf.
pub open spec fn tree_depth<D, I>(t: Tree<D, I>) -> nat
    decreases t, 1nat,
{
    match t {
        Tree::Leaf(_) => 0,
        Tree::Node(ch, _) => 1 + max_child_depth(ch, ch.len()),
    }
}

/// The tree of a cell.
pub open spec fn cell_tree<D: Data>(c: Cell<D>) -> Tree<D, D::Internal>
    decreases c,
{
    match c {
        Cell::Leaf(l) => Tree::Leaf(l.data),
        Cell::Internal(i) => if i.children.len() == 8 {
            Tree::Node(seq![
                cell_tree(i.children@[0]), cell_tree(i.children@[1]),
                cell_tree(i.children@[2]), cell_tree(i.children@[3]),
                cell_tree(i.children@[4]), cell_tree(i.children@[5]),
                cell_tree(i.children@[6]), cell_tree(i.children@[7]),
            ], i.data)
        } else {
            Tree::Node(seq![], i.data)
        },
    }
}

/// An internal cell: eight children and data summarising them.
pub struct InternalCell<D: Data> {
    pub children: Vec<Cell<D>>,
    pub data: D::Internal,
}

/// A leaf cell.
pub struct LeafCell<D: Data> {
    pub data: D,
}

/// A cell of an octree.
pub enum Cell<D: Data> {
    Internal(InternalCell<D>),
    Leaf(LeafCell<D>),
}

impl<D: Data> View for Cell<D> {
    type V = Tree<D, D::Internal>;

    open spec fn view(&self) -> Tree<D, D::Internal> {
        cell_tree(*self)
    }
}

impl<D: Data> InternalCell<D> {
    /// The tree of this cell.
    pub open spec fn tree(self) -> Tree<D, D::Internal> {
        cell_tree(Cell::Internal(self))
    }

    /// Eight children, each well formed.
    pub open spec fn wf(self) -> bool {
        &&& self.children.len() == 8
        &&& forall|k: int| 0 <= k < 8 ==> (#[trigger] self.children@[k]).wf()
    }
}

impl<D: Data> LeafCell<D> {
    pub fn new(data: D) -> (r: LeafCell<D>)
        ensures r.data == data,
    {
        LeafCell { data }
    }
}

impl<D: Data> Cell<D> {
    /// Every internal cell below and at this one has eight children.
    pub open spec fn wf(self) -> bool
        decreases self,
    {
        match self {
            Cell::Leaf(_) => true,
            Cell::Internal(i) => i.children.len() == 8
                && forall|k: int| 0 <= k < 8 ==> (#[trigger] i.children@[k]).wf(),
        }
    }
}

/// The data of a cell: `Left` for an internal cell, `Right` for a leaf.
pub open spec fn cell_data<D: Data>(c: Cell<D>) -> Either<D::Internal, D> {
    match c {
        Cell::Internal(i) => Either::Left(i.data),
        Cell::Leaf(l) => Either::Right(l.data),
    }
}

/// The tree of a well formed cell is well formed and its children are the trees of the
/// cell's children.
pub proof fn lemma_cell_tree<D: Data>(c: Cell<D>)
    requires c.wf(),
    ensures
        tree_wf(cell_tree(c)),
        tree_data(cell_tree(c)) == cell_data(c),
        c is Internal ==> (cell_tree(c) is Node && cell_tree(c)->Node_0.len() == 8
            && cell_tree(c)->Node_1 == c->Internal_0.data
            && forall|k: int| 0 <= k < 8 ==> #[trigger] cell_tree(c)->Node_0[k] == cell_tree(c->Internal_0.children@[k])),
        c is Leaf ==> cell_tree(c) == Tree::<D, D::Internal>::Leaf(c->Leaf_0.data),
    decreases c,
{
    if let Cell::Internal(i) = c {
        let t = cell_tree(c);
        assert forall|k: int| 0 <= k < 8 implies #[trigger] t->Node_0[k] == cell_tree(i.children@[k]) by {
            if k == 0 {} else if k == 1 {} else if k == 2 {} else if k == 3 {}
            else if k == 4 {} else if k == 5 {} else if k == 6 {} else {}
        }
        assert forall|k: int| 0 <= k < 8 implies tree_wf(#[trigger] t->Node_0[k]) by {
            lemma_cell_tree(i.children@[k]);
        }
    }
}

impl<D: Data> InternalCell<D> {
    /// The child at octant `pos`.
    pub fn get_child(&self, pos: U3) -> (r: &Cell<D>)
        requires self.children.len() == 8,
        ensures *r == self.children@[pos@ as int],
    {
        let k = pos.value();
        &self.children[k as usize]
    }

    /// The child at octant `pos`, to be changed in place.
    pub fn get_child_mut(&mut self, pos: U3) -> (r: &mut Cell<D>)
        requires old(self).children.len() == 8,
        ensures
            *r == old(self).children@[pos@ as int],
            final(self).children@ == old(self).children@.update(pos@ as int, *final(r)),
            final(self).data == old(self).data,
    {
        let k = pos.value();
        &mut self.children[k as usize]
    }

    /// The children, in octant order.
    pub fn iter_children(&self) -> (r: &[Cell<D>])
        ensures r@ == self.children@,
    {
        self.children.as_slice()
    }
}

impl<D: Data> Cell<D> {
    pub fn is_inner(&self) -> (r: bool)
        ensures r == self is Internal,
    {
        match self {
            Cell::Internal(_) => true,
            _ => false,
        }
    }

    pub fn is_leaf(&self) -> (r: bool)
        ensures r == self is Leaf,
    {
        match self {
            Cell::Leaf(_) => true,
            _ => false,
        }
    }

    pub fn try_inner(&self) -> (r: Option<&InternalCell<D>>)
        ensures
            r is Some <==> self is Internal,
            r matches Some(i) ==> *i == self->Internal_0,
    {
        match self {
            Cell::Internal(i) => Some(i),
            _ => None,
        }
    }

    pub fn try_leaf(&self) -> (r: Option<&LeafCell<D>>)
        ensures
            r is Some <==> self is Leaf,
            r matches Some(l) ==> *l == self->Leaf_0,
    {
        match self {
            Cell::Leaf(l) => Some(l),
            _ => None,
        }
    }

    pub fn try_inner_mut(&mut self) -> (r: Option<&mut InternalCell<D>>)
        ensures
            r is Some <==> *old(self) is Internal,
            r matches Some(i) ==> *i == old(self)->Internal_0 && *final(self) == Cell::Internal(*final(i)),
            r is None ==> *final(self) == *old(self),
    {
        match self {
            Cell::Internal(i) => Some(i),
            _ => None,
        }
    }

    pub fn try_leaf_mut(&mut self) -> (r: Option<&mut LeafCell<D>>)
        ensures
            r is Some <==> *old(self) is Leaf,
            r matches Some(l) ==> *l == old(self)->Leaf_0 && *final(self) == Cell::Leaf(*final(l)),
            r is None ==> *final(self) == *old(self),
    {
        match self {
            Cell::Leaf(l) => Some(l),
            _ => None,
        }
    }

    pub fn as_inner(&self) -> (r: &InternalCell<D>)
        requires self is Internal,
        ensures *r == self->Internal_0,
    {
        match self {
            Cell::Internal(i) => i,
            _ => unreached(),
        }
    }

    pub fn as_leaf(&self) -> (r: &LeafCell<D>)
        requires self is Leaf,
        ensures *r == self->Leaf_0,
    {
        match self {
            Cell::Leaf(l) => l,
            _ => unreached(),
        }
    }

    pub fn as_inner_mut(&mut self) -> (r: &mut InternalCell<D>)
        requires *old(self) is Internal,
        ensures *r == old(self)->Internal_0, *final(self) == Cell::Internal(*final(r)),
    {
        match self {
            Cell::Internal(i) => i,
            _ => unreached(),
        }
    }

    pub fn as_leaf_mut(&mut self) -> (r: &mut LeafCell<D>)
        requires *old(self) is Leaf,
        ensures *r == old(self)->Leaf_0, *final(self) == Cell::Leaf(*final(r)),
    {
        match self {
            Cell::Leaf(l) => l,
            _ => unreached(),
        }
    }

    pub fn unwrap_inner(self) -> (r: InternalCell<D>)
        requires self is Internal,
        ensures r == self->Internal_0,
    {
        match self {
            Cell::Internal(i) => i,
            _ => unreached(),
        }
    }

    pub fn unwrap_leaf(self) -> (r: LeafCell<D>)
        requires self is Leaf,
        ensures r == self->Leaf_0,
    {
        match self {
            Cell::Leaf(l) => l,
            _ => unreached(),
        }
    }

    /// The data of this cell.
    pub fn data(&self) -> (r: Either<&D::Internal, &D>)
        ensures
            match (r, cell_data(*self)) {
                (Either::Left(a), Either::Left(b)) => *a == b,
                (Either::Right(a), Either::Right(b)) => *a == b,
                _ => false,
            },
    {
        match self {
            Cell::Internal(i) => Either::Left(&i.data),
            Cell::Leaf(l) => Either::Right(&l.data),
        }
    }

    /// The data of this cell, to be changed in place.
    pub fn data_mut(&mut self) -> (r: Either<&mut D::Internal, &mut D>)
        ensures
            match r {
                Either::Left(a) => *old(self) is Internal && *a == old(self)->Internal_0.data
                    && *final(self) == Cell::Internal(InternalCell { children: old(self)->Internal_0.children, data: *final(a) }),
                Either::Right(a) => *old(self) is Leaf && *a == old(self)->Leaf_0.data
                    && *final(self) == Cell::Leaf(LeafCell { data: *final(a) }),
            },
    {
        match self {
            Cell::Internal(i) => Either::Left(&mut i.data),
            Cell::Leaf(l) => Either::Right(&mut l.data),
        }
    }

    /// The children of this internal cell, in octant order.
    pub fn iter_children(&self) -> (r: &[Cell<D>])
        requires self is Internal,
        ensures r@ == self->Internal_0.children@,
    {
        self.as_inner().iter_children()
    }
}

/// Replacing one child of an internal cell replaces the matching child of its tree.
pub proof fn lemma_cell_tree_update<D: Data>(i: InternalCell<D>, children: Vec<Cell<D>>, k: int, c: Cell<D>)
    requires i.children.len() == 8, 0 <= k < 8, children@ == i.children@.update(k, c),
    ensures
        cell_tree(Cell::Internal(InternalCell { children, data: i.data }))
            == Tree::Node(cell_tree(Cell::Internal(i))->Node_0.update(k, cell_tree(c)), i.data),
{
    let a = cell_tree(Cell::Internal(InternalCell { children, data: i.data }));
    let b = Tree::<D, D::Internal>::Node(cell_tree(Cell::Internal(i))->Node_0.update(k, cell_tree(c)), i.data);
    assert(a->Node_0 =~= b->Node_0);
}

/// Replacing one child of a well formed internal cell: its tree and its well-formedness,
/// whatever the new child.
pub proof fn lemma_replace_child<D: Data>(i: InternalCell<D>, k: int)
    requires i.wf(), 0 <= k < 8,
    ensures
        forall|children: Vec<Cell<D>>|
            children.len() == 8 && (forall|j: int| 0 <= j < 8 && j != k ==> children@[j] == i.children@[j])
            ==> {
                &&& #[trigger] cell_tree(Cell::Internal(InternalCell { children, data: i.data }))
                    == Tree::Node(cell_tree(Cell::Internal(i))->Node_0.update(k, cell_tree(children@[k])), i.data)
                &&& children@[k].wf() ==> Cell::Internal(InternalCell { children, data: i.data }).wf()
            },
{
    assert forall|children: Vec<Cell<D>>|
        children.len() == 8 && (forall|j: int| 0 <= j < 8 && j != k ==> children@[j] == i.children@[j])
        implies {
            &&& #[trigger] cell_tree(Cell::Internal(InternalCell { children, data: i.data }))
                == Tree::Node(cell_tree(Cell::Internal(i))->Node_0.update(k, cell_tree(children@[k])), i.data)
            &&& children@[k].wf() ==> Cell::Internal(InternalCell { children, data: i.data }).wf()
        } by {
        assert(children@ =~= i.children@.update(k, children@[k]));
        lemma_cell_tree_update(i, children, k, children@[k]);
        if children@[k].wf() {
            assert forall|j: int| 0 <= j < 8 implies (#[trigger] children@[j]).wf() by {
                if j != k { assert(children@[j] == i.children@[j]); }
            }
        }
    }
}

/// A walk follows no more octants than the path has.
pub proof fn lemma_follow_len_bound<D, I>(t: Tree<D, I>, p: Seq<u8>)
    ensures follow_len(t, p) <= p.len(),
    decreases p.len(),
{
    if p.len() > 0 {
        if let Tree::Node(ch, _) = t {
            if p[0] < ch.len() {
                lemma_follow_len_bound(ch[p[0] as int], p.drop_first());
            }
        }
    }
}

/// Following a path below an internal node goes through the child of its first octant.
pub proof fn lemma_follow_step<D, I>(t: Tree<D, I>, p: Seq<u8>)
    requires t is Node, p.len() > 0, p[0] < t->Node_0.len(),
    ensures
        follow_len(t, p) == 1 + follow_len(t->Node_0[p[0] as int], p.drop_first()),
        follow(t, p) == follow(t->Node_0[p[0] as int], p.drop_first()),
{
}

/// The data of each cell of a sequence.
pub open spec fn children_data<D: Data>(ch: Seq<Cell<D>>) -> Seq<Either<D::Internal, D>> {
    ch.map_values(|c: Cell<D>| cell_data(c))
}

/// The data of the roots of a sequence of trees.
pub open spec fn trees_data<D, I>(ch: Seq<Tree<D, I>>) -> Seq<Either<I, D>> {
    ch.map_values(|t: Tree<D, I>| tree_data(t))
}

/// The data an internal cell with children `ch` gets from its children.
pub open spec fn node_aggregate<D: AggregateData>(ch: Seq<Tree<D, D::Internal>>) -> D::Internal {
    D::spec_aggregate(trees_data(ch))
}

/// The trees of the children of a well formed internal cell have the data of the children.
pub proof fn lemma_children_data<D: Data>(i: InternalCell<D>)
    requires i.wf(),
    ensures trees_data(i.tree()->Node_0) == children_data(i.children@),
{
    lemma_cell_tree(Cell::Internal(i));
    assert forall|k: int| 0 <= k < 8 implies
        #[trigger] trees_data(i.tree()->Node_0)[k] == children_data(i.children@)[k] by {
        lemma_cell_tree(i.children@[k]);
    }
    assert(trees_data(i.tree()->Node_0) =~= children_data(i.children@));
}

impl<D: AggregateData> InternalCell<D> {
    /// Recomputes the data of this cell from its direct children only.
    pub fn shallow_update(&mut self)
        requires old(self).children.len() == 8,
        ensures
            final(self).children == old(self).children,
            final(self).data == D::spec_aggregate(children_data(old(self).children@)),
    {
        let mut refs: Vec<Either<&D::Internal, &D>> = Vec::new();
        let mut k: usize = 0;
        while k < 8
            invariant
                self.children.len() == 8,
                k <= 8,
                refs.len() == k,
                forall|j: int| 0 <= j < k ==> #[trigger] deref_either_seq(refs@)[j] == cell_data(self.children@[j]),
            decreases 8 - k,
        {
            let d = self.children[k].data();
            let ghost before = refs@;
            refs.push(d);
            proof {
                assert forall|j: int| 0 <= j <= k implies #[trigger] deref_either_seq(refs@)[j] == cell_data(self.children@[j]) by {
                    if j < k {
                        assert(refs@[j] == before[j]);
                        assert(deref_either_seq(before)[j] == cell_data(self.children@[j]));
                    }
                }
            }
            k = k + 1;
        }
        proof { assert(deref_either_seq(refs@) =~= children_data(self.children@)); }
        let data = D::aggregate(refs);
        self.data = data;
    }

    /// An internal cell with the given eight children and the data they aggregate to.
    pub fn from_children(children: Vec<Cell<D>>) -> (r: InternalCell<D>)
        requires children.len() == 8,
        ensures r.children == children, r.data == D::spec_aggregate(children_data(children@)),
    {
        let mut this = InternalCell { children, data: D::Internal::default() };
        this.shallow_update();
        this
    }
}

/// All the trees of a sequence are leaves.
pub open spec fn all_leaves<D, I>(ch: Seq<Tree<D, I>>) -> bool {
    forall|k: int| 0 <= k < ch.len() ==> (#[trigger] ch[k]) is Leaf
}

/// The data of a sequence of leaves.
pub open spec fn leaf_datas<D, I>(ch: Seq<Tree<D, I>>) -> Seq<D> {
    ch.map_values(|t: Tree<D, I>| t->Leaf_0)
}

/// A node whose children are all leaves that can be merged becomes the merged leaf;
/// any other tree stays as it is.
pub open spec fn tree_merged<D: MergeableData>(t: Tree<D, D::Internal>) -> Tree<D, D::Internal> {
    match t {
        Tree::Leaf(_) => t,
        Tree::Node(ch, i) => if all_leaves(ch) && D::spec_can_merge(i, leaf_datas(ch)) {
            Tree::Leaf(D::spec_merge(i, leaf_datas(ch))->Some_0)
        } else {
            t
        },
    }
}

impl<D: MergeableData> Cell<D> {
    /// Merges an internal cell whose children are all mergeable leaves into one leaf.
    /// Returns true exactly when the cell is a leaf afterwards.
    pub fn try_merge(&mut self) -> (r: bool)
        requires old(self).wf(),
        ensures
            final(self).wf(),
            final(self)@ == tree_merged(old(self)@),
            r == *final(self) is Leaf,
            r == old(self)@ is Leaf || (all_leaves(old(self)@->Node_0)
                && D::spec_can_merge(old(self)@->Node_1, leaf_datas(old(self)@->Node_0))),
    {
        proof { lemma_cell_tree(*self); }
        if !self.is_inner() {
            return true;
        }
        let ghost t = self@;
        let inner = self.as_inner();
        let mut refs: Vec<&D> = Vec::new();
        let mut k: usize = 0;
        while k < 8
            invariant
                inner.wf(),
                t == inner.tree(),
                *self == *old(self),
                old(self).wf(),
                t == old(self)@,
                k <= 8,
                refs.len() == k,
                forall|j: int| 0 <= j < k ==> (#[trigger] t->Node_0[j]) is Leaf,
                forall|j: int| 0 <= j < k ==> #[trigger] deref_seq(refs@)[j] == t->Node_0[j]->Leaf_0,
            decreases 8 - k,
        {
            proof { lemma_cell_tree(Cell::Internal(*inner)); lemma_cell_tree(inner.children@[k as int]); }
            match inner.children[k].try_leaf() {
                Some(l) => {
                    let ghost before = refs@;
                    refs.push(&l.data);
                    proof {
                        assert forall|j: int| 0 <= j <= k implies #[trigger] deref_seq(refs@)[j] == t->Node_0[j]->Leaf_0 by {
                            if j < k {
                                assert(refs@[j] == before[j]);
                                assert(deref_seq(before)[j] == t->Node_0[j]->Leaf_0);
                            }
                        }
                    }
                },
                None => {
                    proof {
                        assert(!(t->Node_0[k as int] is Leaf));
                        assert(!all_leaves(t->Node_0));
                    }
                    return false;
                },
            }
            k = k + 1;
        }
        proof {
            assert(all_leaves(t->Node_0));
            assert(deref_seq(refs@) =~= leaf_datas(t->Node_0));
        }
        if !D::can_merge(&inner.data, refs) {
            return false;
        }
        let mut taken = Cell::Leaf(LeafCell { data: D::default() });
        std::mem::swap(self, &mut taken);
        let InternalCell { mut children, data } = taken.unwrap_inner();
        let mut datas: Vec<D> = Vec::new();
        let ghost ch = t->Node_0;
        while children.len() > 0
            invariant
                datas.len() + children.len() == 8,
                forall|j: int| 0 <= j < datas.len() ==> #[trigger] datas@[j] == ch[j]->Leaf_0,
                forall|j: int| 0 <= j < children.len() ==> #[trigger] cell_tree(children@[j]) == ch[j + datas.len()],
                all_leaves(ch),
                ch.len() == 8,
            decreases children.len(),
        {
            let ghost before = children@;
            let c = children.remove(0);
            proof {
                assert(cell_tree(c) == ch[datas.len() as int]);
                assert(ch[datas.len() as int] is Leaf);
            }
            let l = match c {
                Cell::Leaf(l) => l,
                Cell::Internal(_) => unreached(),
            };
            datas.push(l.data);
            proof {
                assert forall|j: int| 0 <= j < children.len() implies #[trigger] cell_tree(children@[j]) == ch[j + datas.len()] by {
                    assert(children@[j] == before[j + 1]);
                }
            }
        }
        proof { assert(datas@ =~= leaf_datas(ch)); }
        let merged = D::merge(data, datas);
        let m = match merged {
            Some(m) => m,
            None => unreached(),
        };
        *self = Cell::Leaf(LeafCell { data: m });
        true
    }
}

/// `max_child_depth` bounds the depth of each child it covers.
pub proof fn lemma_max_child_depth<D, I>(ch: Seq<Tree<D, I>>, k: nat, j: int)
    requires 0 <= j < k <= ch.len(),
    ensures tree_depth(ch[j]) <= max_child_depth(ch, k),
    decreases k,
{
    if j < k - 1 {
        lemma_max_child_depth(ch, (k - 1) as nat, j);
    }
}

impl<D: Data> Cell<D> {
    /// The length of the longest path from this cell to a leaf: 0 for a leaf,
    /// 1 for an internal cell whose children are all leaves.
    pub fn depth(&self) -> (r: usize)
        requires self.wf(), tree_depth(self@) <= usize::MAX,
        ensures r == tree_depth(self@),
        decreases self,
    {
        proof { lemma_cell_tree(*self); }
        if self.is_leaf() {
            return 0;
        }
        let inner = self.as_inner();
        let ghost ch = self@->Node_0;
        let mut m: usize = 0;
        let mut k: usize = 0;
        while k < 8
            invariant
                inner.wf(),
                *self == Cell::Internal(*inner),
                ch == self@->Node_0,
                ch.len() == 8,
                forall|j: int| 0 <= j < 8 ==> #[trigger] ch[j] == cell_tree(inner.children@[j]),
                tree_depth(self@) == 1 + max_child_depth(ch, 8),
                tree_depth(self@) <= usize::MAX,
                k <= 8,
                m == max_child_depth(ch, k as nat),
            decreases 8 - k,
        {
            proof {
                lemma_max_child_depth(ch, 8, k as int);
                assert(inner.children@[k as int].wf());
            }
            let d = inner.children[k].depth();
            if d > m {
                m = d;
            }
            k = k + 1;
        }
        m + 1
    }
}

/// Simplifies the first `k` trees of `ch`, returning them and the number of merges.
pub open spec fn simplify_children<D: MergeableData>(ch: Seq<Tree<D, D::Internal>>, k: nat)
    -> (Seq<Tree<D, D::Internal>>, nat)
    decreases ch, k,
{
    if k == 0 || k > ch.len() {
        (seq![], 0)
    } else {
        let (prev, n) = simplify_children(ch, (k - 1) as nat);
        let (c, m) = tree_simplified(ch[k - 1]);
        (prev.push(c), n + m)
    }
}

/// `t` with [Cell::try_merge] applied to every internal cell from the bottom up, and the
/// number of merges that succeeded.
pub open spec fn tree_simplified<D: MergeableData>(t: Tree<D, D::Internal>) -> (Tree<D, D::Internal>, nat)
    decreases t, 1nat,
{
    match t {
        Tree::Leaf(_) => (t, 0),
        Tree::Node(ch, i) => {
            let (ch2, n) = simplify_children(ch, ch.len());
            let m = tree_merged(Tree::Node(ch2, i));
            (m, n + if m is Leaf { 1nat } else { 0nat })
        },
    }
}

pub proof fn lemma_simplify_children<D: MergeableData>(ch: Seq<Tree<D, D::Internal>>, k: nat)
    requires k <= ch.len(),
    ensures
        simplify_children(ch, k).0.len() == k,
        forall|j: int| 0 <= j < k ==> #[trigger] simplify_children(ch, k).0[j] == tree_simplified(ch[j]).0,
        forall|j: nat| j <= k ==> #[trigger] simplify_children(ch, j).1 <= simplify_children(ch, k).1,
    decreases k,
{
    if k > 0 {
        lemma_simplify_children(ch, (k - 1) as nat);
    }
}

impl<D: MergeableData> Cell<D> {
    /// Calls [try_merge](Self::try_merge) on every internal cell from the bottom up and
    /// returns the number of merges that succeeded.
    pub fn simplify(&mut self) -> (r: usize)
        requires old(self).wf(), tree_simplified(old(self)@).1 <= usize::MAX,
        ensures
            final(self).wf(),
            final(self)@ == tree_simplified(old(self)@).0,
            r == tree_simplified(old(self)@).1,
        decreases tree_depth(old(self)@),
    {
        proof { lemma_cell_tree(*self); }
        if self.is_leaf() {
            return 0;
        }
        let ghost t = self@;
        let ghost ch = t->Node_0;
        let ghost old_inner = self->Internal_0;
        proof { lemma_simplify_children(ch, 8); }
        let mut total: usize = 0;
        let mut k: u8 = 0;
        while k < 8
            invariant
                *self is Internal,
                self->Internal_0.children.len() == 8,
                self->Internal_0.data == old_inner.data,
                old_inner.wf(),
                ch.len() == 8,
                t == old(self)@,
                t == Tree::<D, D::Internal>::Node(ch, old_inner.data),
                forall|j: int| 0 <= j < 8 ==> #[trigger] ch[j] == cell_tree(old_inner.children@[j]),
                k <= 8,
                forall|j: int| 0 <= j < k ==> (#[trigger] self->Internal_0.children@[j]).wf()
                    && cell_tree(self->Internal_0.children@[j]) == tree_simplified(ch[j]).0,
                forall|j: int| k <= j < 8 ==> #[trigger] self->Internal_0.children@[j] == old_inner.children@[j],
                total == simplify_children(ch, k as nat).1,
                simplify_children(ch, 8).1 <= usize::MAX,
                forall|j: nat| j <= 8 ==> #[trigger] simplify_children(ch, j).1 <= simplify_children(ch, 8).1,
            decreases 8 - k,
        {
            proof {
                lemma_cell_tree(old_inner.children@[k as int]);
                assert(simplify_children(ch, (k + 1) as nat).1 == total + tree_simplified(ch[k as int]).1);
                lemma_max_child_depth(ch, 8, k as int);
            }
            let inner = self.as_inner_mut();
            let child = inner.get_child_mut(U3::new(k));
            let n = child.simplify();
            total = total + n;
            k = k + 1;
        }
        proof {
            let ch2 = self@->Node_0;
            lemma_cell_tree(*self);
            assert(ch2 =~= simplify_children(ch, 8).0);
        }
        let merged = self.try_merge();
        total + if merged { 1 } else { 0 }
    }
}

/// `t` with the data of every internal cell on the path `p` recomputed from its children,
/// from the deepest one up; the walk stops at a leaf.
pub open spec fn tree_updated<D: AggregateData>(t: Tree<D, D::Internal>, p: Seq<u8>) -> Tree<D, D::Internal>
    decreases p.len(),
{
    match t {
        Tree::Leaf(_) => t,
        Tree::Node(ch, i) => if p.len() == 0 || p[0] >= ch.len() {
            t
        } else {
            let ch2 = ch.update(p[0] as int, tree_updated(ch[p[0] as int], p.drop_first()));
            Tree::Node(ch2, node_aggregate(ch2))
        },
    }
}

/// `t` with [Cell::try_merge] applied to the cells on the path `p` from the deepest one up,
/// and the number of merges that succeeded.
pub open spec fn tree_simplified_on_path<D: MergeableData>(t: Tree<D, D::Internal>, p: Seq<u8>)
    -> (Tree<D, D::Internal>, nat)
    decreases p.len(),
{
    match t {
        Tree::Leaf(_) => (t, 0),
        Tree::Node(ch, i) => {
            let (ch2, n) = if p.len() > 0 && p[0] < ch.len() {
                let r = tree_simplified_on_path(ch[p[0] as int], p.drop_first());
                (ch.update(p[0] as int, r.0), r.1)
            } else {
                (ch, 0nat)
            };
            let m = tree_merged(Tree::Node(ch2, i));
            (m, n + if m is Leaf { 1nat } else { 0nat })
        },
    }
}

pub proof fn lemma_simplified_on_path_count<D: MergeableData>(t: Tree<D, D::Internal>, p: Seq<u8>)
    ensures tree_simplified_on_path(t, p).1 <= p.len() + 1,
    decreases p.len(),
{
    if let Tree::Node(ch, i) = t {
        if p.len() > 0 && p[0] < ch.len() {
            lemma_simplified_on_path_count(ch[p[0] as int], p.drop_first());
        }
    }
}

impl<D: AggregateData> Cell<D> {
    /// Recomputes the data of every internal cell on the path to `child`, from the deepest up.
    pub fn updated_child(&mut self, child: CellPath)
        requires old(self).wf(),
        ensures final(self).wf(), final(self)@ == tree_updated(old(self)@, child@),
        decreases child@.len(),
    {
        proof { lemma_cell_tree(*self); child.lemma_octants(); }
        let ghost t = self@;
        let mut child = child;
        let ghost p = child@;
        let Some(internal) = self.try_inner_mut() else {
            return;
        };
        let ghost old_inner = *internal;
        let Some(x) = child.pop() else {
            return;
        };
        proof {
            lemma_replace_child(old_inner, x@ as int);
            lemma_cell_tree(old_inner.children@[x@ as int]);
        }
        internal.get_child_mut(x).updated_child(child);
        let ghost mid = *internal;
        proof {
            assert(mid.wf());
            lemma_children_data(mid);
            assert(mid.tree()->Node_0 == t->Node_0.update(x@ as int, tree_updated(t->Node_0[x@ as int], child@)));
        }
        internal.shallow_update();
    }
}

impl<D: MergeableData> Cell<D> {
    /// Same as [simplify](Self::simplify) but only for the cells on `path`.
    pub fn simplify_on_path(&mut self, path: CellPath) -> (r: usize)
        requires old(self).wf(),
        ensures
            final(self).wf(),
            final(self)@ == tree_simplified_on_path(old(self)@, path@).0,
            r == tree_simplified_on_path(old(self)@, path@).1,
        decreases path@.len(),
    {
        proof { lemma_cell_tree(*self); path.lemma_octants(); }
        if self.is_leaf() {
            return 0;
        }
        let ghost t = self@;
        let ghost old_inner = self->Internal_0;
        let mut path = path;
        let ghost p = path@;
        let _ = path.len();
        let total = match path.pop() {
            Some(x) => {
                proof {
                    lemma_replace_child(old_inner, x@ as int);
                    lemma_cell_tree(old_inner.children@[x@ as int]);
                    lemma_simplified_on_path_count(t->Node_0[x@ as int], path@);
                }
                self.as_inner_mut().get_child_mut(x).simplify_on_path(path)
            },
            None => 0,
        };
        proof { lemma_cell_tree(*self); }
        let merged = self.try_merge();
        total + if merged { 1 } else { 0 }
    }
}

/// `s` is what splitting a leaf holding `d` gives: a node whose eight children are leaves
/// holding clones of `d`, with the data they aggregate to.
pub open spec fn is_split_of<D: AggregateData + Clone>(d: D, s: Tree<D, D::Internal>) -> bool {
    &&& s is Node
    &&& s->Node_0.len() == 8
    &&& forall|k: int| 0 <= k < 8 ==> (#[trigger] s->Node_0[k]) is Leaf && cloned(d, s->Node_0[k]->Leaf_0)
    &&& s->Node_1 == node_aggregate(s->Node_0)
}

/// `b` is `a` with every leaf less than `n` levels down split, recursively, until every
/// path of length `n` from the root only goes through internal cells.
pub open spec fn is_full_split<D: AggregateData + Clone>(a: Tree<D, D::Internal>, b: Tree<D, D::Internal>, n: nat) -> bool
    decreases n, if a is Leaf { 1nat } else { 0nat },
{
    if n == 0 {
        b == a
    } else {
        match a {
            Tree::Leaf(d) => exists|s: Tree<D, D::Internal>| #[trigger] is_split_of(d, s) && is_full_split(s, b, n),
            Tree::Node(ch, i) => {
                &&& b is Node
                &&& b->Node_1 == i
                &&& ch.len() == 8
                &&& b->Node_0.len() == 8
                &&& forall|k: int| 0 <= k < 8 ==> is_full_split(ch[k], #[trigger] b->Node_0[k], (n - 1) as nat)
            },
        }
    }
}

/// `b` is `a` with every leaf met while following `p` split, so that `p` can be followed to its end.
pub open spec fn is_split_along<D: AggregateData + Clone>(a: Tree<D, D::Internal>, b: Tree<D, D::Internal>, p: Seq<u8>) -> bool
    decreases p.len(), if a is Leaf { 1nat } else { 0nat },
{
    if p.len() == 0 {
        b == a
    } else {
        match a {
            Tree::Leaf(d) => exists|s: Tree<D, D::Internal>| #[trigger] is_split_of(d, s) && is_split_along(s, b, p),
            Tree::Node(ch, i) => {
                &&& p[0] < 8
                &&& ch.len() == 8
                &&& b is Node
                &&& b->Node_1 == i
                &&& b->Node_0.len() == 8
                &&& forall|k: int| 0 <= k < 8 && k != p[0] ==> #[trigger] b->Node_0[k] == ch[k]
                &&& is_split_along(ch[p[0] as int], b->Node_0[p[0] as int], p.drop_first())
            },
        }
    }
}

/// `t` is a tree built by [Cell::new_with_depth]: a leaf holding `d` for `n == 0`, otherwise
/// a node whose eight children are such trees of depth `n - 1` built from clones of `d`.
pub open spec fn is_with_depth<D: AggregateData + Clone>(n: nat, d: D, t: Tree<D, D::Internal>) -> bool
    decreases n, 1nat,
{
    if n == 0 {
        t == Tree::<D, D::Internal>::Leaf(d)
    } else {
        &&& t is Node
        &&& t->Node_0.len() == 8
        &&& t->Node_1 == node_aggregate(t->Node_0)
        &&& forall|k: int| 0 <= k < 8 ==> is_with_depth_from_clone((n - 1) as nat, d, #[trigger] t->Node_0[k])
    }
}

/// `t` is a tree built by [Cell::new_with_depth] from a clone of `d`.
pub open spec fn is_with_depth_from_clone<D: AggregateData + Clone>(n: nat, d: D, t: Tree<D, D::Internal>) -> bool
    decreases n, 2nat,
{
    exists|e: D| #[trigger] cloned(d, e) && is_with_depth(n, e, t)
}

/// A tree built by [Cell::new_with_depth] has the depth asked for.
pub proof fn lemma_with_depth<D: AggregateData + Clone>(n: nat, d: D, t: Tree<D, D::Internal>)
    requires is_with_depth(n, d, t),
    ensures tree_depth(t) == n, tree_wf(t),
    decreases n,
{
    if n > 0 {
        let ch = t->Node_0;
        assert forall|k: int| 0 <= k < 8 implies tree_depth(#[trigger] ch[k]) == n - 1 && tree_wf(ch[k]) by {
            assert(is_with_depth_from_clone((n - 1) as nat, d, ch[k]));
            let e = choose|e: D| #[trigger] cloned(d, e) && is_with_depth((n - 1) as nat, e, ch[k]);
            lemma_with_depth((n - 1) as nat, e, ch[k]);
        }
        lemma_max_child_all(ch, 8, (n - 1) as nat);
    }
}

/// The maximum of depths that are all `m` is `m`.
proof fn lemma_max_child_all<D, I>(ch: Seq<Tree<D, I>>, k: nat, m: nat)
    requires 1 <= k <= ch.len(), forall|j: int| 0 <= j < k ==> tree_depth(#[trigger] ch[j]) == m,
    ensures max_child_depth(ch, k) == m,
    decreases k,
{
    if k > 1 {
        lemma_max_child_all(ch, (k - 1) as nat, m);
    } else {
        assert(max_child_depth(ch, 0) == 0);
    }
}

impl<D: AggregateData + Clone> InternalCell<D> {
    /// An internal cell whose eight children are leaves holding clones of `data`.
    pub fn new_full(data: D) -> (r: InternalCell<D>)
        ensures r.wf(), is_split_of(data, r.tree()),
    {
        let mut children: Vec<Cell<D>> = Vec::new();
        let mut k: usize = 0;
        while k < 8
            invariant
                k <= 8,
                children.len() == k,
                forall|j: int| 0 <= j < k ==> (#[trigger] children@[j]) is Leaf && cloned(data, children@[j]->Leaf_0.data),
            decreases 8 - k,
        {
            children.push(Cell::Leaf(LeafCell::new(data.clone())));
            k = k + 1;
        }
        let mut this = InternalCell { children, data: D::Internal::default() };
        this.shallow_update();
        proof {
            assert(this.wf());
            lemma_children_data(this);
            lemma_cell_tree(Cell::Internal(this));
            assert forall|j: int| 0 <= j < 8 implies (#[trigger] this.tree()->Node_0[j]) is Leaf
                && cloned(data, this.tree()->Node_0[j]->Leaf_0) by {
                lemma_cell_tree(this.children@[j]);
            }
        }
        this
    }
}

impl<D: AggregateData + Clone> Cell<D> {
    /// Replaces this leaf with an internal cell whose eight children are leaves holding
    /// clones of its data.
    pub fn split(&mut self)
        requires *old(self) is Leaf,
        ensures final(self).wf(), is_split_of(old(self)->Leaf_0.data, final(self)@),
    {
        let mut taken = Cell::Leaf(LeafCell { data: D::default() });
        std::mem::swap(self, &mut taken);
        let data = taken.unwrap_leaf().data;
        let inner = InternalCell::new_full(data);
        *self = Cell::Internal(inner);
    }

    /// Splits every leaf less than `depth` levels below this cell, recursively.
    pub fn full_split(&mut self, depth: usize)
        requires old(self).wf(),
        ensures final(self).wf(), is_full_split(old(self)@, final(self)@, depth as nat),
        decreases depth,
    {
        if depth == 0 {
            return;
        }
        let ghost a = self@;
        proof { lemma_cell_tree(*self); }
        if self.is_leaf() {
            self.split();
        }
        let ghost mid = self@;
        let ghost mid_inner = self->Internal_0;
        proof {
            lemma_cell_tree(*self);
        }
        let mut k: u8 = 0;
        while k < 8
            invariant
                *self is Internal,
                self->Internal_0.children.len() == 8,
                self->Internal_0.data == mid_inner.data,
                mid_inner.wf(),
                mid == cell_tree(Cell::Internal(mid_inner)),
                mid->Node_0.len() == 8,
                forall|j: int| 0 <= j < 8 ==> #[trigger] mid->Node_0[j] == cell_tree(mid_inner.children@[j]),
                depth > 0,
                k <= 8,
                forall|j: int| 0 <= j < k ==> (#[trigger] self->Internal_0.children@[j]).wf()
                    && is_full_split(mid->Node_0[j], cell_tree(self->Internal_0.children@[j]), (depth - 1) as nat),
                forall|j: int| k <= j < 8 ==> #[trigger] self->Internal_0.children@[j] == mid_inner.children@[j],
            decreases 8 - k,
        {
            proof { lemma_cell_tree(mid_inner.children@[k as int]); }
            let inner = self.as_inner_mut();
            let child = inner.get_child_mut(U3::new(k));
            child.full_split(depth - 1);
            k = k + 1;
        }
        proof {
            lemma_cell_tree(*self);
            let b = self@;
            assert(is_full_split(mid, b, depth as nat));
            if a is Leaf {
                assert(is_split_of(a->Leaf_0, mid));
                assert(is_full_split(a, b, depth as nat));
            }
        }
    }

    /// A tree of the given depth: a leaf holding `data` for depth 0, otherwise an internal
    /// cell whose eight children are trees of depth `depth - 1` built from clones of `data`.
    pub fn new_with_depth(depth: u32, data: D) -> (r: Cell<D>)
        ensures r.wf(), is_with_depth(depth as nat, data, r@), tree_depth(r@) == depth,
        decreases depth,
    {
        if depth == 0 {
            return Cell::Leaf(LeafCell::new(data));
        }
        let mut children: Vec<Cell<D>> = Vec::new();
        let mut k: usize = 0;
        while k < 8
            invariant
                depth > 0,
                k <= 8,
                children.len() == k,
                forall|j: int| 0 <= j < k ==> (#[trigger] children@[j]).wf()
                    && is_with_depth_from_clone((depth - 1) as nat, data, cell_tree(children@[j])),
            decreases 8 - k,
        {
            let e = data.clone();
            let child = Self::new_with_depth(depth - 1, e);
            proof { assert(cloned(data, e)); }
            children.push(child);
            k = k + 1;
        }
        let mut this = InternalCell { children, data: D::Internal::default() };
        this.shallow_update();
        let r = Cell::Internal(this);
        proof {
            assert(this.wf());
            lemma_children_data(this);
            lemma_cell_tree(r);
            assert forall|j: int| 0 <= j < 8 implies is_with_depth_from_clone((depth - 1) as nat, data, #[trigger] r@->Node_0[j]) by {
                assert(r@->Node_0[j] == cell_tree(this.children@[j]));
            }
            lemma_with_depth(depth as nat, data, r@);
        }
        r
    }
}

impl<D: AggregateData + Clone> Cell<D> {
    /// Splits every leaf met while following `path`.
    fn split_along(&mut self, path: CellPath)
        requires old(self).wf(),
        ensures
            final(self).wf(),
            is_split_along(old(self)@, final(self)@, path@),
            follow_len(final(self)@, path@) == path@.len(),
        decreases path@.len(),
    {
        proof { lemma_cell_tree(*self); path.lemma_octants(); }
        let ghost a = self@;
        let mut path = path;
        let ghost p = path@;
        let Some(x) = path.pop() else {
            proof { assert(is_split_along(a, a, p)); }
            return;
        };
        if self.is_leaf() {
            self.split();
        }
        let ghost s = self@;
        let ghost s_inner = self->Internal_0;
        proof {
            lemma_cell_tree(*self);
            lemma_replace_child(s_inner, x@ as int);
            lemma_cell_tree(s_inner.children@[x@ as int]);
        }
        self.as_inner_mut().get_child_mut(x).split_along(path);
        proof {
            lemma_cell_tree(*self);
            let b = self@;
            assert forall|k: int| 0 <= k < 8 && k != x@ as int implies #[trigger] b->Node_0[k] == s->Node_0[k] by {}
            assert(is_split_along(s, b, p));
            if a is Leaf {
                assert(is_split_of(a->Leaf_0, s));
            }
            assert(is_split_along(a, b, p));
        }
    }

    /// Same as [follow_path_mut](Self::follow_path_mut) but splits every leaf met on the
    /// way, so that the whole of `path` is followed.
    pub fn follow_path_and_split(&mut self, path: CellPath) -> (r: &mut Cell<D>)
        requires old(self).wf(),
        ensures
            (*r).wf(),
            (*final(r)).wf() ==> (*final(self)).wf(),
            exists|mid: Tree<D, D::Internal>| #[trigger] is_split_along(old(self)@, mid, path@)
                && tree_wf(mid)
                && follow_len(mid, path@) == path@.len()
                && (*r)@ == follow(mid, path@)
                && (*final(self))@ == replace_followed(mid, path@, (*final(r))@),
    {
        self.split_along(path);
        let ghost mid = self@;
        proof { lemma_cell_tree(*self); }
        let (_, r) = self.follow_path_mut(path);
        proof { assert(is_split_along(old(self)@, mid, path@)); }
        r
    }
}

/// The leaves of `t` with their paths (each prefixed by `prefix`), in depth-first octant order.
pub open spec fn leaves_under<D, I>(prefix: Seq<u8>, t: Tree<D, I>) -> Seq<(Seq<u8>, D)>
    decreases t, 0nat,
{
    match t {
        Tree::Leaf(d) => seq![(prefix, d)],
        Tree::Node(ch, _) => children_leaves(prefix, ch, 0),
    }
}

/// The leaves of the trees `ch[from..]`, the tree `ch[k]` under the path `prefix.push(k)`.
pub open spec fn children_leaves<D, I>(prefix: Seq<u8>, ch: Seq<Tree<D, I>>, from: nat) -> Seq<(Seq<u8>, D)>
    decreases ch, if from < ch.len() { (ch.len() - from) as nat } else { 0nat },
{
    if from >= ch.len() {
        seq![]
    } else {
        leaves_under(prefix.push(from as u8), ch[from as int]) + children_leaves(prefix, ch, from + 1)
    }
}

/// A leaf reached by iterating over an octree, with its path.
pub struct SvoIterItem<'a, D: Data> {
    pub path: CellPath,
    pub cell: &'a LeafCell<D>,
}

/// The leaves still to be yielded for one frame of the iteration stack.
pub open spec fn frame_items<'a, D: Data>(f: (CellPath, &'a Cell<D>, u8)) -> Seq<(Seq<u8>, D)> {
    match *f.1 {
        Cell::Leaf(l) => seq![(f.0@, l.data)],
        Cell::Internal(_) => children_leaves(f.0@, cell_tree(*f.1)->Node_0, f.2 as nat),
    }
}

/// The leaves still to be yielded for a whole stack, top frame first.
pub open spec fn stack_items<'a, D: Data>(st: Seq<(CellPath, &'a Cell<D>, u8)>) -> Seq<(Seq<u8>, D)>
    decreases st.len(),
{
    if st.len() == 0 {
        seq![]
    } else {
        frame_items(st.last()) + stack_items(st.drop_last())
    }
}

/// A frame is a well formed cell at a path, leaving room below it for its deepest leaves,
/// with the next child to visit when it is internal.
pub open spec fn frame_ok<'a, D: Data>(f: (CellPath, &'a Cell<D>, u8)) -> bool {
    &&& f.1.wf()
    &&& f.0@.len() + tree_depth(cell_tree(*f.1)) <= 42
    &&& f.2 < 8
}

/// Depth-first iterator over the leaves of an octree, in octant order.
pub struct SvoIterator<'a, D: Data> {
    cell: Vec<(CellPath, &'a Cell<D>, u8)>,
}

impl<'a, D: Data> SvoIterator<'a, D> {
    /// Every frame of the stack is well formed.
    pub closed spec fn wf(self) -> bool {
        forall|k: int| 0 <= k < self.cell.len() ==> frame_ok(#[trigger] self.cell@[k])
    }

    /// The leaves not yielded yet, with their paths, in the order they will be yielded.
    pub closed spec fn remaining(self) -> Seq<(Seq<u8>, D)> {
        stack_items(self.cell@)
    }

    /// Yields the next leaf.
    pub fn next(&mut self) -> (r: Option<SvoIterItem<'a, D>>)
        requires old(self).wf(),
        ensures
            final(self).wf(),
            r is None <==> old(self).remaining().len() == 0,
            r is None ==> final(self).remaining() == old(self).remaining(),
            r matches Some(item) ==> old(self).remaining()
                == seq![(item.path@, item.cell.data)] + final(self).remaining(),
    {
        let ghost items = stack_items(self.cell@);
        let ghost mut measure: nat = 0;
        loop
            invariant
                forall|k: int| 0 <= k < self.cell.len() ==> frame_ok(#[trigger] self.cell@[k]),
                stack_items(self.cell@) == items,
                items == old(self).remaining(),
            decreases if self.cell.len() == 0 { 0nat } else { tree_depth(cell_tree(*self.cell@.last().1)) + 1 },
        {
            let n = self.cell.len();
            if n == 0 {
                return None;
            }
            let top = self.cell[n - 1];
            let ghost st = self.cell@;
            proof {
                assert(top == st.last());
                assert(frame_ok(top));
                lemma_cell_tree(*top.1);
            }
            match top.1 {
                Cell::Leaf(l) => {
                    self.cell.pop();
                    proof {
                        assert(self.cell@ =~= st.drop_last());
                        assert(items == frame_items(top) + stack_items(st.drop_last()));
                    }
                    return Some(SvoIterItem { path: top.0, cell: l });
                },
                Cell::Internal(i) => {
                    let idx = top.2;
                    let child = &i.children[idx as usize];
                    proof {
                        lemma_cell_tree(*child);
                        let ch = cell_tree(*top.1)->Node_0;
                        assert(ch[idx as int] == cell_tree(*child));
                        lemma_max_child_depth(ch, 8, idx as int);
                        assert(tree_depth(cell_tree(*top.1)) >= 1);
                    }
                    let child_path = top.0.with_push(U3::new(idx));
                    let ghost ch = cell_tree(*top.1)->Node_0;
                    let ghost rest = children_leaves(top.0@, ch, idx as nat + 1);
                    proof {
                        assert(frame_items(top) == leaves_under(child_path@, ch[idx as int]) + rest);
                        assert(items == frame_items(top) + stack_items(st.drop_last()));
                    }
                    if idx == 7 {
                        self.cell.pop();
                        proof {
                            assert(self.cell@ =~= st.drop_last());
                            assert(rest =~= Seq::<(Seq<u8>, D)>::empty());
                            assert(stack_items(self.cell@) =~= rest + stack_items(st.drop_last()));
                        }
                    } else {
                        self.cell.set(n - 1, (top.0, top.1, idx + 1));
                        proof {
                            assert(self.cell@.drop_last() =~= st.drop_last());
                            assert forall|k: int| 0 <= k < self.cell.len() implies frame_ok(#[trigger] self.cell@[k]) by {
                                if k < n - 1 { assert(self.cell@[k] == st[k]); }
                            }
                            assert(frame_items(self.cell@.last()) == rest);
                            assert(stack_items(self.cell@) == rest + stack_items(st.drop_last()));
                        }
                    }
                    proof {
                        assert(items =~= leaves_under(child_path@, ch[idx as int]) + stack_items(self.cell@));
                    }
                    match child {
                        Cell::Leaf(l) => {
                            proof {
                                assert(leaves_under(child_path@, ch[idx as int]) == seq![(child_path@, l.data)]);
                            }
                            return Some(SvoIterItem { path: child_path, cell: l });
                        },
                        Cell::Internal(_) => {
                            let ghost before = self.cell@;
                            self.cell.push((child_path, child, 0));
                            proof {
                                assert(self.cell@.drop_last() =~= before);
                                assert(frame_items(self.cell@.last()) == leaves_under(child_path@, ch[idx as int]));
                                assert forall|k: int| 0 <= k < self.cell.len() implies frame_ok(#[trigger] self.cell@[k]) by {
                                    if k < self.cell.len() - 1 { assert(self.cell@[k] == before[k]); }
                                }
                            }
                        },
                    }
                },
            }
        }
    }
}

impl<D: Data> Cell<D> {
    /// Iterator over the leaves of this cell with their paths, depth first, in octant order.
    pub fn iter<'a>(&'a self) -> (r: SvoIterator<'a, D>)
        requires self.wf(), tree_depth(self@) <= 42,
        ensures r.wf(), r.remaining() == leaves_under(Seq::<u8>::empty(), self@),
    {
        let mut stack: Vec<(CellPath, &'a Cell<D>, u8)> = Vec::new();
        let root = CellPath::new();
        stack.push((root, self, 0));
        proof {
            lemma_cell_tree(*self);
            assert(stack@.drop_last() =~= Seq::<(CellPath, &'a Cell<D>, u8)>::empty());
            assert(stack@.last() == (root, self, 0u8));
            assert(stack_items(stack@.drop_last()) =~= Seq::<(Seq<u8>, D)>::empty());
            assert(stack_items(stack@) =~= frame_items(stack@.last()));
            assert(frame_items(stack@.last()) == leaves_under(Seq::<u8>::empty(), self@));
        }
        SvoIterator { cell: stack }
    }
}

} // verus!

verus! {

/// Once a path can be followed to its end, putting any cell at its end keeps it so:
/// after [Cell::follow_path_and_split], [Cell::follow_path] on the same path goes all the
/// way down and reaches the cell that was handed out.
pub proof fn law_follow_after_split<D, I>(t: Tree<D, I>, p: Seq<u8>, c: Tree<D, I>)
    requires follow_len(t, p) == p.len(),
    ensures
        follow_len(replace_followed(t, p, c), p) == p.len(),
        follow(replace_followed(t, p, c), p) == c,
    decreases p.len(),
{
    if p.len() > 0 {
        let ch = t->Node_0;
        let j = p[0] as int;
        law_follow_after_split(ch[j], p.drop_first(), c);
        let r = replace_followed(t, p, c);
        assert(r->Node_0[j] == replace_followed(ch[j], p.drop_first(), c));
    }
}

/// `item` is a leaf of `t` met under the path `p`: its path starts with `p`, and the rest
/// of its path leads from the root of `t` all the way down to a leaf holding its data.
pub open spec fn reaches<D, I>(t: Tree<D, I>, p: Seq<u8>, item: (Seq<u8>, D)) -> bool {
    &&& item.0.len() >= p.len()
    &&& item.0.take(p.len() as int) == p
    &&& follow_len(t, item.0.skip(p.len() as int)) == item.0.len() - p.len()
    &&& follow(t, item.0.skip(p.len() as int)) == Tree::<D, I>::Leaf(item.1)
}

/// `item` is a leaf of one of the trees `ch[from..]`, met under `p` and its octant.
pub open spec fn reaches_child<D, I>(ch: Seq<Tree<D, I>>, p: Seq<u8>, from: nat, item: (Seq<u8>, D)) -> bool {
    &&& item.0.len() > p.len()
    &&& from <= item.0[p.len() as int] < ch.len()
    &&& reaches(ch[item.0[p.len() as int] as int], p.push(item.0[p.len() as int]), item)
}

proof fn lemma_leaves_under_reach<D, I>(p: Seq<u8>, t: Tree<D, I>)
    requires tree_wf(t),
    ensures
        forall|k: int| 0 <= k < leaves_under(p, t).len() ==> reaches(t, p, #[trigger] leaves_under(p, t)[k]),
    decreases t, 0nat,
{
    match t {
        Tree::Leaf(d) => {
            let item = leaves_under(p, t)[0];
            assert(item.0.skip(p.len() as int) =~= Seq::<u8>::empty());
            assert(item.0.take(p.len() as int) =~= p);
        },
        Tree::Node(ch, i) => {
            lemma_children_leaves_reach(p, ch, 0);
            assert(leaves_under(p, t) == children_leaves(p, ch, 0));
            assert forall|k: int| 0 <= k < leaves_under(p, t).len() implies
                reaches(t, p, #[trigger] leaves_under(p, t)[k]) by {
                let item = children_leaves(p, ch, 0)[k];
                assert(reaches_child(ch, p, 0, item));
                let j = item.0[p.len() as int];
                let q = item.0.skip(p.len() as int);
                assert(item.0.take(p.len() + 1int) == p.push(j));
                assert(item.0.take(p.len() as int) =~= item.0.take(p.len() + 1int).take(p.len() as int));
                assert(q.drop_first() =~= item.0.skip(p.len() + 1int));
                assert(q[0] == j);
                assert(reaches(ch[j as int], p.push(j), item));
                assert(p.push(j).len() == p.len() + 1);
                assert(follow_len(ch[j as int], q.drop_first()) == item.0.len() - p.len() - 1);
                assert(follow_len(t, q) == 1 + follow_len(ch[j as int], q.drop_first()));
                assert(follow(t, q) == follow(ch[j as int], q.drop_first()));
                assert(item.0.len() >= p.len());
                assert(item.0.take(p.len() as int) == p);
                assert(follow_len(t, q) == item.0.len() - p.len());
                assert(follow(t, q) == Tree::<D, I>::Leaf(item.1));
                assert(item == leaves_under(p, t)[k]);
            }
        },
    }
}

proof fn lemma_children_leaves_reach<D, I>(p: Seq<u8>, ch: Seq<Tree<D, I>>, from: nat)
    requires
        ch.len() == 8,
        forall|k: int| 0 <= k < 8 ==> tree_wf(#[trigger] ch[k]),
    ensures
        forall|k: int| 0 <= k < children_leaves(p, ch, from).len() ==>
            reaches_child(ch, p, from, #[trigger] children_leaves(p, ch, from)[k]),
    decreases ch, if from < ch.len() { (ch.len() - from) as nat } else { 0nat },
{
    if from < ch.len() {
        let a = leaves_under(p.push(from as u8), ch[from as int]);
        let b = children_leaves(p, ch, from + 1);
        lemma_leaves_under_reach(p.push(from as u8), ch[from as int]);
        lemma_children_leaves_reach(p, ch, from + 1);
        assert(children_leaves(p, ch, from) == a + b);
        assert forall|k: int| 0 <= k < children_leaves(p, ch, from).len() implies
            reaches_child(ch, p, from, #[trigger] children_leaves(p, ch, from)[k]) by {
            if k < a.len() {
                let item = a[k];
                assert(children_leaves(p, ch, from)[k] == item);
                assert(reaches(ch[from as int], p.push(from as u8), item));
                assert(item.0.take(p.len() + 1int)[p.len() as int] == item.0[p.len() as int]);
            } else {
                let item = b[k - a.len()];
                assert(children_leaves(p, ch, from)[k] == item);
                assert(reaches_child(ch, p, from + 1, item));
            }
        }
    }
}

/// Every leaf that iteration yields is reached by following its path from the root: the
/// path goes all the way down, and ends at a leaf holding the data yielded with it.
pub proof fn law_iter_paths_reach_leaves<D, I>(t: Tree<D, I>)
    requires tree_wf(t),
    ensures
        forall|k: int| 0 <= k < leaves_under(Seq::<u8>::empty(), t).len() ==> {
            let item = #[trigger] leaves_under(Seq::<u8>::empty(), t)[k];
            &&& follow_len(t, item.0) == item.0.len()
            &&& follow(t, item.0) == Tree::<D, I>::Leaf(item.1)
        },
{
    let e = Seq::<u8>::empty();
    lemma_leaves_under_reach(e, t);
    assert forall|k: int| 0 <= k < leaves_under(e, t).len() implies {
        let item = #[trigger] leaves_under(e, t)[k];
        &&& follow_len(t, item.0) == item.0.len()
        &&& follow(t, item.0) == Tree::<D, I>::Leaf(item.1)
    } by {
        let item = leaves_under(e, t)[k];
        assert(reaches(t, e, item));
        assert(item.0.skip(0) =~= item.0);
    }
}


/// No two items of `s` have the same path.
pub open spec fn paths_distinct<D>(s: Seq<(Seq<u8>, D)>) -> bool {
    forall|i: int, j: int| 0 <= i < s.len() && 0 <= j < s.len() && i != j ==> #[trigger] s[i].0 != #[trigger] s[j].0
}

proof fn lemma_leaves_under_distinct<D, I>(p: Seq<u8>, t: Tree<D, I>)
    requires tree_wf(t),
    ensures paths_distinct(leaves_under(p, t)),
    decreases t, 0nat,
{
    if let Tree::Node(ch, i) = t {
        lemma_children_leaves_distinct(p, ch, 0);
        assert(leaves_under(p, t) == children_leaves(p, ch, 0));
    }
}

proof fn lemma_children_leaves_distinct<D, I>(p: Seq<u8>, ch: Seq<Tree<D, I>>, from: nat)
    requires
        ch.len() == 8,
        forall|k: int| 0 <= k < 8 ==> tree_wf(#[trigger] ch[k]),
    ensures paths_distinct(children_leaves(p, ch, from)),
    decreases ch, if from < ch.len() { (ch.len() - from) as nat } else { 0nat },
{
    if from < ch.len() {
        let a = leaves_under(p.push(from as u8), ch[from as int]);
        let b = children_leaves(p, ch, from + 1);
        let s = children_leaves(p, ch, from);
        lemma_leaves_under_distinct(p.push(from as u8), ch[from as int]);
        lemma_children_leaves_distinct(p, ch, from + 1);
        lemma_leaves_under_reach(p.push(from as u8), ch[from as int]);
        lemma_children_leaves_reach(p, ch, from + 1);
        assert(s == a + b);
        assert forall|i: int, j: int| 0 <= i < s.len() && 0 <= j < s.len() && i != j implies
            #[trigger] s[i].0 != #[trigger] s[j].0 by {
            if i < a.len() && j >= a.len() {
                assert(reaches(ch[from as int], p.push(from as u8), a[i]));
                assert(a[i].0.take(p.len() + 1int)[p.len() as int] == a[i].0[p.len() as int]);
                assert(reaches_child(ch, p, from + 1, b[j - a.len()]));
            } else if j < a.len() && i >= a.len() {
                assert(reaches(ch[from as int], p.push(from as u8), a[j]));
                assert(a[j].0.take(p.len() + 1int)[p.len() as int] == a[j].0[p.len() as int]);
                assert(reaches_child(ch, p, from + 1, b[i - a.len()]));
            } else if i < a.len() {
                assert(a[i] == s[i] && a[j] == s[j]);
            } else {
                assert(b[i - a.len()] == s[i] && b[j - a.len()] == s[j]);
            }
        }
    }
}

proof fn lemma_leaves_under_complete<D, I>(p: Seq<u8>, t: Tree<D, I>, q: Seq<u8>)
    requires
        tree_wf(t),
        follow_len(t, q) == q.len(),
        follow(t, q) is Leaf,
    ensures
        leaves_under(p, t).contains((p + q, follow(t, q)->Leaf_0)),
    decreases q.len(),
{
    match t {
        Tree::Leaf(d) => {
            assert(q.len() == 0);
            assert(p + q =~= p);
            assert(leaves_under(p, t)[0] == (p + q, d));
        },
        Tree::Node(ch, i) => {
            let j = q[0];
            let q1 = q.drop_first();
            lemma_leaves_under_complete(p.push(j), ch[j as int], q1);
            assert(p.push(j) + q1 =~= p + q);
            assert(follow(t, q) == follow(ch[j as int], q1));
            lemma_children_leaves_contains(p, ch, 0, j as nat, (p + q, follow(t, q)->Leaf_0));
            assert(leaves_under(p, t) == children_leaves(p, ch, 0));
        },
    }
}

proof fn lemma_children_leaves_contains<D, I>(p: Seq<u8>, ch: Seq<Tree<D, I>>, from: nat, j: nat, item: (Seq<u8>, D))
    requires
        from <= j < ch.len(),
        j < 256,
        leaves_under(p.push(j as u8), ch[j as int]).contains(item),
    ensures children_leaves(p, ch, from).contains(item),
    decreases j - from,
{
    let a = leaves_under(p.push(from as u8), ch[from as int]);
    let b = children_leaves(p, ch, from + 1);
    assert(children_leaves(p, ch, from) == a + b);
    if from == j {
        let k = choose|k: int| 0 <= k < a.len() && a[k] == item;
        assert((a + b)[k] == item);
    } else {
        lemma_children_leaves_contains(p, ch, from + 1, j, item);
        let k = choose|k: int| 0 <= k < b.len() && b[k] == item;
        assert((a + b)[a.len() + k] == item);
    }
}

/// Iteration yields every leaf exactly once: no two yielded leaves have the same path,
/// and every path that leads from the root all the way down to a leaf is yielded, with
/// that leaf's data.
pub proof fn law_iter_yields_each_leaf_once<D, I>(t: Tree<D, I>, q: Seq<u8>)
    requires tree_wf(t),
    ensures
        paths_distinct(leaves_under(Seq::<u8>::empty(), t)),
        follow_len(t, q) == q.len() && follow(t, q) is Leaf ==>
            leaves_under(Seq::<u8>::empty(), t).contains((q, follow(t, q)->Leaf_0)),
{
    lemma_leaves_under_distinct(Seq::<u8>::empty(), t);
    if follow_len(t, q) == q.len() && follow(t, q) is Leaf {
        lemma_leaves_under_complete(Seq::<u8>::empty(), t, q);
        assert(Seq::<u8>::empty() + q =~= q);
    }
}

impl<D: Data> Default for Cell<D> {
    /// A leaf holding the default data.
    fn default() -> (r: Self)
        ensures r is Leaf && call_ensures(D::default, (), r->Leaf_0.data),
    {
        Cell::Leaf(LeafCell { data: D::default() })
    }
}

impl<D: Data> From<D> for Cell<D> {
    fn from(data: D) -> (r: Cell<D>) {
        Cell::Leaf(LeafCell { data })
    }
}

impl<D: Data> vstd::std_specs::convert::FromSpecImpl<D> for Cell<D> {
    open spec fn obeys_from_spec() -> bool {
        true
    }

    open spec fn from_spec(data: D) -> Cell<D> {
        Cell::Leaf(LeafCell { data })
    }
}

impl<D: Data> From<LeafCell<D>> for Cell<D> {
    fn from(leaf: LeafCell<D>) -> (r: Cell<D>) {
        Cell::Leaf(leaf)
    }
}

impl<D: Data> vstd::std_specs::convert::FromSpecImpl<LeafCell<D>> for Cell<D> {
    open spec fn obeys_from_spec() -> bool {
        true
    }

    open spec fn from_spec(leaf: LeafCell<D>) -> Cell<D> {
        Cell::Leaf(leaf)
    }
}

impl<D: Data> From<InternalCell<D>> for Cell<D> {
    fn from(inner: InternalCell<D>) -> (r: Cell<D>) {
        Cell::Internal(inner)
    }
}

impl<D: Data> vstd::std_specs::convert::FromSpecImpl<InternalCell<D>> for Cell<D> {
    open spec fn obeys_from_spec() -> bool {
        true
    }

    open spec fn from_spec(inner: InternalCell<D>) -> Cell<D> {
        Cell::Internal(inner)
    }
}

/// The first `k + 1` octants of a path are its first octant followed by the first `k`
/// octants of the rest.
proof fn lemma_take_step(p: Seq<u8>, k: int)
    requires 0 < p.len(), 0 <= k < p.len(),
    ensures p.take(k + 1) == seq![p[0]] + p.drop_first().take(k),
{
    assert(p.take(k + 1) =~= seq![p[0]] + p.drop_first().take(k));
}

impl<D: Data> Cell<D> {
    /// Follows `path` from this cell, stopping when a leaf is reached or the path is
    /// finished. Returns the octants actually followed (a prefix of `path`) and the cell
    /// reached.
    pub fn follow_path(&self, path: CellPath) -> (r: (CellPath, &Cell<D>))
        requires self.wf(),
        ensures
            r.0@ == path@.take(follow_len(self@, path@) as int),
            r.1@ == follow(self@, path@),
            r.1.wf(),
        decreases path@.len(),
    {
        proof { lemma_cell_tree(*self); path.lemma_octants(); }
        let mut path = path;
        let ghost p = path@;
        let _ = path.len();
        let Some(x) = path.pop() else {
            return (path, self);
        };
        if self.is_inner() {
            let child = self.as_inner().get_child(x);
            let (sub, s) = child.follow_path(path);
            proof {
                let ch = self@->Node_0;
                assert(ch[x@ as int] == child@);
                lemma_follow_step(self@, p);
                lemma_follow_len_bound(child@, path@);
                lemma_take_step(p, follow_len(child@, path@) as int);
            }
            let found = sub.with_push_back(x);
            (found, s)
        } else {
            (CellPath::new(), self)
        }
    }

    /// Same as [follow_path](Self::follow_path), giving the cell reached to be changed in place.
    pub fn follow_path_mut(&mut self, path: CellPath) -> (r: (CellPath, &mut Cell<D>))
        requires old(self).wf(),
        ensures
            r.0@ == path@.take(follow_len(old(self)@, path@) as int),
            (*r.1)@ == follow(old(self)@, path@),
            (*r.1).wf(),
            (*final(r.1)).wf() ==> (*final(self)).wf(),
            (*final(self))@ == replace_followed(old(self)@, path@, (*final(r.1))@),
        decreases path@.len(),
    {
        proof { lemma_cell_tree(*self); path.lemma_octants(); }
        let ghost old_self = *self;
        let mut path = path;
        let ghost p = path@;
        let _ = path.len();
        let Some(x) = path.pop() else {
            return (path, self);
        };
        if self.is_inner() {
            let inner = self.as_inner_mut();
            let ghost old_inner = *inner;
            let child = inner.get_child_mut(x);
            let ghost old_child = *child;
            let (sub, s) = child.follow_path_mut(path);
            proof {
                assert(old_self@->Node_0[x@ as int] == old_child@);
                lemma_follow_step(old_self@, p);
                lemma_follow_len_bound(old_child@, path@);
                lemma_replace_child(old_inner, x@ as int);
                lemma_take_step(p, follow_len(old_child@, path@) as int);
            }
            let found = sub.with_push_back(x);
            (found, s)
        } else {
            (CellPath::new(), self)
        }
    }
}

/// After [Cell::full_split] to depth `n`, every path of at most `n` octants is followed
/// all the way down: no leaf stops it.
pub proof fn law_full_split_followable<D: AggregateData + Clone>(a: Tree<D, D::Internal>, b: Tree<D, D::Internal>, n: nat, p: Seq<u8>)
    requires
        is_full_split(a, b, n),
        p.len() <= n,
        all_octants(p),
    ensures
        follow_len(b, p) == p.len(),
    decreases n, if a is Leaf { 1nat } else { 0nat },
{
    if p.len() > 0 {
        match a {
            Tree::Leaf(d) => {
                let s = choose|s: Tree<D, D::Internal>| #[trigger] is_split_of(d, s) && is_full_split(s, b, n);
                law_full_split_followable(s, b, n, p);
            },
            Tree::Node(ch, i) => {
                let j = p[0] as int;
                crate::path_model::lemma_all_octants_subrange(p, 1, p.len() as int);
                assert(p.drop_first() =~= p.subrange(1, p.len() as int));
                law_full_split_followable(ch[j], b->Node_0[j], (n - 1) as nat, p.drop_first());
            },
        }
    }
}

impl<D: Data> Cell<D> {
    /// Whether every internal cell below this one, itself included, has eight children.
    pub fn is_well_formed(&self) -> (r: bool)
        ensures r == self.wf(),
        decreases self,
    {
        match self {
            Cell::Leaf(_) => true,
            Cell::Internal(i) => {
                if i.children.len() != 8 {
                    return false;
                }
                let mut k: usize = 0;
                while k < 8
                    invariant
                        k <= 8,
                        *self == Cell::Internal(*i),
                        i.children.len() == 8,
                        forall|j: int| 0 <= j < k ==> (#[trigger] i.children@[j]).wf(),
                    decreases 8 - k,
                {
                    proof {
                        assert(decreases_to!(*self => (*self)->Internal_0));
                        assert((*self)->Internal_0 == *i);
                        assert(decreases_to!(*i => i.children));
                        assert(decreases_to!(i.children => i.children@));
                        assert(decreases_to!(i.children@ => i.children@[k as int]));
                    }
                    if !i.children[k].is_well_formed() {
                        proof { assert(!i.children@[k as int].wf()); }
                        return false;
                    }
                    k = k + 1;
                }
                true
            },
        }
    }
}

/// `a` comes before `b` in the order of paths: they agree up to some octant, where the
/// octant of `a` is the smaller.
pub open spec fn path_before(a: Seq<u8>, b: Seq<u8>) -> bool {
    exists|i: int| 0 <= i < a.len() && i < b.len() && #[trigger] a.take(i) == b.take(i) && a[i] < b[i]
}

/// The paths of `s` come in increasing order.
pub open spec fn paths_sorted<D>(s: Seq<(Seq<u8>, D)>) -> bool {
    forall|i: int, j: int| 0 <= i < j < s.len() ==> path_before(#[trigger] s[i].0, #[trigger] s[j].0)
}

proof fn lemma_leaves_under_sorted<D, I>(p: Seq<u8>, t: Tree<D, I>)
    requires tree_wf(t),
    ensures paths_sorted(leaves_under(p, t)),
    decreases t, 0nat,
{
    if let Tree::Node(ch, i) = t {
        lemma_children_leaves_sorted(p, ch, 0);
        assert(leaves_under(p, t) == children_leaves(p, ch, 0));
    }
}

proof fn lemma_children_leaves_sorted<D, I>(p: Seq<u8>, ch: Seq<Tree<D, I>>, from: nat)
    requires
        ch.len() == 8,
        forall|k: int| 0 <= k < 8 ==> tree_wf(#[trigger] ch[k]),
    ensures paths_sorted(children_leaves(p, ch, from)),
    decreases ch, if from < ch.len() { (ch.len() - from) as nat } else { 0nat },
{
    if from < ch.len() {
        let a = leaves_under(p.push(from as u8), ch[from as int]);
        let b = children_leaves(p, ch, from + 1);
        let s = children_leaves(p, ch, from);
        lemma_leaves_under_sorted(p.push(from as u8), ch[from as int]);
        lemma_children_leaves_sorted(p, ch, from + 1);
        lemma_leaves_under_reach(p.push(from as u8), ch[from as int]);
        lemma_children_leaves_reach(p, ch, from + 1);
        assert(s == a + b);
        assert forall|i: int, j: int| 0 <= i < j < s.len() implies path_before(#[trigger] s[i].0, #[trigger] s[j].0) by {
            if j < a.len() {
                assert(a[i] == s[i] && a[j] == s[j]);
            } else if i >= a.len() {
                assert(b[i - a.len()] == s[i] && b[j - a.len()] == s[j]);
            } else {
                let x = a[i].0;
                let y = b[j - a.len()].0;
                assert(s[i].0 == x && s[j].0 == y);
                assert(reaches(ch[from as int], p.push(from as u8), a[i]));
                assert(reaches_child(ch, p, from + 1, b[j - a.len()]));
                let m = y[p.len() as int];
                assert(reaches(ch[m as int], p.push(m), b[j - a.len()]));
                let n = p.len() as int;
                assert(x.take(n + 1)[n] == x[n]);
                assert(y.take(n + 1)[n] == y[n]);
                assert(x.take(n) =~= x.take(n + 1).take(n));
                assert(y.take(n) =~= y.take(n + 1).take(n));
                assert(p.push(from as u8).take(n) =~= p);
                assert(p.push(m).take(n) =~= p);
                assert(x.take(n) == y.take(n) && x[n] < y[n]);
            }
        }
    }
}

/// Iteration yields the leaves in increasing order of their paths: depth first, child 0
/// before child 7.
pub proof fn law_iter_in_path_order<D, I>(t: Tree<D, I>)
    requires tree_wf(t),
    ensures paths_sorted(leaves_under(Seq::<u8>::empty(), t)),
{
    lemma_leaves_under_sorted(Seq::<u8>::empty(), t);
}

/// A copy of a cell: the same shape, with every datum cloned.
pub open spec fn is_clone_of<D: Data + Clone>(a: Tree<D, D::Internal>, b: Tree<D, D::Internal>) -> bool
    where D::Internal: Clone,
    decreases a,
{
    match (a, b) {
        (Tree::Leaf(x), Tree::Leaf(y)) => cloned(x, y),
        (Tree::Node(ca, x), Tree::Node(cb, y)) => cloned(x, y) && ca.len() == cb.len()
            && forall|k: int| 0 <= k < ca.len() ==> is_clone_of(#[trigger] ca[k], cb[k]),
        _ => false,
    }
}

impl<D: Data + Clone> Cell<D> where D::Internal: Clone {
    /// A copy of this cell: the same shape, with every datum cloned.
    fn deep_clone(&self) -> (r: Cell<D>)
        ensures self.wf() ==> r.wf() && is_clone_of(self@, r@),
        decreases self,
    {
        proof { if self.wf() { lemma_cell_tree(*self); } }
        match self {
            Cell::Leaf(l) => Cell::Leaf(LeafCell { data: l.data.clone() }),
            Cell::Internal(i) => {
                let mut children: Vec<Cell<D>> = Vec::new();
                let mut k: usize = 0;
                while k < i.children.len()
                    invariant
                        k <= i.children.len(),
                        *self == Cell::Internal(*i),
                        children.len() == k,
                        i.wf() ==> forall|j: int| 0 <= j < k ==> (#[trigger] children@[j]).wf()
                            && is_clone_of(cell_tree(i.children@[j]), cell_tree(children@[j])),
                    decreases i.children.len() - k,
                {
                    proof {
                        assert(decreases_to!(*self => (*self)->Internal_0));
                        assert((*self)->Internal_0 == *i);
                        assert(decreases_to!(*i => i.children));
                        assert(decreases_to!(i.children => i.children@));
                        assert(decreases_to!(i.children@ => i.children@[k as int]));
                        if i.wf() { assert(i.children@[k as int].wf()); }
                    }
                    let c = i.children[k].deep_clone();
                    children.push(c);
                    k = k + 1;
                }
                let data = i.data.clone();
                let r = Cell::Internal(InternalCell { children, data });
                proof {
                    if self.wf() {
                        lemma_cell_tree(r);
                        let a = self@;
                        let b = r@;
                        assert forall|j: int| 0 <= j < 8 implies is_clone_of(#[trigger] a->Node_0[j], b->Node_0[j]) by {
                            assert(a->Node_0[j] == cell_tree(i.children@[j]));
                            assert(b->Node_0[j] == cell_tree(children@[j]));
                        }
                    }
                }
                r
            },
        }
    }
}

impl<D: Data + Clone> Clone for Cell<D> where D::Internal: Clone {
    /// A copy of this cell: the same shape, with every datum cloned.
    fn clone(&self) -> (r: Self)
        ensures self.wf() ==> r.wf() && is_clone_of(self@, r@),
    {
        self.deep_clone()
    }
}

impl<D: Data + Clone> Clone for LeafCell<D> {
    fn clone(&self) -> (r: Self)
        ensures cloned(self.data, r.data),
    {
        LeafCell { data: self.data.clone() }
    }
}

/// No cell of `t` can be merged any more: no internal cell has only leaf children that
/// its data lets merge.
pub open spec fn fully_simplified<D: MergeableData>(t: Tree<D, D::Internal>) -> bool
    decreases t,
{
    match t {
        Tree::Leaf(_) => true,
        Tree::Node(ch, i) => !(all_leaves(ch) && D::spec_can_merge(i, leaf_datas(ch)))
            && forall|k: int| 0 <= k < ch.len() ==> fully_simplified(#[trigger] ch[k]),
    }
}

/// Merging is idempotent: [Cell::try_merge] on a cell that it just left changes nothing.
pub proof fn law_try_merge_idempotent<D: MergeableData>(t: Tree<D, D::Internal>)
    ensures tree_merged(tree_merged(t)) == tree_merged(t),
{
}

/// [Cell::simplify] leaves nothing to merge: afterwards no internal cell has only leaf
/// children that can be merged, anywhere in the tree.
pub proof fn law_simplify_leaves_nothing_to_merge<D: MergeableData>(t: Tree<D, D::Internal>)
    ensures fully_simplified(tree_simplified(t).0),
    decreases t,
{
    if let Tree::Node(ch, i) = t {
        lemma_simplify_children(ch, ch.len());
        let ch2 = simplify_children(ch, ch.len()).0;
        assert forall|k: int| 0 <= k < ch2.len() implies fully_simplified(#[trigger] ch2[k]) by {
            law_simplify_leaves_nothing_to_merge(ch[k]);
        }
    }
}

/// After [Cell::simplify] or [Cell::simplify_on_path], the root has been offered a merge
/// last: a further [Cell::try_merge] on it changes nothing, whatever the path.
pub proof fn law_simplify_root_offered_merge<D: MergeableData>(t: Tree<D, D::Internal>, p: Seq<u8>)
    ensures
        tree_merged(tree_simplified(t).0) == tree_simplified(t).0,
        tree_merged(tree_simplified_on_path(t, p).0) == tree_simplified_on_path(t, p).0,
{
}

/// An internal cell whose children are leaves that can merge becomes the merged leaf under
/// [Cell::simplify] and under [Cell::simplify_on_path] along any path, with one merge
/// counted.
pub proof fn law_simplify_merges_mergeable_node<D: MergeableData>(ch: Seq<Tree<D, D::Internal>>, i: D::Internal, p: Seq<u8>)
    requires all_leaves(ch), D::spec_can_merge(i, leaf_datas(ch)),
    ensures
        tree_simplified(Tree::Node(ch, i)) == (Tree::<D, D::Internal>::Leaf(D::spec_merge(i, leaf_datas(ch))->Some_0), 1nat),
        tree_simplified_on_path(Tree::Node(ch, i), p) == (Tree::<D, D::Internal>::Leaf(D::spec_merge(i, leaf_datas(ch))->Some_0), 1nat),
{
    lemma_simplify_children(ch, ch.len());
    let (ch2, n) = simplify_children(ch, ch.len());
    assert(ch2 =~= ch);
    lemma_simplify_children_leaves(ch, ch.len());
    if p.len() > 0 && p[0] < ch.len() {
        let j = p[0] as int;
        assert(ch[j] is Leaf);
        assert(ch.update(j, tree_simplified_on_path(ch[j], p.drop_first()).0) =~= ch);
    }
}

proof fn lemma_simplify_children_leaves<D: MergeableData>(ch: Seq<Tree<D, D::Internal>>, k: nat)
    requires k <= ch.len(), all_leaves(ch),
    ensures simplify_children(ch, k).1 == 0,
    decreases k,
{
    if k > 0 {
        lemma_simplify_children_leaves(ch, (k - 1) as nat);
        assert(ch[k - 1] is Leaf);
        assert(tree_simplified(ch[k - 1]).1 == 0);
    }
}

/// [Cell::simplify_on_path] only changes the cells on the path: when the root stays an
/// internal cell, it keeps its data and every child off the path.
pub proof fn law_simplify_on_path_keeps_other_children<D: MergeableData>(ch: Seq<Tree<D, D::Internal>>, i: D::Internal, p: Seq<u8>)
    requires p.len() > 0, p[0] < ch.len(),
    ensures
        tree_simplified_on_path(Tree::Node(ch, i), p).0 is Node ==> {
            let r = tree_simplified_on_path(Tree::Node(ch, i), p).0;
            &&& r->Node_1 == i
            &&& r->Node_0.len() == ch.len()
            &&& forall|k: int| 0 <= k < ch.len() && k != p[0] ==> #[trigger] r->Node_0[k] == ch[k]
        },
{
}

/// A merge counted by [Cell::simplify_on_path] on an internal cell that ends a leaf: the
/// count is at least one.
pub proof fn law_simplify_on_path_counts_root_merge<D: MergeableData>(ch: Seq<Tree<D, D::Internal>>, i: D::Internal, p: Seq<u8>)
    ensures
        tree_simplified_on_path(Tree::Node(ch, i), p).0 is Leaf ==> tree_simplified_on_path(Tree::Node(ch, i), p).1 >= 1,
        tree_simplified(Tree::Node(ch, i)).0 is Leaf ==> tree_simplified(Tree::Node(ch, i)).1 >= 1,
{
}

} // verus!
