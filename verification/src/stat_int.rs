//! An integer per leaf, summarised in internal cells by a minimum, a maximum and an
//! average.
use vstd::prelude::*;
use crate::svo::{AggregateData, Data, Either, InternalData, LeafCell, MergeableData, Tree, deref_seq, deref_either_seq, is_split_of, tree_merged, all_leaves};

verus! {

/// The primitive integers that a `StatInt` can hold.
pub trait IntValue: Sized + Copy {
    /// The mathematical value.
    spec fn value(self) -> int;

    /// The smallest value of the type.
    spec fn lowest() -> int;

    /// The largest value of the type.
    spec fn highest() -> int;

    /// The integer of the type with value `v`, when `v` is in range.
    spec fn of_value(v: int) -> Self;

    proof fn lemma_value(x: Self)
        ensures
            Self::lowest() <= x.value() <= Self::highest(),
            Self::lowest() <= 0,
            8 <= Self::highest(),
            Self::of_value(x.value()) == x;

    proof fn lemma_of_value(v: int)
        requires Self::lowest() <= v <= Self::highest(),
        ensures Self::of_value(v).value() == v;

    fn zero() -> (r: Self)
        ensures r.value() == 0;

    fn is_less(&self, other: &Self) -> (r: bool)
        ensures r == (self.value() < other.value());

    fn is_equal(&self, other: &Self) -> (r: bool)
        ensures r == (self.value() == other.value());

    /// The sum, unless it leaves the range of the type.
    fn add_checked(&self, other: &Self) -> (r: Option<Self>)
        ensures
            match r {
                Some(v) => v.value() == self.value() + other.value(),
                None => !(Self::lowest() <= self.value() + other.value() <= Self::highest()),
            };

    /// The quotient by eight, rounded toward zero.
    fn div_eight(&self) -> (r: Self)
        ensures r.value() == trunc_div8(self.value());
}

/// Division by eight rounded toward zero, as integer division does.
pub open spec fn trunc_div8(v: int) -> int {
    if v >= 0 { v / 8 } else { -((-v) / 8) }
}

impl IntValue for i64 {
    open spec fn value(self) -> int { self as int }
    open spec fn lowest() -> int { i64::MIN as int }
    open spec fn highest() -> int { i64::MAX as int }
    open spec fn of_value(v: int) -> i64 { v as i64 }
    proof fn lemma_value(x: i64) {}
    proof fn lemma_of_value(v: int) {}
    fn zero() -> (r: i64) { 0 }
    fn is_less(&self, other: &i64) -> (r: bool) { *self < *other }
    fn is_equal(&self, other: &i64) -> (r: bool) { *self == *other }
    fn add_checked(&self, other: &i64) -> (r: Option<i64>) { self.checked_add(*other) }
    fn div_eight(&self) -> (r: i64) {
        match self.checked_div(8) {
            Some(q) => q,
            None => 0,
        }
    }
}

impl IntValue for i32 {
    open spec fn value(self) -> int { self as int }
    open spec fn lowest() -> int { i32::MIN as int }
    open spec fn highest() -> int { i32::MAX as int }
    open spec fn of_value(v: int) -> i32 { v as i32 }
    proof fn lemma_value(x: i32) {}
    proof fn lemma_of_value(v: int) {}
    fn zero() -> (r: i32) { 0 }
    fn is_less(&self, other: &i32) -> (r: bool) { *self < *other }
    fn is_equal(&self, other: &i32) -> (r: bool) { *self == *other }
    fn add_checked(&self, other: &i32) -> (r: Option<i32>) { self.checked_add(*other) }
    fn div_eight(&self) -> (r: i32) {
        match self.checked_div(8) {
            Some(q) => q,
            None => 0,
        }
    }
}

impl IntValue for u64 {
    open spec fn value(self) -> int { self as int }
    open spec fn lowest() -> int { 0 }
    open spec fn highest() -> int { u64::MAX as int }
    open spec fn of_value(v: int) -> u64 { v as u64 }
    proof fn lemma_value(x: u64) {}
    proof fn lemma_of_value(v: int) {}
    fn zero() -> (r: u64) { 0 }
    fn is_less(&self, other: &u64) -> (r: bool) { *self < *other }
    fn is_equal(&self, other: &u64) -> (r: bool) { *self == *other }
    fn add_checked(&self, other: &u64) -> (r: Option<u64>) { self.checked_add(*other) }
    fn div_eight(&self) -> (r: u64) { *self / 8 }
}

impl IntValue for u32 {
    open spec fn value(self) -> int { self as int }
    open spec fn lowest() -> int { 0 }
    open spec fn highest() -> int { u32::MAX as int }
    open spec fn of_value(v: int) -> u32 { v as u32 }
    proof fn lemma_value(x: u32) {}
    proof fn lemma_of_value(v: int) {}
    fn zero() -> (r: u32) { 0 }
    fn is_less(&self, other: &u32) -> (r: bool) { *self < *other }
    fn is_equal(&self, other: &u32) -> (r: bool) { *self == *other }
    fn add_checked(&self, other: &u32) -> (r: Option<u32>) { self.checked_add(*other) }
    fn div_eight(&self) -> (r: u32) { *self / 8 }
}

/// What an internal cell knows of the integers below it.
#[derive(Copy, Debug, PartialEq, Eq)]
pub struct InnerStatInt<T> {
    pub min: T,
    pub max: T,
    pub average: T,
}

impl<T: IntValue> Default for InnerStatInt<T> {
    fn default() -> (r: Self)
        ensures r.min.value() == 0, r.max.value() == 0, r.average.value() == 0,
    {
        InnerStatInt { min: T::zero(), max: T::zero(), average: T::zero() }
    }
}

impl<T: IntValue> InternalData for InnerStatInt<T> {}

impl<T: Copy> Clone for InnerStatInt<T> {
    fn clone(&self) -> (r: Self)
        ensures r == *self,
    {
        *self
    }
}

/// An integer stored in a leaf.
#[derive(Copy, Debug, PartialEq, Eq)]
pub struct StatInt<T: IntValue>(pub T);

impl<T: IntValue> Clone for StatInt<T> {
    fn clone(&self) -> (r: Self)
        ensures r == *self,
    {
        *self
    }
}

impl<T: IntValue> Default for StatInt<T> {
    fn default() -> (r: Self)
        ensures r.0.value() == 0,
    {
        StatInt(T::zero())
    }
}

impl<T: IntValue> Data for StatInt<T> {
    type Internal = InnerStatInt<T>;
}

impl<T: IntValue> From<StatInt<T>> for LeafCell<StatInt<T>> {
    fn from(value: StatInt<T>) -> (r: LeafCell<StatInt<T>>) {
        LeafCell { data: value }
    }
}

impl<T: IntValue> vstd::std_specs::convert::FromSpecImpl<StatInt<T>> for LeafCell<StatInt<T>> {
    open spec fn obeys_from_spec() -> bool {
        true
    }

    open spec fn from_spec(value: StatInt<T>) -> LeafCell<StatInt<T>> {
        LeafCell { data: value }
    }
}

/// A child's contribution to the minimum: a leaf's value or an internal cell's minimum.
pub open spec fn min_key<T: IntValue>(e: Either<InnerStatInt<T>, StatInt<T>>) -> T {
    match e {
        Either::Left(x) => x.min,
        Either::Right(x) => x.0,
    }
}

/// A child's contribution to the maximum: a leaf's value or an internal cell's maximum.
pub open spec fn max_key<T: IntValue>(e: Either<InnerStatInt<T>, StatInt<T>>) -> T {
    match e {
        Either::Left(x) => x.max,
        Either::Right(x) => x.0,
    }
}

/// A child's contribution to the average: a leaf's value, and for an internal cell its
/// maximum (not its average).
pub open spec fn average_key<T: IntValue>(e: Either<InnerStatInt<T>, StatInt<T>>) -> T {
    match e {
        Either::Left(x) => x.max,
        Either::Right(x) => x.0,
    }
}

/// The first smallest of the minimum keys of `ch[..k]`.
pub open spec fn min_upto<T: IntValue>(ch: Seq<Either<InnerStatInt<T>, StatInt<T>>>, k: nat) -> T
    decreases k,
{
    if k <= 1 {
        min_key(ch[0])
    } else {
        let m = min_upto(ch, (k - 1) as nat);
        let c = min_key(ch[k - 1]);
        if c.value() < m.value() { c } else { m }
    }
}

/// The last largest of the maximum keys of `ch[..k]`.
pub open spec fn max_upto<T: IntValue>(ch: Seq<Either<InnerStatInt<T>, StatInt<T>>>, k: nat) -> T
    decreases k,
{
    if k <= 1 {
        max_key(ch[0])
    } else {
        let m = max_upto(ch, (k - 1) as nat);
        let c = max_key(ch[k - 1]);
        if m.value() < c.value() || m.value() == c.value() { c } else { m }
    }
}

/// The running sum of the average keys of `ch[..k]`, restarting from zero whenever an
/// addition leaves the range of the type.
pub open spec fn sum_upto<T: IntValue>(ch: Seq<Either<InnerStatInt<T>, StatInt<T>>>, k: nat) -> int
    decreases k,
{
    if k == 0 {
        0
    } else {
        let t = sum_upto(ch, (k - 1) as nat) + average_key(ch[k - 1]).value();
        if T::lowest() <= t <= T::highest() { t } else { 0 }
    }
}

proof fn lemma_sum_upto_range<T: IntValue>(ch: Seq<Either<InnerStatInt<T>, StatInt<T>>>, k: nat)
    ensures T::lowest() <= sum_upto(ch, k) <= T::highest(),
    decreases k,
{
    T::lemma_value(T::of_value(0));
    if k > 0 {
        lemma_sum_upto_range(ch, (k - 1) as nat);
    }
}

impl<T: IntValue> MergeableData for StatInt<T> {
    /// Eight leaves merge when they all hold the same value.
    open spec fn spec_can_merge(this: InnerStatInt<T>, children: Seq<StatInt<T>>) -> bool {
        forall|k: int| 0 <= k < children.len() ==> (#[trigger] children[k]).0.value() == children[0].0.value()
    }

    open spec fn spec_merge(this: InnerStatInt<T>, children: Seq<StatInt<T>>) -> Option<StatInt<T>> {
        if Self::spec_can_merge(this, children) { Some(StatInt(children[0].0)) } else { None }
    }

    fn can_merge(this: &InnerStatInt<T>, children: Vec<&StatInt<T>>) -> (r: bool) {
        let first = children[0].0;
        let mut k: usize = 1;
        while k < children.len()
            invariant
                1 <= k <= children.len(),
                children.len() == 8,
                first == children@[0].0,
                forall|j: int| 0 <= j < k ==> (#[trigger] children@[j]).0.value() == first.value(),
            decreases children.len() - k,
        {
            if !children[k].0.is_equal(&first) {
                proof {
                    assert(deref_seq(children@)[k as int].0.value() != deref_seq(children@)[0].0.value());
                }
                return false;
            }
            k = k + 1;
        }
        proof {
            assert forall|j: int| 0 <= j < deref_seq(children@).len() implies
                (#[trigger] deref_seq(children@)[j]).0.value() == deref_seq(children@)[0].0.value() by {
                assert(children@[j].0.value() == first.value());
            }
        }
        true
    }

    fn merge(this: InnerStatInt<T>, children: Vec<StatInt<T>>) -> (r: Option<StatInt<T>>) {
        let mut refs: Vec<&StatInt<T>> = Vec::new();
        let mut k: usize = 0;
        while k < children.len()
            invariant
                k <= children.len(),
                refs.len() == k,
                forall|j: int| 0 <= j < k ==> *(#[trigger] refs@[j]) == children@[j],
            decreases children.len() - k,
        {
            refs.push(&children[k]);
            k = k + 1;
        }
        proof { assert(deref_seq(refs@) =~= children@); }
        if !Self::can_merge(&this, refs) {
            return None;
        }
        Some(StatInt(children[0].0))
    }
}

impl<T: IntValue> AggregateData for StatInt<T> {
    /// The minimum and maximum over the children, and the running sum of
    /// `sum_upto` divided by eight.
    open spec fn spec_aggregate(children: Seq<Either<InnerStatInt<T>, StatInt<T>>>) -> InnerStatInt<T> {
        InnerStatInt {
            min: min_upto(children, children.len()),
            max: max_upto(children, children.len()),
            average: T::of_value(trunc_div8(sum_upto(children, children.len()))),
        }
    }

    fn aggregate(children: Vec<Either<&InnerStatInt<T>, &StatInt<T>>>) -> (r: InnerStatInt<T>) {
        let ghost d = deref_either_seq(children@);
        let (mut min, mut max) = match children[0] {
            Either::Left(x) => (x.min, x.max),
            Either::Right(x) => (x.0, x.0),
        };
        let mut k: usize = 1;
        while k < children.len()
            invariant
                1 <= k <= children.len(),
                d == deref_either_seq(children@),
                min == min_upto(d, k as nat),
                max == max_upto(d, k as nat),
            decreases children.len() - k,
        {
            let (lo, hi) = match children[k] {
                Either::Left(x) => (x.min, x.max),
                Either::Right(x) => (x.0, x.0),
            };
            proof {
                assert(lo == min_key(d[k as int]) && hi == max_key(d[k as int]));
            }
            if lo.is_less(&min) {
                min = lo;
            }
            if !hi.is_less(&max) {
                max = hi;
            }
            k = k + 1;
        }
        let mut sum = T::zero();
        proof { T::lemma_value(sum); }
        let mut k: usize = 0;
        while k < children.len()
            invariant
                k <= children.len(),
                d == deref_either_seq(children@),
                sum.value() == sum_upto(d, k as nat),
            decreases children.len() - k,
        {
            let v = match children[k] {
                Either::Left(x) => x.max,
                Either::Right(x) => x.0,
            };
            proof { assert(v == average_key(d[k as int])); }
            let ghost before = sum.value();
            sum = match sum.add_checked(&v) {
                Some(s) => s,
                None => T::zero(),
            };
            proof {
                T::lemma_value(sum);
                let t = sum_upto(d, k as nat) + average_key(d[k as int]).value();
                assert(sum_upto(d, (k + 1) as nat) == if T::lowest() <= t <= T::highest() { t } else { 0 });
            }
            k = k + 1;
        }
        let average = sum.div_eight();
        proof {
            lemma_sum_upto_range(d, d.len());
            T::lemma_value(average);
        }
        InnerStatInt { min, max, average }
    }
}

proof fn lemma_min_upto<T: IntValue>(ch: Seq<Either<InnerStatInt<T>, StatInt<T>>>, k: nat)
    requires 1 <= k <= ch.len(),
    ensures
        forall|j: int| 0 <= j < k ==> min_upto(ch, k).value() <= (#[trigger] min_key(ch[j])).value(),
        exists|j: int| 0 <= j < k && min_upto(ch, k) == #[trigger] min_key(ch[j]),
    decreases k,
{
    if k > 1 {
        lemma_min_upto(ch, (k - 1) as nat);
        let j = choose|j: int| 0 <= j < k - 1 && min_upto(ch, (k - 1) as nat) == #[trigger] min_key(ch[j]);
        if min_key(ch[k - 1]).value() < min_upto(ch, (k - 1) as nat).value() {
            assert(min_upto(ch, k) == min_key(ch[k - 1]));
        } else {
            assert(min_upto(ch, k) == min_key(ch[j]));
        }
    } else {
        assert(min_upto(ch, k) == min_key(ch[0]));
    }
}

proof fn lemma_max_upto<T: IntValue>(ch: Seq<Either<InnerStatInt<T>, StatInt<T>>>, k: nat)
    requires 1 <= k <= ch.len(),
    ensures
        forall|j: int| 0 <= j < k ==> (#[trigger] max_key(ch[j])).value() <= max_upto(ch, k).value(),
        exists|j: int| 0 <= j < k && max_upto(ch, k) == #[trigger] max_key(ch[j]),
    decreases k,
{
    if k > 1 {
        lemma_max_upto(ch, (k - 1) as nat);
        let j = choose|j: int| 0 <= j < k - 1 && max_upto(ch, (k - 1) as nat) == #[trigger] max_key(ch[j]);
        let m = max_upto(ch, (k - 1) as nat);
        if m.value() < max_key(ch[k - 1]).value() || m.value() == max_key(ch[k - 1]).value() {
            assert(max_upto(ch, k) == max_key(ch[k - 1]));
        } else {
            assert(max_upto(ch, k) == max_key(ch[j]));
        }
    } else {
        assert(max_upto(ch, k) == max_key(ch[0]));
    }
}

/// An internal cell's summary is consistent when its minimum is at most its maximum.
pub open spec fn consistent<T: IntValue>(i: InnerStatInt<T>) -> bool {
    i.min.value() <= i.max.value()
}

/// Aggregating bounds every child: the minimum is at most, and the maximum at least,
/// what each child contributes, each is what some child contributes, and when every
/// internal child is consistent so is the result.
pub proof fn law_aggregate_bounds<T: IntValue>(children: Seq<Either<InnerStatInt<T>, StatInt<T>>>)
    requires children.len() == 8,
    ensures
        forall|k: int| 0 <= k < 8 ==>
            StatInt::<T>::spec_aggregate(children).min.value() <= (#[trigger] min_key(children[k])).value(),
        forall|k: int| 0 <= k < 8 ==>
            (#[trigger] max_key(children[k])).value() <= StatInt::<T>::spec_aggregate(children).max.value(),
        exists|k: int| 0 <= k < 8 && StatInt::<T>::spec_aggregate(children).min == #[trigger] min_key(children[k]),
        exists|k: int| 0 <= k < 8 && StatInt::<T>::spec_aggregate(children).max == #[trigger] max_key(children[k]),
        (forall|k: int| 0 <= k < 8 ==> (#[trigger] children[k] matches Either::Left(i) ==> consistent(i)))
            ==> consistent(StatInt::<T>::spec_aggregate(children)),
{
    lemma_min_upto(children, 8);
    lemma_max_upto(children, 8);
    if forall|k: int| 0 <= k < 8 ==> (#[trigger] children[k] matches Either::Left(i) ==> consistent(i)) {
        assert(children[0] matches Either::Left(i) ==> consistent(i));
        assert(min_key(children[0]).value() <= max_key(children[0]).value());
    }
}

/// Merging undoes splitting: the eight leaves that splitting a leaf gives merge back into
/// that leaf.
pub proof fn law_split_then_merge<T: IntValue>(d: StatInt<T>, s: Tree<StatInt<T>, InnerStatInt<T>>)
    requires is_split_of(d, s),
    ensures tree_merged(s) == Tree::<StatInt<T>, InnerStatInt<T>>::Leaf(d),
{
    let ch = s->Node_0;
    assert forall|k: int| 0 <= k < 8 implies (#[trigger] ch[k])->Leaf_0 == d by {
        assert(ch[k] is Leaf && cloned(d, ch[k]->Leaf_0));
    }
    let datas = ch.map_values(|t: Tree<StatInt<T>, InnerStatInt<T>>| t->Leaf_0);
    assert(datas[0] == d);
    assert(StatInt::<T>::spec_can_merge(s->Node_1, datas));
}

/// Merging keeps every value: eight leaves merge only when they all hold the same value,
/// the merged leaf holds it, and leaves that all hold the same value do merge.
pub proof fn law_merge_keeps_values<T: IntValue>(ch: Seq<Tree<StatInt<T>, InnerStatInt<T>>>, i: InnerStatInt<T>)
    requires ch.len() == 8,
    ensures
        tree_merged(Tree::Node(ch, i)) is Leaf ==>
            forall|k: int| 0 <= k < 8 ==> (#[trigger] ch[k]) is Leaf
                && ch[k]->Leaf_0.0.value() == tree_merged(Tree::Node(ch, i))->Leaf_0.0.value(),
        (forall|k: int| 0 <= k < 8 ==> (#[trigger] ch[k]) is Leaf && ch[k]->Leaf_0.0.value() == ch[0]->Leaf_0.0.value())
            ==> tree_merged(Tree::Node(ch, i)) == Tree::<StatInt<T>, InnerStatInt<T>>::Leaf(ch[0]->Leaf_0),
        forall|d: StatInt<T>| StatInt::<T>::spec_merge(i, ch.map_values(|t: Tree<StatInt<T>, InnerStatInt<T>>| t->Leaf_0)) == Some(d) ==>
            forall|k: int| 0 <= k < 8 ==> (#[trigger] ch[k])->Leaf_0.0.value() == d.0.value(),
{
    let datas = ch.map_values(|t: Tree<StatInt<T>, InnerStatInt<T>>| t->Leaf_0);
    assert forall|d: StatInt<T>| StatInt::<T>::spec_merge(i, datas) == Some(d) implies
        forall|k: int| 0 <= k < 8 ==> (#[trigger] ch[k])->Leaf_0.0.value() == d.0.value() by {
        assert forall|k: int| 0 <= k < 8 implies (#[trigger] ch[k])->Leaf_0.0.value() == d.0.value() by {
            assert(datas[k].0.value() == datas[0].0.value());
        }
    }
    if tree_merged(Tree::Node(ch, i)) is Leaf {
        assert forall|k: int| 0 <= k < 8 implies (#[trigger] ch[k]) is Leaf
            && ch[k]->Leaf_0.0.value() == tree_merged(Tree::Node(ch, i))->Leaf_0.0.value() by {
            assert(datas[k].0.value() == datas[0].0.value());
        }
    }
    if forall|k: int| 0 <= k < 8 ==> (#[trigger] ch[k]) is Leaf && ch[k]->Leaf_0.0.value() == ch[0]->Leaf_0.0.value() {
        assert(all_leaves(ch));
        assert forall|k: int| 0 <= k < datas.len() implies (#[trigger] datas[k]).0.value() == datas[0].0.value() by {
            assert(ch[k] is Leaf);
        }
    }
}

/// The sum of the average keys of the first `k` children, without any restart.
pub open spec fn plain_sum<T: IntValue>(ch: Seq<Either<InnerStatInt<T>, StatInt<T>>>, k: nat) -> int
    decreases k,
{
    if k == 0 { 0 } else { plain_sum(ch, (k - 1) as nat) + average_key(ch[k - 1]).value() }
}

proof fn lemma_sum_no_overflow<T: IntValue>(ch: Seq<Either<InnerStatInt<T>, StatInt<T>>>, k: nat)
    requires
        k <= ch.len(),
        forall|j: nat| j <= k ==> T::lowest() <= #[trigger] plain_sum(ch, j) <= T::highest(),
    ensures sum_upto(ch, k) == plain_sum(ch, k),
    decreases k,
{
    if k > 0 {
        assert(plain_sum(ch, (k - 1) as nat) == plain_sum(ch, (k - 1) as nat));
        lemma_sum_no_overflow(ch, (k - 1) as nat);
        assert(T::lowest() <= plain_sum(ch, k) <= T::highest());
    }
}

/// Without overflow, the average reads every child: it is the sum over all eight children
/// of their average keys (a leaf's value, an internal cell's maximum), divided by eight
/// and rounded toward zero.
pub proof fn law_average_over_all_children<T: IntValue>(children: Seq<Either<InnerStatInt<T>, StatInt<T>>>)
    requires
        children.len() == 8,
        forall|j: nat| j <= 8 ==> T::lowest() <= #[trigger] plain_sum(children, j) <= T::highest(),
    ensures
        StatInt::<T>::spec_aggregate(children).average.value() == trunc_div8(plain_sum(children, 8)),
{
    lemma_sum_no_overflow(children, 8);
    lemma_sum_upto_range(children, 8);
    let v = trunc_div8(plain_sum(children, 8));
    assert(T::lowest() <= v <= T::highest()) by {
        T::lemma_value(T::of_value(0));
    }
    T::lemma_of_value(v);
}

/// Eight leaves can merge exactly when they all hold the same value.
pub proof fn law_can_merge_all_equal<T: IntValue>(this: InnerStatInt<T>, children: Seq<StatInt<T>>)
    requires children.len() == 8,
    ensures
        StatInt::<T>::spec_can_merge(this, children)
            <==> forall|j: int, k: int| 0 <= j < 8 && 0 <= k < 8 ==> (#[trigger] children[j]).0.value() == (#[trigger] children[k]).0.value(),
{
    if StatInt::<T>::spec_can_merge(this, children) {
        assert forall|j: int, k: int| 0 <= j < 8 && 0 <= k < 8 implies (#[trigger] children[j]).0.value() == (#[trigger] children[k]).0.value() by {
            assert(children[j].0.value() == children[0].0.value());
            assert(children[k].0.value() == children[0].0.value());
        }
    }
    if forall|j: int, k: int| 0 <= j < 8 && 0 <= k < 8 ==> (#[trigger] children[j]).0.value() == (#[trigger] children[k]).0.value() {
        assert forall|k: int| 0 <= k < children.len() implies (#[trigger] children[k]).0.value() == children[0].0.value() by {
            assert(children[k].0.value() == children[0].0.value());
        }
    }
}

} // verus!
