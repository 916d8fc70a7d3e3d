//! Sources of octree chunks, and the per-cell bookkeeping of a provider that
//! generates chunks on demand.
use vstd::prelude::*;
use crate::cell_path::CellPath;
use crate::svo::{AggregateData, Data, Either, InternalData, MergeableData, deref_seq, deref_either_seq};
use crate::task::{Task, TaskHandle, lemma_same_task_trans};

verus! {

/// Something that hands out the chunks of an octree.
pub trait SvoProvider {
    /// The chunk a request is answered with.
    type Chunk;

    /// Called several times a second.
    fn update(&mut self) {}

    /// A task that gives the chunk at `path`, subdivided `subdivs` times.
    fn request_chunk(&mut self, path: &CellPath, subdivs: u32) -> Task<Self::Chunk>;

    /// The chunks that changed since the last call, which empties that list.
    fn drain_dirty_chunks(&mut self) -> Vec<CellPath>;
}

/// A provider held as a component of the world.
pub struct SvoProviderComponent<P: SvoProvider>(pub P);

impl<P: SvoProvider> From<P> for SvoProviderComponent<P> {
    fn from(value: P) -> (r: SvoProviderComponent<P>) {
        SvoProviderComponent(value)
    }
}

impl<P: SvoProvider> vstd::std_specs::convert::FromSpecImpl<P> for SvoProviderComponent<P> {
    open spec fn obeys_from_spec() -> bool {
        true
    }

    open spec fn from_spec(value: P) -> SvoProviderComponent<P> {
        SvoProviderComponent(value)
    }
}

/// The depth down to which a cell has been generated; `-1` where it has not been.
#[derive(Clone, Copy, Debug, PartialEq, Eq, Structural)]
pub struct GeneratedDepthData(pub i64);

impl Default for GeneratedDepthData {
    fn default() -> (r: Self)
        ensures r.0 == -1,
    {
        GeneratedDepthData(-1)
    }
}

impl InternalData for GeneratedDepthData {}

impl Data for GeneratedDepthData {
    type Internal = GeneratedDepthData;
}

/// `v + 1`, wrapping around at the largest value.
pub open spec fn depth_succ(v: i64) -> i64 {
    if v == i64::MAX { i64::MIN } else { (v + 1) as i64 }
}

/// The smallest depth among the first `k` values of `s`.
pub open spec fn min_depth_upto(s: Seq<i64>, k: nat) -> i64
    decreases k,
{
    if k <= 1 {
        s[0]
    } else {
        let m = min_depth_upto(s, (k - 1) as nat);
        if s[k - 1] < m { s[k - 1] } else { m }
    }
}

/// The depth held by a child, internal or leaf.
pub open spec fn depth_of(e: Either<GeneratedDepthData, GeneratedDepthData>) -> i64 {
    match e {
        Either::Left(x) => x.0,
        Either::Right(x) => x.0,
    }
}

/// `depth_succ`, computed.
fn depth_plus_one(v: i64) -> (r: i64)
    ensures r == depth_succ(v),
{
    if v == i64::MAX { i64::MIN } else { v + 1 }
}

impl GeneratedDepthData {
    /// Splits a generated cell: the internal cell keeps this depth, each of the
    /// eight children gets one less.
    pub fn split(self) -> (r: (GeneratedDepthData, Vec<GeneratedDepthData>))
        requires self.0 > i64::MIN,
        ensures
            r.0 == self,
            r.1.len() == 8,
            forall|k: int| 0 <= k < 8 ==> (#[trigger] r.1@[k]).0 == self.0 - 1,
    {
        let lower = GeneratedDepthData(self.0 - 1);
        let mut children: Vec<GeneratedDepthData> = Vec::new();
        let mut k: usize = 0;
        while k < 8
            invariant
                k <= 8,
                children.len() == k,
                forall|j: int| 0 <= j < k ==> #[trigger] children@[j] == lower,
            decreases 8 - k,
        {
            children.push(lower);
            k = k + 1;
        }
        (self, children)
    }
}

impl AggregateData for GeneratedDepthData {
    /// One more than the smallest depth of the children.
    open spec fn spec_aggregate(children: Seq<Either<GeneratedDepthData, GeneratedDepthData>>) -> GeneratedDepthData {
        GeneratedDepthData(depth_succ(min_depth_upto(children.map_values(|e| depth_of(e)), children.len())))
    }

    fn aggregate(children: Vec<Either<&GeneratedDepthData, &GeneratedDepthData>>) -> (r: GeneratedDepthData) {
        let ghost s = deref_either_seq(children@).map_values(|e| depth_of(e));
        let mut m = match children[0] {
            Either::Left(x) => x.0,
            Either::Right(x) => x.0,
        };
        let mut k: usize = 1;
        while k < children.len()
            invariant
                1 <= k <= children.len(),
                s == deref_either_seq(children@).map_values(|e| depth_of(e)),
                m == min_depth_upto(s, k as nat),
            decreases children.len() - k,
        {
            let v = match children[k] {
                Either::Left(x) => x.0,
                Either::Right(x) => x.0,
            };
            proof { assert(v == s[k as int]); }
            if v < m {
                m = v;
            }
            k = k + 1;
        }
        GeneratedDepthData(depth_plus_one(m))
    }
}

impl MergeableData for GeneratedDepthData {
    /// Eight leaves merge when they hold the same depth.
    open spec fn spec_can_merge(this: GeneratedDepthData, children: Seq<GeneratedDepthData>) -> bool {
        forall|k: int| 0 <= k < children.len() ==> (#[trigger] children[k]).0 == children[0].0
    }

    /// Merged leaves hold one more than the smallest of their depths, whether or not
    /// they could be merged.
    open spec fn spec_merge(this: GeneratedDepthData, children: Seq<GeneratedDepthData>) -> Option<GeneratedDepthData> {
        Some(GeneratedDepthData(depth_succ(min_depth_upto(children.map_values(|c: GeneratedDepthData| c.0), children.len()))))
    }

    fn can_merge(this: &GeneratedDepthData, children: Vec<&GeneratedDepthData>) -> (r: bool) {
        let first = children[0].0;
        let mut k: usize = 1;
        while k < children.len()
            invariant
                1 <= k <= children.len(),
                children.len() == 8,
                first == children@[0].0,
                forall|j: int| 0 <= j < k ==> (#[trigger] children@[j]).0 == first,
            decreases children.len() - k,
        {
            if children[k].0 != first {
                proof {
                    assert(deref_seq(children@)[k as int].0 != deref_seq(children@)[0].0);
                }
                return false;
            }
            k = k + 1;
        }
        proof {
            assert forall|j: int| 0 <= j < deref_seq(children@).len() implies
                (#[trigger] deref_seq(children@)[j]).0 == deref_seq(children@)[0].0 by {
                assert(children@[j].0 == first);
            }
        }
        true
    }

    fn merge(this: GeneratedDepthData, children: Vec<GeneratedDepthData>) -> (r: Option<GeneratedDepthData>) {
        let ghost s = children@.map_values(|c: GeneratedDepthData| c.0);
        let mut m = children[0].0;
        let mut k: usize = 1;
        while k < children.len()
            invariant
                1 <= k <= children.len(),
                s == children@.map_values(|c: GeneratedDepthData| c.0),
                m == min_depth_upto(s, k as nat),
            decreases children.len() - k,
        {
            if children[k].0 < m {
                m = children[k].0;
            }
            k = k + 1;
        }
        Some(GeneratedDepthData(depth_plus_one(m)))
    }
}

/// A chunk generation that was asked for: its task, the subdivisions asked for, and
/// whether the generation has started.
pub struct GenPromise<T> {
    pub started: bool,
    pub handle: TaskHandle<T>,
    pub depth: i64,
}

/// The generation, if any, that a cell of the target octree waits for.
pub struct GenTaskData<T> {
    pub promise: Option<GenPromise<T>>,
}

/// `b` is a copy of `a`: same flag and depth, a handle to the same task.
pub open spec fn same_promise<T>(a: Option<GenPromise<T>>, b: Option<GenPromise<T>>) -> bool {
    match a {
        None => b is None,
        Some(p) => b matches Some(q) && q.started == p.started && q.depth == p.depth
            && q.handle.same_task(p.handle),
    }
}

/// `b` is what a child of a cell with promise `a` waits for: the same task, one
/// subdivision less, not started.
pub open spec fn lower_promise<T>(a: Option<GenPromise<T>>, b: Option<GenPromise<T>>) -> bool {
    match a {
        None => b is None,
        Some(p) => b matches Some(q) && !q.started && q.depth == p.depth - 1
            && q.handle.same_task(p.handle),
    }
}

impl<T> Clone for GenPromise<T> {
    fn clone(&self) -> (r: Self)
        ensures r.started == self.started, r.depth == self.depth, r.handle.same_task(self.handle),
    {
        GenPromise { started: self.started, handle: self.handle.clone(), depth: self.depth }
    }
}

impl<T> Clone for GenTaskData<T> {
    fn clone(&self) -> (r: Self)
        ensures same_promise(self.promise, r.promise),
    {
        match &self.promise {
            None => GenTaskData { promise: None },
            Some(p) => GenTaskData { promise: Some(p.clone()) },
        }
    }
}

impl<T> Default for GenTaskData<T> {
    fn default() -> (r: Self)
        ensures r.promise is None,
    {
        GenTaskData { promise: None }
    }
}

impl<T> InternalData for GenTaskData<T> {}

impl<T> Data for GenTaskData<T> {
    type Internal = GenTaskData<T>;
}

impl<T> GenTaskData<T> {
    /// What a child of this cell waits for: the same task with one subdivision less,
    /// not started yet.
    pub fn clone_lower(&self) -> (r: GenTaskData<T>)
        requires self.promise matches Some(p) ==> p.depth > i64::MIN,
        ensures lower_promise(self.promise, r.promise),
    {
        match &self.promise {
            None => GenTaskData { promise: None },
            Some(task) => GenTaskData {
                promise: Some(GenPromise {
                    started: false,
                    handle: task.handle.clone(),
                    depth: task.depth - 1,
                }),
            },
        }
    }

    /// Splits a cell: the internal cell keeps this data, each of the eight children
    /// waits for the lower promise.
    pub fn split(self) -> (r: (GenTaskData<T>, Vec<GenTaskData<T>>))
        requires self.promise matches Some(p) ==> p.depth > i64::MIN,
        ensures
            r.0 == self,
            r.1.len() == 8,
            forall|k: int| 0 <= k < 8 ==> lower_promise(self.promise, (#[trigger] r.1@[k]).promise),
    {
        let lower = self.clone_lower();
        let mut children: Vec<GenTaskData<T>> = Vec::new();
        let mut k: usize = 0;
        while k < 7
            invariant
                k <= 7,
                children.len() == k,
                lower_promise(self.promise, lower.promise),
                forall|j: int| 0 <= j < k ==> lower_promise(self.promise, (#[trigger] children@[j]).promise),
            decreases 7 - k,
        {
            let c = lower.clone();
            proof { lemma_lower_copy(self.promise, lower.promise, c.promise); }
            children.push(c);
            k = k + 1;
        }
        children.push(lower);
        (self, children)
    }
}

/// A copy of a lower promise is a lower promise.
pub proof fn lemma_lower_copy<T>(a: Option<GenPromise<T>>, b: Option<GenPromise<T>>, c: Option<GenPromise<T>>)
    requires lower_promise(a, b), same_promise(b, c),
    ensures lower_promise(a, c),
{
    if let (Some(p), Some(q), Some(x)) = (a, b, c) {
        lemma_same_task_trans(x.handle, q.handle, p.handle);
    }
}

proof fn lemma_min_depth_upto(s: Seq<i64>, k: nat)
    requires 1 <= k <= s.len(),
    ensures
        forall|j: int| 0 <= j < k ==> min_depth_upto(s, k) <= #[trigger] s[j],
        exists|j: int| 0 <= j < k && min_depth_upto(s, k) == #[trigger] s[j],
    decreases k,
{
    if k > 1 {
        lemma_min_depth_upto(s, (k - 1) as nat);
        let j = choose|j: int| 0 <= j < k - 1 && min_depth_upto(s, (k - 1) as nat) == #[trigger] s[j];
        if s[k - 1] < min_depth_upto(s, (k - 1) as nat) {
            assert(min_depth_upto(s, k) == s[k - 1]);
        } else {
            assert(min_depth_upto(s, k) == s[j]);
        }
    } else {
        assert(min_depth_upto(s, k) == s[0]);
    }
}

/// A cell is generated one level deeper than its shallowest child: the aggregate is one
/// more than some child's depth, and at most one more than every child's depth.
pub proof fn law_aggregate_one_above_shallowest(children: Seq<Either<GeneratedDepthData, GeneratedDepthData>>)
    requires children.len() == 8,
    ensures
        exists|k: int| 0 <= k < 8
            && GeneratedDepthData::spec_aggregate(children).0 == depth_succ(#[trigger] depth_of(children[k])),
        forall|k: int| 0 <= k < 8 && depth_of(#[trigger] children[k]) < i64::MAX ==>
            GeneratedDepthData::spec_aggregate(children).0 <= depth_of(children[k]) + 1,
{
    let s = children.map_values(|e| depth_of(e));
    lemma_min_depth_upto(s, 8);
    let j = choose|j: int| 0 <= j < 8 && min_depth_upto(s, 8) == #[trigger] s[j];
    assert(s[j] == depth_of(children[j]));
    assert forall|k: int| 0 <= k < 8 && depth_of(#[trigger] children[k]) < i64::MAX implies
        GeneratedDepthData::spec_aggregate(children).0 <= depth_of(children[k]) + 1 by {
        assert(s[k] == depth_of(children[k]));
    }
}

/// Merged leaves hold one more than the shallowest of them: one more than some leaf's
/// depth, and at most one more than every leaf's depth.
pub proof fn law_merge_one_above_shallowest(this: GeneratedDepthData, children: Seq<GeneratedDepthData>)
    requires children.len() == 8,
    ensures
        GeneratedDepthData::spec_merge(this, children) is Some,
        exists|k: int| 0 <= k < 8
            && GeneratedDepthData::spec_merge(this, children)->Some_0.0 == depth_succ((#[trigger] children[k]).0),
        forall|k: int| 0 <= k < 8 && (#[trigger] children[k]).0 < i64::MAX ==>
            GeneratedDepthData::spec_merge(this, children)->Some_0.0 <= children[k].0 + 1,
{
    let s = children.map_values(|c: GeneratedDepthData| c.0);
    lemma_min_depth_upto(s, 8);
    let j = choose|j: int| 0 <= j < 8 && min_depth_upto(s, 8) == #[trigger] s[j];
    assert(s[j] == children[j].0);
    assert forall|k: int| 0 <= k < 8 && (#[trigger] children[k]).0 < i64::MAX implies
        GeneratedDepthData::spec_merge(this, children)->Some_0.0 <= children[k].0 + 1 by {
        assert(s[k] == children[k].0);
    }
}

/// Eight leaves can merge exactly when they hold the same depth.
pub proof fn law_can_merge_same_depth(this: GeneratedDepthData, children: Seq<GeneratedDepthData>)
    requires children.len() == 8,
    ensures
        GeneratedDepthData::spec_can_merge(this, children)
            <==> forall|j: int, k: int| 0 <= j < 8 && 0 <= k < 8 ==> (#[trigger] children[j]).0 == (#[trigger] children[k]).0,
{
    if GeneratedDepthData::spec_can_merge(this, children) {
        assert forall|j: int, k: int| 0 <= j < 8 && 0 <= k < 8 implies (#[trigger] children[j]).0 == (#[trigger] children[k]).0 by {
            assert(children[j].0 == children[0].0);
            assert(children[k].0 == children[0].0);
        }
    }
    if forall|j: int, k: int| 0 <= j < 8 && 0 <= k < 8 ==> (#[trigger] children[j]).0 == (#[trigger] children[k]).0 {
        assert forall|k: int| 0 <= k < children.len() implies (#[trigger] children[k]).0 == children[0].0 by {
            assert(children[k].0 == children[0].0);
        }
    }
}

/// What a child waits for after a split is its parent's promise one subdivision lower and
/// not started, on the same task; a cell without a promise gives children without one.
pub proof fn law_lower_promise<T>(a: Option<GenPromise<T>>, b: Option<GenPromise<T>>)
    requires lower_promise(a, b),
    ensures
        a is None ==> b is None,
        a is Some ==> b is Some && b->0.depth == a->0.depth - 1 && !b->0.started
            && b->0.handle.same_task(a->0.handle),
{
}

} // verus!
