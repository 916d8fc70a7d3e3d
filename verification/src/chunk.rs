//! The decisions that keep the rendered chunks of an octree split or merged: which
//! chunk wants more detail, when a chunk gets children, and when it may drop them.
//!
//! A chunk is held here as plain values: what it is asked for, which of its jobs are
//! running, and which results it holds. The jobs themselves, the meshes and the
//! colliders are kept by the caller, who performs what the functions below decide.
use vstd::prelude::*;
use crate::cell_path::{CellPath, U3};

verus! {

/// What a chunk is asked to become.
#[derive(Clone, Copy, Debug, PartialEq, Eq, Structural)]
pub enum ChunkMergeState {
    /// Drops its children as soon as it has a mesh and a collider of its own.
    Merge,
    /// Has children, and hides its own mesh and collider once they have theirs.
    Split,
    /// Set by a merging parent on its children, so that they start no costly work just
    /// before being dropped.
    ParentMerging,
}

impl Default for ChunkMergeState {
    fn default() -> (r: Self)
        ensures r == ChunkMergeState::Merge,
    {
        ChunkMergeState::Merge
    }
}

impl ChunkMergeState {
    pub fn is_merge(self) -> (r: bool)
        ensures r == (self == ChunkMergeState::Merge),
    {
        self == ChunkMergeState::Merge
    }

    pub fn is_split(self) -> (r: bool)
        ensures r == (self == ChunkMergeState::Split),
    {
        self == ChunkMergeState::Split
    }
}

/// A value generated for a number of subdivisions.
#[derive(Clone, Copy, Debug, PartialEq, Eq, Structural)]
pub struct GeneratedData<T> {
    pub for_subdivs: u32,
    pub data: T,
}

impl<T> GeneratedData<T> {
    /// The same subdivisions, with `f` applied to the value.
    pub fn map<U, F: FnOnce(T) -> U>(self, f: F) -> (r: GeneratedData<U>)
        requires call_requires(f, (self.data,)),
        ensures r.for_subdivs == self.for_subdivs, call_ensures(f, (self.data,), r.data),
    {
        GeneratedData { for_subdivs: self.for_subdivs, data: f(self.data) }
    }
}

impl<T> GeneratedData<Option<T>> {
    /// `Some` of the value with the same subdivisions when there is a value, else `None`.
    pub fn transpose(self) -> (r: Option<GeneratedData<T>>)
        ensures
            match self.data {
                Some(d) => r == Some(GeneratedData { for_subdivs: self.for_subdivs, data: d }),
                None => r is None,
            },
    {
        match self.data {
            Some(data) => Some(GeneratedData { data, for_subdivs: self.for_subdivs }),
            None => None,
        }
    }
}

/// A chunk, as plain values.
#[derive(Clone, Copy, Debug, PartialEq, Eq, Structural)]
pub struct ChunkState {
    pub path: CellPath,
    pub target_subdivs: u32,
    pub target_state: ChunkMergeState,
    /// Whether the chunk is split into eight child chunks.
    pub has_children: bool,
    /// True from creation until the chunk is first given its subdivisions.
    pub waiting_for_subdivs: bool,
    /// Whether every child has a mesh, or children that all have one.
    pub children_have_meshes: bool,
    /// Whether every child has a collider, or children that all have one.
    pub children_have_colliders: bool,
    pub should_update_data: bool,
    /// Whether a data job is running.
    pub generating_data: bool,
    /// The subdivisions of the data held, if any.
    pub data: Option<u32>,
    pub should_update_mesh: bool,
    /// Whether a mesh job is running.
    pub generating_mesh: bool,
    /// The last finished mesh job: the subdivisions it was made for, and whether it
    /// gave a mesh.
    pub mesh: Option<GeneratedData<bool>>,
    pub should_update_collider: bool,
    /// Whether a collider job is running.
    pub generating_collider: bool,
    /// The last finished collider job: the subdivisions it was made for, and whether it
    /// gave a collider.
    pub collider: Option<GeneratedData<bool>>,
}

/// `c` after [ChunkState::set_target_state] with `s`: unchanged when it already targets
/// `s`, otherwise targeting `s` with the children's results assumed missing.
pub open spec fn with_target_state(c: ChunkState, s: ChunkMergeState) -> ChunkState {
    if c.target_state == s {
        c
    } else {
        ChunkState { target_state: s, children_have_meshes: false, children_have_colliders: false, ..c }
    }
}

/// Whether `c` still has work to do before its children may be dropped.
pub open spec fn busy(c: ChunkState) -> bool {
    c.waiting_for_subdivs || (c.target_state == ChunkMergeState::Merge && (
        c.should_update_data || c.generating_data
        || c.should_update_mesh || c.generating_mesh
        || c.should_update_collider || c.generating_collider))
}

/// What a split or merge step asks of the caller.
#[derive(Clone, Copy, Debug, PartialEq, Eq, Structural)]
pub struct SplitMergeAction {
    /// Create the eight child chunks.
    pub spawn_children: bool,
    /// Drop the eight child chunks.
    pub despawn_children: bool,
    /// Remove the chunk's own mesh.
    pub remove_mesh: bool,
    /// Remove the chunk's own collider.
    pub remove_collider: bool,
}

/// No action.
pub open spec fn no_action() -> SplitMergeAction {
    SplitMergeAction { spawn_children: false, despawn_children: false, remove_mesh: false, remove_collider: false }
}

/// The subdivisions a chunk at depth `depth` gets out of `total` for the whole octree.
pub open spec fn chunk_subdivs(total: u32, depth: nat) -> u32 {
    if total >= depth { (total - depth) as u32 } else { 0 }
}

/// `c` after [ChunkState::apply_total_subdivs].
pub open spec fn with_subdivs(c: ChunkState, total: u32, merge_subdivs: u32, split_subdivs: u32) -> ChunkState {
    let subdivs = chunk_subdivs(total, c.path@.len());
    let c1 = if c.waiting_for_subdivs || c.target_subdivs != subdivs {
        ChunkState { waiting_for_subdivs: false, should_update_data: true, target_subdivs: subdivs, ..c }
    } else {
        c
    };
    let c2 = if c.target_state == ChunkMergeState::Split && c1.target_subdivs < merge_subdivs {
        with_target_state(c1, ChunkMergeState::Merge)
    } else {
        c1
    };
    if c.target_state == ChunkMergeState::Merge && c2.target_subdivs > split_subdivs {
        with_target_state(c2, ChunkMergeState::Split)
    } else {
        c2
    }
}

/// The children of a split chunk after its step: those whose parent was merging are
/// asked to merge themselves.
pub open spec fn released_children(ch: Seq<ChunkState>) -> Seq<ChunkState> {
    ch.map_values(|c: ChunkState|
        if c.target_state == ChunkMergeState::ParentMerging { with_target_state(c, ChunkMergeState::Merge) } else { c })
}

/// Whether every chunk of `ch` has a mesh, or children that all have one.
pub open spec fn all_have_meshes(ch: Seq<ChunkState>) -> bool {
    forall|k: int| 0 <= k < ch.len() ==> (#[trigger] ch[k]).mesh is Some || ch[k].children_have_meshes
}

/// Whether every chunk of `ch` has a collider, or children that all have one.
pub open spec fn all_have_colliders(ch: Seq<ChunkState>) -> bool {
    forall|k: int| 0 <= k < ch.len() ==> (#[trigger] ch[k]).collider is Some || ch[k].children_have_colliders
}

/// A new chunk at `path`: waiting for its subdivisions, targeting a merge, with no job
/// and no result.
pub open spec fn new_chunk(path: CellPath) -> ChunkState {
    ChunkState {
        path,
        target_subdivs: 0,
        target_state: ChunkMergeState::Merge,
        has_children: false,
        waiting_for_subdivs: true,
        children_have_meshes: false,
        children_have_colliders: false,
        should_update_data: false,
        generating_data: false,
        data: None,
        should_update_mesh: false,
        generating_mesh: false,
        mesh: None,
        should_update_collider: false,
        generating_collider: false,
        collider: None,
    }
}

impl ChunkState {
    /// A chunk at `path`, waiting for its subdivisions, targeting a merge, with no job
    /// and no result.
    pub fn new(path: CellPath) -> (r: ChunkState)
        ensures r == new_chunk(path),
    {
        ChunkState {
            path,
            target_subdivs: 0,
            target_state: ChunkMergeState::Merge,
            has_children: false,
            waiting_for_subdivs: true,
            children_have_meshes: false,
            children_have_colliders: false,
            should_update_data: false,
            generating_data: false,
            data: None,
            should_update_mesh: false,
            generating_mesh: false,
            mesh: None,
            should_update_collider: false,
            generating_collider: false,
            collider: None,
        }
    }

    /// Targets `new_state`; on a change, the children's meshes and colliders are
    /// assumed missing until they are counted again.
    pub fn set_target_state(&mut self, new_state: ChunkMergeState)
        ensures *final(self) == with_target_state(*old(self), new_state),
    {
        if self.target_state == new_state {
            return;
        }
        self.children_have_meshes = false;
        self.children_have_colliders = false;
        self.target_state = new_state;
    }

    pub fn is_generating(&self) -> (r: bool)
        ensures r == self.generating_data,
    {
        self.generating_data
    }

    pub fn is_generating_mesh(&self) -> (r: bool)
        ensures r == self.generating_mesh,
    {
        self.generating_mesh
    }

    pub fn is_generating_collider(&self) -> (r: bool)
        ensures r == self.generating_collider,
    {
        self.generating_collider
    }

    /// Whether the chunk still has work to do: it waits for its subdivisions, or it
    /// targets a merge and has data, a mesh or a collider to make.
    pub fn is_busy(&self) -> (r: bool)
        ensures r == busy(*self),
    {
        if self.waiting_for_subdivs {
            return true;
        }
        match self.target_state {
            ChunkMergeState::Merge => {
                self.should_update_data || self.is_generating()
                    || self.should_update_mesh || self.is_generating_mesh()
                    || self.should_update_collider || self.is_generating_collider()
            },
            ChunkMergeState::Split | ChunkMergeState::ParentMerging => false,
        }
    }

    /// Gives the chunk its share of `total_subdivs`, the subdivisions wanted for the
    /// whole octree at this chunk's distance: a change asks for new data, and a split
    /// chunk below `merge_subdivs` turns to merging, a merging chunk above
    /// `split_subdivs` to splitting.
    pub fn apply_total_subdivs(&mut self, total_subdivs: u32, merge_subdivs: u32, split_subdivs: u32)
        ensures *final(self) == with_subdivs(*old(self), total_subdivs, merge_subdivs, split_subdivs),
    {
        let subdivs = total_subdivs.saturating_sub(self.path.depth());
        if self.waiting_for_subdivs || self.target_subdivs != subdivs {
            self.waiting_for_subdivs = false;
            self.should_update_data = true;
            self.target_subdivs = subdivs;
        }
        let old_state = self.target_state;
        if old_state == ChunkMergeState::Split && self.target_subdivs < merge_subdivs {
            self.set_target_state(ChunkMergeState::Merge);
        }
        if old_state == ChunkMergeState::Merge && self.target_subdivs > split_subdivs {
            self.set_target_state(ChunkMergeState::Split);
        }
    }

    /// One step of splitting and merging. A chunk that should split and has no children
    /// gets them. A split chunk releases the children its merge had frozen, counts their
    /// meshes and colliders, and drops its own once all children have theirs. A merging
    /// chunk drops its children when it is no longer busy, and otherwise freezes them.
    /// `mesh_present` and `collider_present` say whether the chunk shows a mesh and a
    /// collider; `children` are its eight child chunks when it has some.
    pub fn split_merge_step(&mut self, children: &mut Vec<ChunkState>, mesh_present: bool, collider_present: bool) -> (r: SplitMergeAction)
        requires
            old(self).has_children ==> old(children).len() == 8,
            !old(self).has_children && old(self).target_state == ChunkMergeState::Split ==> old(self).path@.len() < 42,
        ensures
            !old(self).has_children && old(self).target_state != ChunkMergeState::Split ==> *final(children) == *old(children),
            !old(self).has_children && old(self).target_state == ChunkMergeState::Split ==>
                r == (SplitMergeAction { spawn_children: true, ..no_action() })
                && *final(self) == (ChunkState { has_children: true, ..*old(self) })
                && final(children)@.len() == 8
                && forall|k: int| 0 <= k < 8 ==>
                    (#[trigger] final(children)@[k]).path@ == old(self).path@.push(k as u8)
                    && final(children)@[k] == new_chunk(final(children)@[k].path),
            !old(self).has_children && old(self).target_state != ChunkMergeState::Split ==>
                r == no_action() && *final(self) == *old(self),
            old(self).has_children && old(self).target_state == ChunkMergeState::Split ==> {
                let ch = released_children(old(children)@);
                let meshes = all_have_meshes(ch);
                let colliders = all_have_colliders(ch);
                &&& final(children)@ == ch
                &&& r == (SplitMergeAction {
                        remove_mesh: mesh_present && meshes,
                        remove_collider: collider_present && colliders,
                        ..no_action()
                    })
                &&& *final(self) == (ChunkState {
                        children_have_meshes: meshes,
                        children_have_colliders: colliders,
                        mesh: if mesh_present && meshes { None } else { old(self).mesh },
                        collider: if collider_present && colliders { None } else { old(self).collider },
                        ..*old(self)
                    })
            },
            old(self).has_children && old(self).target_state == ChunkMergeState::Merge && !busy(*old(self)) ==>
                r == (SplitMergeAction { despawn_children: true, ..no_action() })
                && *final(self) == (ChunkState { has_children: false, ..*old(self) })
                && *final(children) == *old(children),
            old(self).has_children && old(self).target_state == ChunkMergeState::Merge && busy(*old(self)) ==>
                r == no_action() && *final(self) == *old(self)
                && final(children)@ == old(children)@.map_values(|c: ChunkState| with_target_state(c, ChunkMergeState::ParentMerging)),
            old(self).has_children && old(self).target_state == ChunkMergeState::ParentMerging ==>
                r == no_action() && *final(self) == *old(self) && *final(children) == *old(children),
    {
        let mut action = SplitMergeAction {
            spawn_children: false,
            despawn_children: false,
            remove_mesh: false,
            remove_collider: false,
        };
        if !self.has_children && self.target_state.is_split() {
            *children = spawn_children(self.path);
            self.has_children = true;
            action.spawn_children = true;
            return action;
        }
        if !self.has_children {
            return action;
        }

        if self.target_state.is_split() {
            release_children(children);
            let (meshes, colliders) = count_children(children);
            self.children_have_meshes = meshes;
            if mesh_present && self.children_have_meshes {
                self.mesh = None;
                action.remove_mesh = true;
            }
            self.children_have_colliders = colliders;
            if collider_present && self.children_have_colliders {
                self.collider = None;
                action.remove_collider = true;
            }
        }

        if self.target_state.is_merge() {
            if !self.is_busy() {
                action.despawn_children = true;
                self.has_children = false;
            } else {
                freeze_children(children);
            }
        }
        action
    }
}

/// What a job step asks of the caller.
#[derive(Clone, Copy, Debug, PartialEq, Eq, Structural)]
pub struct ChunkJobAction {
    /// Request the chunk's data for these subdivisions (replacing any running request).
    pub request_data: Option<u32>,
    /// Start a mesh job on the data, made for these subdivisions.
    pub spawn_mesh: Option<u32>,
    /// Start a collider job on the mesh, made for these subdivisions.
    pub spawn_collider: Option<u32>,
    /// Show the new mesh (`true`) or remove the shown one (`false`).
    pub set_mesh: Option<bool>,
    /// Show the new collider (`true`) or remove the shown one (`false`).
    pub set_collider: Option<bool>,
}

/// The subdivisions data is requested for: the target, at most `split_subdivs`.
pub open spec fn data_subdivs(c: ChunkState, split_subdivs: u32) -> u32 {
    if split_subdivs < c.target_subdivs { split_subdivs } else { c.target_subdivs }
}

/// Whether a job step requests data: the chunk is merging and its data is out of date.
pub open spec fn requests_data(c: ChunkState) -> bool {
    c.target_state == ChunkMergeState::Merge && c.should_update_data
}

/// The data stage: a request starts a data job; otherwise a finished data job gives the
/// data and asks for a new mesh.
pub open spec fn data_stage(c: ChunkState, data_done: Option<u32>) -> ChunkState {
    if requests_data(c) {
        ChunkState { should_update_data: false, generating_data: true, ..c }
    } else if data_done is Some {
        ChunkState { data: data_done, generating_data: false, should_update_mesh: true, ..c }
    } else {
        c
    }
}

/// Whether a job step starts a mesh job: the chunk is merging, its mesh is out of date,
/// and it holds data.
pub open spec fn spawns_mesh(c: ChunkState) -> bool {
    c.target_state == ChunkMergeState::Merge && c.should_update_mesh && c.data is Some
}

/// The mesh stage: a mesh job starts; otherwise a finished mesh job gives the mesh, and a
/// mesh asks for a new collider.
pub open spec fn mesh_stage(c: ChunkState, mesh_done: Option<GeneratedData<bool>>) -> ChunkState {
    if spawns_mesh(c) {
        ChunkState { should_update_mesh: false, generating_mesh: true, ..c }
    } else if mesh_done is Some {
        ChunkState {
            mesh: mesh_done,
            generating_mesh: false,
            should_update_collider: c.should_update_collider || mesh_done->0.data,
            ..c
        }
    } else {
        c
    }
}

/// Whether a job step starts a collider job: the chunk is merging, its collider is out of
/// date, and it has a mesh.
pub open spec fn spawns_collider(c: ChunkState) -> bool {
    &&& c.target_state == ChunkMergeState::Merge
    &&& c.should_update_collider
    &&& c.mesh is Some
    &&& c.mesh->0.data
}

/// The collider stage: a collider job starts; otherwise a finished collider job gives the
/// collider.
pub open spec fn collider_stage(c: ChunkState, collider_done: Option<GeneratedData<bool>>) -> ChunkState {
    if spawns_collider(c) {
        ChunkState { should_update_collider: false, generating_collider: true, ..c }
    } else if collider_done is Some {
        ChunkState { collider: collider_done, generating_collider: false, ..c }
    } else {
        c
    }
}

/// The state after a job step: the data, mesh and collider stages in turn.
pub open spec fn job_next(c: ChunkState, data_done: Option<u32>, mesh_done: Option<GeneratedData<bool>>,
    collider_done: Option<GeneratedData<bool>>) -> ChunkState {
    collider_stage(mesh_stage(data_stage(c, data_done), mesh_done), collider_done)
}

/// What a job step asks of the caller.
pub open spec fn job_action(c: ChunkState, split_subdivs: u32, data_done: Option<u32>,
    mesh_done: Option<GeneratedData<bool>>, collider_done: Option<GeneratedData<bool>>) -> ChunkJobAction {
    let c1 = data_stage(c, data_done);
    let c2 = mesh_stage(c1, mesh_done);
    ChunkJobAction {
        request_data: if requests_data(c) { Some(data_subdivs(c, split_subdivs)) } else { None },
        spawn_mesh: if spawns_mesh(c1) { Some(c1.data->0) } else { None },
        spawn_collider: if spawns_collider(c2) { Some(c2.mesh->0.for_subdivs) } else { None },
        set_mesh: if !spawns_mesh(c1) && mesh_done is Some { Some(mesh_done->0.data) } else { None },
        set_collider: if !spawns_collider(c2) && collider_done is Some { Some(collider_done->0.data) } else { None },
    }
}

impl ChunkState {
    /// One step of a chunk's jobs. A merging chunk whose data is out of date requests
    /// data for its target subdivisions, at most `split_subdivs`; a merging chunk with
    /// data and an out-of-date mesh starts a mesh job; a merging chunk with a mesh and an
    /// out-of-date collider starts a collider job. `data_done`, `mesh_done` and
    /// `collider_done` are the jobs that finished since the last step; a job that this
    /// step replaces is dropped and what it finished with is not used. A finished data
    /// job asks for a new mesh, and a finished mesh job that gave a mesh asks for a new
    /// collider.
    pub fn job_step(&mut self, split_subdivs: u32, data_done: Option<u32>,
        mesh_done: Option<GeneratedData<bool>>, collider_done: Option<GeneratedData<bool>>) -> (r: ChunkJobAction)
        ensures
            *final(self) == job_next(*old(self), data_done, mesh_done, collider_done),
            r == job_action(*old(self), split_subdivs, data_done, mesh_done, collider_done),
    {
        let ghost c0 = *self;
        let request_data = self.run_data_stage(split_subdivs, data_done);
        let ghost c1 = *self;
        let (spawn_mesh, set_mesh) = self.run_mesh_stage(mesh_done);
        let ghost c2 = *self;
        let (spawn_collider, set_collider) = self.run_collider_stage(collider_done);
        proof {
            assert(c1 == data_stage(c0, data_done));
            assert(c2 == mesh_stage(c1, mesh_done));
        }
        ChunkJobAction { request_data, spawn_mesh, spawn_collider, set_mesh, set_collider }
    }

    /// The data stage of [job_step](Self::job_step); returns the data request.
    fn run_data_stage(&mut self, split_subdivs: u32, data_done: Option<u32>) -> (r: Option<u32>)
        ensures
            *final(self) == data_stage(*old(self), data_done),
            r == (if requests_data(*old(self)) { Some(data_subdivs(*old(self), split_subdivs)) } else { None }),
    {
        if self.target_state.is_merge() && self.should_update_data {
            self.should_update_data = false;
            self.generating_data = true;
            let actual = if split_subdivs < self.target_subdivs { split_subdivs } else { self.target_subdivs };
            Some(actual)
        } else {
            if let Some(subdivs) = data_done {
                self.data = Some(subdivs);
                self.generating_data = false;
                self.should_update_mesh = true;
            }
            None
        }
    }

    /// The mesh stage of [job_step](Self::job_step); returns the mesh job to start and the
    /// mesh to show or remove.
    fn run_mesh_stage(&mut self, mesh_done: Option<GeneratedData<bool>>) -> (r: (Option<u32>, Option<bool>))
        ensures
            *final(self) == mesh_stage(*old(self), mesh_done),
            r.0 == (if spawns_mesh(*old(self)) { Some(old(self).data->0) } else { None }),
            r.1 == (if !spawns_mesh(*old(self)) && mesh_done is Some { Some(mesh_done->0.data) } else { None }),
    {
        if let Some(s) = self.data {
            if self.target_state.is_merge() && self.should_update_mesh {
                self.should_update_mesh = false;
                self.generating_mesh = true;
                return (Some(s), None);
            }
        }
        if let Some(m) = mesh_done {
            self.mesh = Some(m);
            self.generating_mesh = false;
            self.should_update_collider = self.should_update_collider || m.data;
            (None, Some(m.data))
        } else {
            (None, None)
        }
    }

    /// The collider stage of [job_step](Self::job_step); returns the collider job to start
    /// and the collider to show or remove.
    fn run_collider_stage(&mut self, collider_done: Option<GeneratedData<bool>>) -> (r: (Option<u32>, Option<bool>))
        ensures
            *final(self) == collider_stage(*old(self), collider_done),
            r.0 == (if spawns_collider(*old(self)) { Some(old(self).mesh->0.for_subdivs) } else { None }),
            r.1 == (if !spawns_collider(*old(self)) && collider_done is Some { Some(collider_done->0.data) } else { None }),
    {
        if let Some(m) = self.mesh {
            if self.target_state.is_merge() && self.should_update_collider && m.data {
                self.should_update_collider = false;
                self.generating_collider = true;
                return (Some(m.for_subdivs), None);
            }
        }
        if let Some(c) = collider_done {
            self.collider = Some(c);
            self.generating_collider = false;
            (None, Some(c.data))
        } else {
            (None, None)
        }
    }
}

/// The eight new child chunks of a chunk at `path`, in octant order.
fn spawn_children(path: CellPath) -> (r: Vec<ChunkState>)
    requires path@.len() < 42,
    ensures
        r.len() == 8,
        forall|k: int| 0 <= k < 8 ==>
            (#[trigger] r@[k]).path@ == path@.push(k as u8) && r@[k] == new_chunk(r@[k].path),
{
    let mut out: Vec<ChunkState> = Vec::new();
    let mut k: u8 = 0;
    while k < 8
        invariant
            k <= 8,
            path@.len() < 42,
            out.len() == k,
            forall|j: int| 0 <= j < k ==>
                (#[trigger] out@[j]).path@ == path@.push(j as u8) && out@[j] == new_chunk(out@[j].path),
        decreases 8 - k,
    {
        out.push(ChunkState::new(path.with_push(U3::new(k))));
        k = k + 1;
    }
    out
}

/// Asks the children whose parent was merging to merge themselves.
fn release_children(children: &mut Vec<ChunkState>)
    ensures final(children)@ == released_children(old(children)@),
{
    let ghost old_children = children@;
    let mut k: usize = 0;
    while k < children.len()
        invariant
            k <= children.len(),
            children.len() == old_children.len(),
            forall|j: int| 0 <= j < k ==> children@[j] == released_children(old_children)[j],
            forall|j: int| k <= j < children.len() ==> children@[j] == old_children[j],
        decreases children.len() - k,
    {
        if children[k].target_state == ChunkMergeState::ParentMerging {
            let mut c = children[k];
            c.set_target_state(ChunkMergeState::Merge);
            children.set(k, c);
        }
        k = k + 1;
    }
    proof { assert(children@ =~= released_children(old_children)); }
}

/// Freezes every child: their parent is merging.
fn freeze_children(children: &mut Vec<ChunkState>)
    ensures final(children)@ == old(children)@.map_values(|c: ChunkState| with_target_state(c, ChunkMergeState::ParentMerging)),
{
    let ghost old_children = children@;
    let mut k: usize = 0;
    while k < children.len()
        invariant
            k <= children.len(),
            children.len() == old_children.len(),
            forall|j: int| 0 <= j < k ==> children@[j] == with_target_state(old_children[j], ChunkMergeState::ParentMerging),
            forall|j: int| k <= j < children.len() ==> children@[j] == old_children[j],
        decreases children.len() - k,
    {
        let mut c = children[k];
        c.set_target_state(ChunkMergeState::ParentMerging);
        children.set(k, c);
        k = k + 1;
    }
    proof {
        assert(children@ =~= old_children.map_values(|c: ChunkState| with_target_state(c, ChunkMergeState::ParentMerging)));
    }
}

/// Whether all children have meshes, and whether all have colliders.
fn count_children(children: &Vec<ChunkState>) -> (r: (bool, bool))
    ensures r.0 == all_have_meshes(children@), r.1 == all_have_colliders(children@),
{
    let mut meshes = true;
    let mut colliders = true;
    let mut k: usize = 0;
    while k < children.len()
        invariant
            k <= children.len(),
            meshes == all_have_meshes(children@.take(k as int)),
            colliders == all_have_colliders(children@.take(k as int)),
        decreases children.len() - k,
    {
        let c = children[k];
        proof {
            let t = children@.take(k + 1int);
            let u = children@.take(k as int);
            assert(t[k as int] == c);
            assert forall|j: int| 0 <= j < k implies t[j] == #[trigger] u[j] by {}
        }
        meshes = meshes && (c.mesh.is_some() || c.children_have_meshes);
        colliders = colliders && (c.collider.is_some() || c.children_have_colliders);
        proof {
            let t = children@.take(k + 1int);
            let u = children@.take(k as int);
            assert(meshes == all_have_meshes(t)) by {
                if !meshes && (c.mesh.is_some() || c.children_have_meshes) {
                    let j = choose|j: int| 0 <= j < u.len() && !((#[trigger] u[j]).mesh is Some || u[j].children_have_meshes);
                    assert(t[j] == u[j]);
                }
            }
            assert(colliders == all_have_colliders(t)) by {
                if !colliders && (c.collider.is_some() || c.children_have_colliders) {
                    let j = choose|j: int| 0 <= j < u.len() && !((#[trigger] u[j]).collider is Some || u[j].children_have_colliders);
                    assert(t[j] == u[j]);
                }
            }
        }
        k = k + 1;
    }
    proof { assert(children@.take(children.len() as int) =~= children@); }
    (meshes, colliders)
}

/// Giving a chunk the same subdivisions twice changes nothing the second time, as long
/// as the merge threshold is not above the split threshold: a chunk does not flip
/// between splitting and merging without a change of distance.
pub proof fn law_apply_subdivs_stable(c: ChunkState, total: u32, merge_subdivs: u32, split_subdivs: u32)
    requires merge_subdivs <= split_subdivs,
    ensures
        with_subdivs(with_subdivs(c, total, merge_subdivs, split_subdivs), total, merge_subdivs, split_subdivs)
            == with_subdivs(c, total, merge_subdivs, split_subdivs),
{
}

/// Once given its subdivisions, a chunk no longer waits for them, and holds its share
/// of the total.
pub proof fn law_subdivs_assigned(c: ChunkState, total: u32, merge_subdivs: u32, split_subdivs: u32)
    ensures
        !with_subdivs(c, total, merge_subdivs, split_subdivs).waiting_for_subdivs,
        with_subdivs(c, total, merge_subdivs, split_subdivs).target_subdivs == chunk_subdivs(total, c.path@.len()),
{
}

/// A chunk whose parent is merging, once given its subdivisions, is never busy: it
/// holds up no merge.
pub proof fn law_frozen_not_busy(c: ChunkState)
    requires c.target_state == ChunkMergeState::ParentMerging, !c.waiting_for_subdivs,
    ensures !busy(c),
{
}

/// A chunk is busy while it waits for its subdivisions, and a merging chunk is busy while
/// any of its data, mesh or collider is to be made or being made; otherwise it is not.
pub proof fn law_busy_while_work_remains(c: ChunkState)
    ensures
        c.waiting_for_subdivs ==> busy(c),
        c.target_state == ChunkMergeState::Merge && (c.should_update_data || c.generating_data) ==> busy(c),
        c.target_state == ChunkMergeState::Merge && (c.should_update_mesh || c.generating_mesh) ==> busy(c),
        c.target_state == ChunkMergeState::Merge && (c.should_update_collider || c.generating_collider) ==> busy(c),
        !c.waiting_for_subdivs && c.target_state != ChunkMergeState::Merge ==> !busy(c),
        !c.waiting_for_subdivs && !c.should_update_data && !c.generating_data
            && !c.should_update_mesh && !c.generating_mesh
            && !c.should_update_collider && !c.generating_collider ==> !busy(c),
{
}

/// Subdivisions decide the target: a split chunk whose share falls below the merge
/// threshold merges, a merging chunk whose share exceeds the split threshold splits, and
/// a target changes in no other case.
pub proof fn law_subdivs_decide_target(c: ChunkState, total: u32, merge_subdivs: u32, split_subdivs: u32)
    ensures ({
        let subdivs = chunk_subdivs(total, c.path@.len());
        let n = with_subdivs(c, total, merge_subdivs, split_subdivs);
        &&& c.target_state == ChunkMergeState::Split && subdivs < merge_subdivs ==> n.target_state == ChunkMergeState::Merge
        &&& c.target_state == ChunkMergeState::Merge && subdivs > split_subdivs ==> n.target_state == ChunkMergeState::Split
        &&& c.target_state == ChunkMergeState::ParentMerging ==> n.target_state == ChunkMergeState::ParentMerging
        &&& n.target_state != c.target_state ==> (subdivs < merge_subdivs || subdivs > split_subdivs)
        &&& (c.waiting_for_subdivs || c.target_subdivs != subdivs) ==> n.should_update_data
        &&& (!c.waiting_for_subdivs && c.target_subdivs == subdivs) ==> n.should_update_data == c.should_update_data
    }),
{
}

/// A job step requests data exactly for a merging chunk with out-of-date data, for its
/// target subdivisions capped by `split_subdivs`, and then the data is up to date and
/// being made; a chunk that does not merge starts no job.
pub proof fn law_job_step_requests(c: ChunkState, split_subdivs: u32, data_done: Option<u32>,
    mesh_done: Option<GeneratedData<bool>>, collider_done: Option<GeneratedData<bool>>)
    ensures ({
        let r = job_action(c, split_subdivs, data_done, mesh_done, collider_done);
        let n = job_next(c, data_done, mesh_done, collider_done);
        &&& r.request_data is Some <==> c.target_state == ChunkMergeState::Merge && c.should_update_data
        &&& r.request_data matches Some(s) ==> s <= split_subdivs && s <= c.target_subdivs
            && (s == split_subdivs || s == c.target_subdivs)
        &&& r.request_data is Some ==> !n.should_update_data && n.generating_data && n.data == c.data
        &&& c.target_state != ChunkMergeState::Merge ==>
            r.request_data is None && r.spawn_mesh is None && r.spawn_collider is None
        &&& r.spawn_mesh matches Some(s) ==> n.data == Some(s) && n.generating_mesh && !n.should_update_mesh
        &&& r.spawn_collider matches Some(s) ==> n.mesh matches Some(m) && m.for_subdivs == s && m.data
            && n.generating_collider && !n.should_update_collider
    }),
{
}

/// A finished job that the step does not replace delivers its result: finished data is
/// kept and asks for a mesh, a finished mesh is kept (and asks for a collider when there
/// is one), a finished collider is kept.
pub proof fn law_job_step_delivers(c: ChunkState, split_subdivs: u32, data_done: Option<u32>,
    mesh_done: Option<GeneratedData<bool>>, collider_done: Option<GeneratedData<bool>>)
    ensures ({
        let r = job_action(c, split_subdivs, data_done, mesh_done, collider_done);
        let n = job_next(c, data_done, mesh_done, collider_done);
        &&& r.request_data is None && data_done is Some ==> n.data == data_done && !n.generating_data
        &&& r.spawn_mesh is None && mesh_done is Some ==> n.mesh == mesh_done && !n.generating_mesh
            && r.set_mesh == Some(mesh_done->0.data)
        &&& r.spawn_collider is None && collider_done is Some ==> n.collider == collider_done
            && !n.generating_collider && r.set_collider == Some(collider_done->0.data)
    }),
{
}

} // verus!
