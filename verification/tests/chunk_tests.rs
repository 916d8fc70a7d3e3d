use svo::cell_path::{CellPath, U3};
use svo::chunk::{ChunkJobAction, ChunkMergeState, ChunkState, GeneratedData, SplitMergeAction};

fn at_depth(d: u8) -> CellPath {
    let mut p = CellPath::new();
    for _ in 0..d {
        p.push(U3::new(1));
    }
    p
}

fn none() -> SplitMergeAction {
    SplitMergeAction { spawn_children: false, despawn_children: false, remove_mesh: false, remove_collider: false }
}

#[test]
fn new_chunk_waits_for_subdivs() {
    let c = ChunkState::new(at_depth(2));
    assert!(c.waiting_for_subdivs);
    assert_eq!(c.target_state, ChunkMergeState::Merge);
    assert!(c.is_busy());
    assert!(!c.has_children);
    assert_eq!(ChunkMergeState::default(), ChunkMergeState::Merge);
}

#[test]
fn set_target_state_forgets_children_results_on_change() {
    let mut c = ChunkState::new(CellPath::new());
    c.children_have_meshes = true;
    c.children_have_colliders = true;
    c.set_target_state(ChunkMergeState::Merge);
    assert!(c.children_have_meshes && c.children_have_colliders);
    c.set_target_state(ChunkMergeState::Split);
    assert_eq!(c.target_state, ChunkMergeState::Split);
    assert!(!c.children_have_meshes && !c.children_have_colliders);
}

#[test]
fn busy_only_while_merging_with_work() {
    let mut c = ChunkState::new(CellPath::new());
    c.waiting_for_subdivs = false;
    assert!(!c.is_busy());
    c.generating_mesh = true;
    assert!(c.is_generating_mesh());
    assert!(c.is_busy());
    c.set_target_state(ChunkMergeState::ParentMerging);
    assert!(!c.is_busy());
    c.set_target_state(ChunkMergeState::Split);
    assert!(!c.is_busy());
}

#[test]
fn subdivs_are_shared_by_depth() {
    let mut c = ChunkState::new(at_depth(3));
    c.apply_total_subdivs(10, 2, 4);
    assert!(!c.waiting_for_subdivs);
    assert!(c.should_update_data);
    assert_eq!(c.target_subdivs, 7);
    assert_eq!(c.target_state, ChunkMergeState::Split);

    let mut c = ChunkState::new(at_depth(3));
    c.apply_total_subdivs(2, 2, 4);
    assert_eq!(c.target_subdivs, 0);
    assert_eq!(c.target_state, ChunkMergeState::Merge);
}

#[test]
fn split_chunk_merges_below_threshold() {
    let mut c = ChunkState::new(CellPath::new());
    c.apply_total_subdivs(6, 2, 4);
    assert_eq!(c.target_state, ChunkMergeState::Split);
    c.should_update_data = false;
    c.apply_total_subdivs(6, 2, 4);
    assert!(!c.should_update_data);
    assert_eq!(c.target_state, ChunkMergeState::Split);
    c.apply_total_subdivs(1, 2, 4);
    assert_eq!(c.target_state, ChunkMergeState::Merge);
    assert!(c.should_update_data);
    let once = c;
    c.apply_total_subdivs(1, 2, 4);
    assert_eq!(c, once);
}

#[test]
fn split_step_spawns_children() {
    let mut c = ChunkState::new(CellPath::new());
    c.set_target_state(ChunkMergeState::Split);
    let mut children = Vec::new();
    let a = c.split_merge_step(&mut children, true, true);
    assert_eq!(a, SplitMergeAction { spawn_children: true, ..none() });
    assert!(c.has_children);
    assert_eq!(children.len(), 8);
    for k in 0..8u8 {
        assert_eq!(children[k as usize], ChunkState::new(CellPath::new().with_push(U3::new(k))));
    }

    let mut m = ChunkState::new(CellPath::new());
    let mut none_yet = Vec::new();
    assert_eq!(m.split_merge_step(&mut none_yet, false, false), none());
    assert!(!m.has_children);
    assert!(none_yet.is_empty());
}

fn eight_children(parent: CellPath) -> Vec<ChunkState> {
    parent.children().iter().map(|p| ChunkState::new(*p)).collect()
}

#[test]
fn split_chunk_hides_its_mesh_once_children_have_theirs() {
    let mut c = ChunkState::new(CellPath::new());
    c.waiting_for_subdivs = false;
    c.has_children = true;
    c.mesh = Some(GeneratedData { for_subdivs: 1, data: true });
    c.collider = Some(GeneratedData { for_subdivs: 1, data: true });
    c.set_target_state(ChunkMergeState::Split);
    let mut children = eight_children(CellPath::new());
    for ch in children.iter_mut() {
        ch.mesh = Some(GeneratedData { for_subdivs: 0, data: false });
        ch.target_state = ChunkMergeState::ParentMerging;
    }
    children[3].target_state = ChunkMergeState::Merge;
    children[3].mesh = None;
    children[3].children_have_meshes = true;
    let a = c.split_merge_step(&mut children, true, true);
    assert_eq!(a, SplitMergeAction { remove_mesh: true, ..none() });
    assert!(c.children_have_meshes);
    assert!(!c.children_have_colliders);
    assert!(c.mesh.is_none());
    assert!(c.collider.is_some());
    assert_eq!(children[0].target_state, ChunkMergeState::Merge);
    assert!(children[3].children_have_meshes);
}

#[test]
fn released_children_are_counted_again() {
    let mut c = ChunkState::new(CellPath::new());
    c.has_children = true;
    c.mesh = Some(GeneratedData { for_subdivs: 1, data: true });
    c.set_target_state(ChunkMergeState::Split);
    let mut children = eight_children(CellPath::new());
    for ch in children.iter_mut() {
        ch.children_have_meshes = true;
        ch.target_state = ChunkMergeState::ParentMerging;
    }
    let a = c.split_merge_step(&mut children, true, false);
    assert_eq!(a, none());
    assert!(!c.children_have_meshes);
    assert!(c.mesh.is_some());
    assert!(children.iter().all(|ch| !ch.children_have_meshes));
}

#[test]
fn merging_chunk_waits_for_its_work() {
    let mut c = ChunkState::new(CellPath::new());
    c.waiting_for_subdivs = false;
    c.has_children = true;
    c.should_update_data = true;
    let mut children = eight_children(CellPath::new());
    assert_eq!(c.split_merge_step(&mut children, false, false), none());
    assert!(c.has_children);
    assert!(children.iter().all(|ch| ch.target_state == ChunkMergeState::ParentMerging));

    c.should_update_data = false;
    let a = c.split_merge_step(&mut children, false, false);
    assert_eq!(a, SplitMergeAction { despawn_children: true, ..none() });
    assert!(!c.has_children);
}

#[test]
fn frozen_chunk_does_nothing() {
    let mut c = ChunkState::new(CellPath::new());
    c.has_children = true;
    c.set_target_state(ChunkMergeState::ParentMerging);
    let before = c;
    let mut children = eight_children(CellPath::new());
    assert_eq!(c.split_merge_step(&mut children, true, true), none());
    assert_eq!(c, before);
}

#[test]
fn generated_data_map_and_transpose() {
    let g = GeneratedData { for_subdivs: 3, data: 4u32 };
    let h = g.map(|x| x * 2);
    assert_eq!((h.for_subdivs, h.data), (3, 8));
    let some = GeneratedData { for_subdivs: 2, data: Some(7u8) }.transpose().unwrap();
    assert_eq!((some.for_subdivs, some.data), (2, 7));
    assert!(GeneratedData::<Option<u8>> { for_subdivs: 2, data: None }.transpose().is_none());
}

fn no_job() -> ChunkJobAction {
    ChunkJobAction { request_data: None, spawn_mesh: None, spawn_collider: None, set_mesh: None, set_collider: None }
}

fn merging_chunk(target_subdivs: u32) -> ChunkState {
    let mut c = ChunkState::new(CellPath::new());
    c.apply_total_subdivs(target_subdivs, 0, 100);
    c
}

#[test]
fn job_step_requests_data_at_most_split_subdivs() {
    let mut c = merging_chunk(7);
    assert!(c.should_update_data);
    let a = c.job_step(5, None, None, None);
    assert_eq!(a, ChunkJobAction { request_data: Some(5), ..no_job() });
    assert!(!c.should_update_data);
    assert!(c.is_generating());

    let mut d = merging_chunk(3);
    assert_eq!(d.job_step(5, None, None, None).request_data, Some(3));
}

#[test]
fn job_step_runs_data_then_mesh_then_collider() {
    let mut c = merging_chunk(4);
    c.job_step(8, None, None, None);
    let a = c.job_step(8, Some(4), None, None);
    assert_eq!(a, ChunkJobAction { spawn_mesh: Some(4), ..no_job() });
    assert_eq!(c.data, Some(4));
    assert!(!c.is_generating());
    assert!(c.is_generating_mesh());
    assert!(!c.should_update_mesh);

    let a = c.job_step(8, None, Some(GeneratedData { for_subdivs: 4, data: true }), None);
    assert_eq!(a, ChunkJobAction { set_mesh: Some(true), spawn_collider: Some(4), ..no_job() });
    assert!(c.is_generating_collider());

    let a = c.job_step(8, None, None, Some(GeneratedData { for_subdivs: 4, data: true }));
    assert_eq!(a, ChunkJobAction { set_collider: Some(true), ..no_job() });
    assert_eq!(c.collider, Some(GeneratedData { for_subdivs: 4, data: true }));
    assert!(!c.is_busy());
}

#[test]
fn job_step_without_mesh_builds_no_collider() {
    let mut c = merging_chunk(2);
    c.job_step(8, None, None, None);
    c.job_step(8, Some(2), None, None);
    let a = c.job_step(8, None, Some(GeneratedData { for_subdivs: 2, data: false }), None);
    assert_eq!(a, ChunkJobAction { set_mesh: Some(false), ..no_job() });
    assert!(!c.should_update_collider);
    assert_eq!(c.mesh, Some(GeneratedData { for_subdivs: 2, data: false }));
}

#[test]
fn job_step_of_a_split_chunk_starts_nothing() {
    let mut c = ChunkState::new(CellPath::new());
    c.apply_total_subdivs(9, 0, 4);
    assert_eq!(c.target_state, ChunkMergeState::Split);
    assert_eq!(c.job_step(8, None, None, None), no_job());
    assert!(c.should_update_data);
    let a = c.job_step(8, Some(3), None, None);
    assert_eq!(a, no_job());
    assert_eq!(c.data, Some(3));
    assert!(c.should_update_mesh);
}

#[test]
fn job_step_drops_a_replaced_data_job() {
    let mut c = merging_chunk(4);
    c.job_step(8, None, None, None);
    c.apply_total_subdivs(6, 0, 100);
    let a = c.job_step(8, Some(4), None, None);
    assert_eq!(a, ChunkJobAction { request_data: Some(6), ..no_job() });
    assert_eq!(c.data, None);
}
