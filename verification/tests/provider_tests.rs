use svo::provider::{GenPromise, GenTaskData, GeneratedDepthData, SvoProvider, SvoProviderComponent};
use svo::svo::{AggregateData, Either, MergeableData};
use svo::cell_path::CellPath;
use svo::task::Task;

#[test]
fn clone_lower_lowers_the_depth() {
    let task: Task<u32> = Task::new();
    let data = GenTaskData {
        promise: Some(GenPromise { started: true, handle: task.handle(), depth: 5 }),
    };
    let lower = data.clone_lower();
    let p = lower.promise.as_ref().unwrap();
    assert!(!p.started);
    assert_eq!(p.depth, 4);
    assert!(p.handle.finish(7));
    assert_eq!(task.try_join(), Some(7));
}

#[test]
fn clone_lower_without_promise() {
    let data: GenTaskData<u32> = GenTaskData::default();
    assert!(data.clone_lower().promise.is_none());
}

#[test]
fn gen_task_split_gives_eight_lower_children() {
    let task: Task<u32> = Task::new();
    let data = GenTaskData {
        promise: Some(GenPromise { started: true, handle: task.handle(), depth: 2 }),
    };
    let (this, children) = data.split();
    assert_eq!(this.promise.as_ref().unwrap().depth, 2);
    assert!(this.promise.as_ref().unwrap().started);
    assert_eq!(children.len(), 8);
    for c in &children {
        let p = c.promise.as_ref().unwrap();
        assert_eq!(p.depth, 1);
        assert!(!p.started);
    }
}

#[test]
fn generated_depth_aggregate_is_min_plus_one() {
    assert_eq!(GeneratedDepthData::default(), GeneratedDepthData(-1));
    let leaves: Vec<GeneratedDepthData> = vec![4, 2, 7, 3, 3, 3, 3, 3].into_iter().map(GeneratedDepthData).collect();
    let refs: Vec<Either<&GeneratedDepthData, &GeneratedDepthData>> = leaves.iter().map(Either::Right).collect();
    assert_eq!(GeneratedDepthData::aggregate(refs), GeneratedDepthData(3));
    assert!(!GeneratedDepthData::can_merge(&GeneratedDepthData(0), leaves.iter().collect()));
    assert_eq!(GeneratedDepthData::merge(GeneratedDepthData(0), leaves), Some(GeneratedDepthData(3)));
    let same = vec![GeneratedDepthData(6); 8];
    assert!(GeneratedDepthData::can_merge(&GeneratedDepthData(0), same.iter().collect()));
}

#[test]
fn generated_depth_split() {
    let (this, children) = GeneratedDepthData(3).split();
    assert_eq!(this, GeneratedDepthData(3));
    assert_eq!(children, vec![GeneratedDepthData(2); 8]);
}

struct Fixed {
    dirty: Vec<CellPath>,
}

impl SvoProvider for Fixed {
    type Chunk = u32;

    fn request_chunk(&mut self, path: &CellPath, subdivs: u32) -> Task<u32> {
        let t = Task::new();
        t.handle().finish(path.len() + subdivs);
        t
    }

    fn drain_dirty_chunks(&mut self) -> Vec<CellPath> {
        std::mem::take(&mut self.dirty)
    }
}

#[test]
fn a_provider_in_a_component() {
    let mut comp: SvoProviderComponent<Fixed> = Fixed { dirty: vec![CellPath::new()] }.into();
    comp.0.update();
    let t = comp.0.request_chunk(&CellPath::new(), 3);
    assert_eq!(t.try_join(), Some(3));
    assert_eq!(comp.0.drain_dirty_chunks().len(), 1);
    assert!(comp.0.drain_dirty_chunks().is_empty());
}
