use svo::task::{next_owner_count, OptionTaskExt, Task};

#[test]
fn finish_then_join() {
    let t: Task<u32> = Task::new();
    assert!(!t.finished());
    assert_eq!(t.try_join(), None);
    let h = t.handle();
    assert!(!h.canceled());
    assert!(!h.finished());
    assert!(h.finish(5));
    assert!(t.finished());
    assert!(h.finished());
    assert_eq!(t.try_join(), Some(5));
    assert_eq!(t.try_join(), None);
}

#[test]
fn finishing_twice_is_refused() {
    let t: Task<&str> = Task::new();
    let h = t.handle();
    assert!(h.try_finish("first"));
    assert!(!h.try_finish("second"));
    assert!(!h.finish("third"));
    assert_eq!(t.try_join(), Some("first"));
}

#[test]
fn dropping_every_owner_cancels() {
    let t: Task<u8> = Task::new();
    let h = t.handle();
    let t2 = t.clone();
    drop(t);
    assert!(!h.canceled());
    drop(t2);
    assert!(h.canceled());
    assert!(h.finished());
    assert!(h.upgrade().is_none());
}

#[test]
fn upgrade_adds_an_owner() {
    let t: Task<u8> = Task::new();
    let h = t.handle();
    let t2 = h.upgrade().unwrap();
    drop(t);
    assert!(!h.canceled());
    assert!(h.finish(3));
    assert_eq!(t2.try_join(), Some(3));
    drop(t2);
    assert!(h.canceled());
}

#[test]
fn detached_task_is_never_cancelled() {
    let t: Task<u8> = Task::new();
    let h = t.handle();
    t.detach();
    drop(t);
    assert!(!h.canceled());
}

#[test]
fn handle_clones_share_the_task() {
    let t: Task<u8> = Task::new();
    let h = t.handle().clone();
    assert!(h.finish(9));
    assert_eq!(t.try_join(), Some(9));
}

#[test]
fn take_if_finished_takes_only_finished_tasks() {
    let mut none: Option<Task<u8>> = None;
    assert_eq!(none.take_if_finished(), None);
    assert!(none.is_none());

    let mut slot = Some(Task::new());
    let h = slot.as_ref().unwrap().handle();
    assert_eq!(slot.take_if_finished(), None);
    assert!(slot.is_some());
    assert!(h.finish(4));
    assert_eq!(slot.take_if_finished(), Some(4));
    assert!(slot.is_none());
}

#[test]
fn owner_count_after_join() {
    assert_eq!(next_owner_count(0), None);
    assert_eq!(next_owner_count(1), Some(2));
    assert_eq!(next_owner_count(u32::MAX), None);
}
