//! A one-shot task result shared between the owners of a task and the workers that
//! compute it. The task is cancelled once every owner has dropped it.
//!
//! The shared state is changed by other threads between any two reads, so what a
//! read returns is never known in advance; the contracts below state what holds
//! whatever it returned, and which task each value refers to.
use vstd::prelude::*;
use vstd::rwlock::{RwLock, RwLockPredicate};
use std::sync::Arc;
use std::sync::atomic::{AtomicBool, AtomicU32, Ordering};

verus! {

/// The value of a task, once a worker has stored it and until an owner takes it.
struct LockedTaskInner<T> {
    out: Option<T>,
}

/// Any content of the lock is acceptable.
struct AnyOutput;

impl<T> RwLockPredicate<LockedTaskInner<T>> for AnyOutput {
    open spec fn inv(self, v: LockedTaskInner<T>) -> bool {
        true
    }
}

/// The state shared by a task's owners and handles.
struct TaskShared<T> {
    inner: RwLock<LockedTaskInner<T>, AnyOutput>,
    done: AtomicBool,
    owner_count: AtomicU32,
}

/// Another pointer to the same shared value.
///
/// Calls `Arc::clone`, which returns a pointer to the same allocation: the claim is
/// that the result points to the value that `a` points to.
#[verifier::external_body]
fn share<T>(a: &Arc<T>) -> (r: Arc<T>)
    ensures r == *a,
{
    Arc::clone(a)
}

/// The owner count after one more owner joins, or `None` when the task is cancelled
/// (no owner is left) or the count is at its largest.
pub open spec fn owner_count_after_join(count: u32) -> Option<u32> {
    if count == 0 || count == u32::MAX { None } else { Some((count + 1) as u32) }
}

/// Computes `owner_count_after_join`.
pub fn next_owner_count(count: u32) -> (r: Option<u32>)
    ensures r == owner_count_after_join(count),
{
    if count == 0 {
        None
    } else {
        count.checked_add(1)
    }
}

/// Adds one owner unless the task is cancelled.
///
/// Calls `AtomicU32::fetch_update` with `next_owner_count`; its documentation says
/// that it returns `Ok` with the value it replaced when the function returned `Some`
/// for it, and `Err` with the value it read when the function returned `None`. Which
/// value it reads is left unsaid: other threads change the count.
#[verifier::external_body]
fn join_owner(count: &AtomicU32) -> (r: Result<u32, u32>)
    ensures
        match r {
            Ok(previous) => owner_count_after_join(previous) is Some,
            Err(previous) => owner_count_after_join(previous) is None,
        },
{
    count.fetch_update(Ordering::Relaxed, Ordering::Relaxed, |c| next_owner_count(c))
}

/// Removes one owner.
///
/// Calls `AtomicU32::fetch_sub`, which does not panic (it wraps around on overflow).
/// What the count becomes is left unsaid: Verus sees no value inside an atomic.
#[verifier::external_body]
fn leave_owner(count: &AtomicU32)
    opens_invariants none
    no_unwind
{
    count.fetch_sub(1, Ordering::Relaxed);
}

/// A handle through which a worker finishes a task; it does not keep the task alive.
pub struct TaskHandle<T> {
    shared: Arc<TaskShared<T>>,
}

/// A task: can be cloned, and is cancelled when every clone has been dropped.
pub struct Task<T> {
    inner: Arc<TaskShared<T>>,
}

impl<T> TaskHandle<T> {
    /// This handle refers to the task `task`.
    pub closed spec fn refers_to(self, task: Task<T>) -> bool {
        self.shared == task.inner
    }

    /// This handle and `other` refer to the same task.
    pub closed spec fn same_task(self, other: TaskHandle<T>) -> bool {
        self.shared == other.shared
    }

    /// Whether every owner of the task is gone.
    pub fn canceled(&self) -> (r: bool) {
        self.shared.owner_count.load(Ordering::Relaxed) == 0
    }

    /// Whether the task is cancelled or has a value.
    pub fn finished(&self) -> (r: bool) {
        self.canceled() || self.shared.done.load(Ordering::Relaxed)
    }

    /// A new owner of the task, unless it is already cancelled. The contract says only that
    /// an owner given back is an owner of this handle's task: whether one is given back
    /// rests on the owner count that other threads change, which Verus does not see.
    pub fn upgrade(&self) -> (r: Option<Task<T>>)
        ensures
            r matches Some(t) ==> self.refers_to(t),
    {
        match join_owner(&self.shared.owner_count) {
            Ok(_) => Some(Task { inner: share(&self.shared) }),
            Err(_) => None,
        }
    }

    /// Stores the value of the task, unless one was stored before; returns whether it
    /// stored it. It does not check whether the task was cancelled.
    pub fn try_finish(&self, val: T) -> (r: bool) {
        if self.shared.done.load(Ordering::Relaxed) {
            return false;
        }
        let (inner, handle) = self.shared.inner.acquire_write();
        if inner.out.is_some() {
            handle.release_write(inner);
            return false;
        }
        handle.release_write(LockedTaskInner { out: Some(val) });
        self.shared.done.store(true, Ordering::Relaxed);
        true
    }

    /// Stores the value of the task; returns `false` when a value had been stored
    /// before, which is an error of the caller.
    pub fn finish(&self, val: T) -> (r: bool) {
        self.try_finish(val)
    }
}

/// Two handles that refer to the same task as a third refer to the same task.
pub proof fn lemma_same_task_trans<T>(a: TaskHandle<T>, b: TaskHandle<T>, c: TaskHandle<T>)
    requires a.same_task(b), b.same_task(c),
    ensures a.same_task(c),
{
}

impl<T> Clone for TaskHandle<T> {
    fn clone(&self) -> (r: Self)
        ensures r.same_task(*self),
    {
        TaskHandle { shared: share(&self.shared) }
    }
}

impl<T> Task<T> {
    /// `self` and `other` are owners of one task.
    pub closed spec fn same_task(self, other: Task<T>) -> bool {
        self.inner == other.inner
    }

    /// A new task, with one owner and no value.
    pub fn new() -> (r: Task<T>) {
        Task {
            inner: Arc::new(TaskShared {
                inner: RwLock::new(LockedTaskInner { out: None }, Ghost(AnyOutput)),
                done: AtomicBool::new(false),
                owner_count: AtomicU32::new(1),
            }),
        }
    }

    /// A handle on the task that `self` owns.
    pub fn handle(&self) -> (r: TaskHandle<T>)
        ensures r.refers_to(*self),
    {
        TaskHandle { shared: share(&self.inner) }
    }

    /// Whether a value has been stored.
    pub fn finished(&self) -> (r: bool) {
        self.inner.done.load(Ordering::Relaxed)
    }

    /// Makes the task an owner that is never dropped, so that it is never cancelled.
    pub fn detach(&self) {
        self.inner.owner_count.fetch_add(1, Ordering::Relaxed);
    }

    /// Takes the value of the task: `None` while it is not finished, or once an owner
    /// took it.
    pub fn try_join(&self) -> (r: Option<T>) {
        if !self.finished() {
            return None;
        }
        let (mut inner, handle) = self.inner.inner.acquire_write();
        let out = inner.out.take();
        handle.release_write(inner);
        out
    }
}

impl<T> Clone for Task<T> {
    fn clone(&self) -> (r: Self)
        ensures r.same_task(*self),
    {
        self.inner.owner_count.fetch_add(1, Ordering::Relaxed);
        Task { inner: share(&self.inner) }
    }
}

impl<T> Drop for Task<T> {
    fn drop(&mut self)
        opens_invariants none
        no_unwind
    {
        leave_owner(&self.inner.owner_count);
    }
}

/// Taking the value out of an optional task once it is finished.
pub trait OptionTaskExt<T> {
    /// When the task is finished, takes it out of the option and returns what
    /// `try_join` gives; otherwise leaves the option as it was and returns `None`.
    fn take_if_finished(&mut self) -> (r: Option<T>);
}

impl<T> OptionTaskExt<T> for Option<Task<T>> {
    fn take_if_finished(&mut self) -> (r: Option<T>)
        ensures
            *old(self) is None ==> r is None && *final(self) is None,
            *final(self) is Some ==> r is None && *final(self) == *old(self),
            r is Some ==> *final(self) is None,
    {
        let done = match self {
            Some(t) => t.finished(),
            None => false,
        };
        if done {
            return match self.take() {
                Some(t) => t.try_join(),
                None => None,
            };
        }
        None
    }
}

} // verus!
