use futures::task::{noop_waker, waker, ArcWake};
use local_semaphore::error::SemaphoreError;
use local_semaphore::model::Admission;
use local_semaphore::semaphore::{PermitAdmission, Semaphore};
use std::sync::atomic::{AtomicUsize, Ordering};
use std::sync::Arc;

struct Task {
    wakes: AtomicUsize,
}

impl ArcWake for Task {
    fn wake_by_ref(arc_self: &Arc<Self>) {
        arc_self.wakes.fetch_add(1, Ordering::SeqCst);
    }
}

fn task() -> Arc<Task> {
    Arc::new(Task { wakes: AtomicUsize::new(0) })
}

fn wakes(t: &Arc<Task>) -> usize {
    t.wakes.load(Ordering::SeqCst)
}

#[test]
fn queued_request_has_a_waiter_and_is_pending() {
    let t = task();
    let mut sem = Semaphore::new(0);
    assert_eq!(sem.acquire(1), Ok(Admission::Queued(0)));
    assert!(sem.is_suspended(0));
    assert!(!sem.is_suspended(1));
    assert!(!sem.poll(0, waker(t.clone())));
    assert!(!sem.poll(0, waker(t.clone())));
    assert!(sem.is_suspended(0));
    assert_eq!(sem.waiting(), 1);
    assert_eq!(sem.available(), 0);
    assert_eq!(wakes(&t), 0);
}

#[test]
fn granted_request_has_no_waiter() {
    let mut sem = Semaphore::new(1);
    assert_eq!(sem.acquire(1), Ok(Admission::Granted));
    assert!(!sem.is_suspended(0));
    // Nothing to wait for under a ticket that nobody holds.
    assert!(sem.poll(0, noop_waker()));
}

#[test]
fn signal_wakes_the_head_task_once() {
    let a = task();
    let b = task();
    let mut sem = Semaphore::new(0);
    assert_eq!(sem.acquire(2), Ok(Admission::Queued(0)));
    assert!(!sem.poll(0, waker(a.clone())));
    assert_eq!(sem.acquire(2), Ok(Admission::Queued(1)));
    assert!(!sem.poll(1, waker(b.clone())));
    assert_eq!(sem.signal(1), Ok(None));
    assert_eq!((wakes(&a), wakes(&b)), (0, 0));
    assert_eq!(sem.signal(5), Ok(Some(0)));
    assert_eq!((wakes(&a), wakes(&b)), (1, 0));
    // The woken task looks again: its wait is over and its waiter is gone.
    assert!(sem.poll(0, waker(a.clone())));
    assert!(!sem.is_suspended(0));
    assert!(!sem.poll(1, waker(b.clone())));
    assert_eq!(sem.signal(0), Ok(Some(1)));
    assert_eq!((wakes(&a), wakes(&b)), (1, 1));
    assert!(sem.poll(1, waker(b.clone())));
    assert_eq!(sem.available(), 6);
}

#[test]
fn signal_wakes_through_the_latest_handle() {
    let first = task();
    let second = task();
    let mut sem = Semaphore::new(0);
    assert_eq!(sem.acquire(1), Ok(Admission::Queued(0)));
    assert!(!sem.poll(0, waker(first.clone())));
    assert!(!sem.poll(0, waker(second.clone())));
    assert_eq!(sem.signal(1), Ok(Some(0)));
    assert_eq!((wakes(&first), wakes(&second)), (0, 1));
}

#[test]
fn refused_signal_wakes_nobody() {
    let t = task();
    let mut sem = Semaphore::new(u64::MAX - 1);
    assert_eq!(sem.acquire(u64::MAX), Ok(Admission::Queued(0)));
    assert!(!sem.poll(0, waker(t.clone())));
    assert_eq!(sem.signal(2), Err(SemaphoreError::CounterOverflow));
    assert_eq!(wakes(&t), 0);
    assert_eq!(sem.waiting(), 1);
    assert_eq!(sem.available(), u64::MAX - 1);
    assert!(!sem.poll(0, waker(t.clone())));
    assert_eq!(sem.signal(1), Ok(Some(0)));
    assert_eq!(wakes(&t), 1);
    assert!(sem.poll(0, waker(t.clone())));
    assert_eq!(sem.acquire(u64::MAX), Ok(Admission::Granted));
    assert_eq!(sem.available(), 0);
}

#[test]
fn close_wakes_every_waiting_task() {
    let a = task();
    let b = task();
    let c = task();
    let mut sem = Semaphore::new(0);
    assert_eq!(sem.acquire(1), Ok(Admission::Queued(0)));
    assert!(!sem.poll(0, waker(a.clone())));
    assert_eq!(sem.acquire(1), Ok(Admission::Queued(1)));
    assert!(!sem.poll(1, waker(b.clone())));
    assert_eq!(sem.acquire(1), Ok(Admission::Queued(2)));
    assert!(!sem.poll(2, waker(c.clone())));
    assert_eq!(sem.close(), vec![0, 1, 2]);
    assert_eq!((wakes(&a), wakes(&b), wakes(&c)), (1, 1, 1));
    assert!(sem.poll(0, waker(a.clone())));
    assert!(sem.poll(1, waker(b.clone())));
    assert!(sem.poll(2, waker(c.clone())));
    assert_eq!(sem.acquire(1), Err(SemaphoreError::Broken));
    assert_eq!(sem.close(), Vec::<u64>::new());
    assert_eq!((wakes(&a), wakes(&b), wakes(&c)), (1, 1, 1));
}

#[test]
fn scenario_close_with_waiting_tasks() {
    let b = task();
    let c = task();
    let mut sem = Semaphore::new(1);
    let a = match sem.acquire_permit(1) {
        Ok(PermitAdmission::Granted(permit)) => permit,
        other => panic!("expected a permit, got {:?}", other),
    };
    assert_eq!(sem.acquire(2), Ok(Admission::Queued(0)));
    assert!(!sem.poll(0, waker(b.clone())));
    assert_eq!(sem.acquire(2), Ok(Admission::Queued(1)));
    assert!(!sem.poll(1, waker(c.clone())));
    sem.close();
    assert_eq!((wakes(&b), wakes(&c)), (1, 1));
    assert!(sem.poll(0, waker(b.clone())));
    assert_eq!(sem.acquire(2), Err(SemaphoreError::Broken));
    assert!(sem.poll(1, waker(c.clone())));
    assert_eq!(sem.acquire(2), Err(SemaphoreError::Broken));
    assert_eq!(a.release(&mut sem), Ok(None));
    assert_eq!((wakes(&b), wakes(&c)), (1, 1));
}

#[test]
fn scenario_permit_drop_resumes_the_waiting_task() {
    let b = task();
    let mut sem = Semaphore::new(10);
    let a = match sem.acquire_permit(7) {
        Ok(PermitAdmission::Granted(permit)) => permit,
        other => panic!("expected a permit, got {:?}", other),
    };
    assert_eq!(sem.available(), 3);
    assert!(matches!(sem.acquire_permit(5), Ok(PermitAdmission::Queued(0))));
    assert!(!sem.poll(0, waker(b.clone())));
    assert_eq!(a.release(&mut sem), Ok(Some(0)));
    assert_eq!(sem.available(), 10);
    assert_eq!(wakes(&b), 1);
    assert!(sem.poll(0, waker(b.clone())));
    assert!(matches!(sem.acquire_permit(5), Ok(PermitAdmission::Granted(_))));
    assert_eq!(sem.available(), 5);
}

#[test]
fn cancelled_task_is_never_woken() {
    let a = task();
    let b = task();
    let mut sem = Semaphore::new(0);
    assert_eq!(sem.acquire(1), Ok(Admission::Queued(0)));
    assert!(!sem.poll(0, waker(a.clone())));
    assert_eq!(sem.acquire(1), Ok(Admission::Queued(1)));
    assert!(!sem.poll(1, waker(b.clone())));
    assert!(sem.cancel(0));
    assert!(!sem.is_suspended(0));
    assert_eq!(sem.signal(1), Ok(Some(1)));
    assert_eq!((wakes(&a), wakes(&b)), (0, 1));
    assert_eq!(sem.close(), Vec::<u64>::new());
    assert_eq!((wakes(&a), wakes(&b)), (0, 1));
}

#[test]
fn request_resumed_before_its_first_poll_keeps_waiting() {
    let t = task();
    let mut sem = Semaphore::new(0);
    assert_eq!(sem.acquire(1), Ok(Admission::Queued(0)));
    // No task has looked yet, so there is nobody to tell.
    assert_eq!(sem.signal(1), Ok(Some(0)));
    assert_eq!(sem.waiting(), 0);
    assert!(!sem.poll(0, waker(t.clone())));
    assert_eq!(wakes(&t), 0);
    assert!(!sem.cancel(0));
    assert!(!sem.is_suspended(0));
}

#[test]
fn deferred_signal_hands_out_the_latest_handle_uncalled() {
    let first = task();
    let second = task();
    let other = task();
    let mut sem = Semaphore::new(0);
    assert_eq!(sem.acquire(2), Ok(Admission::Queued(0)));
    assert!(!sem.poll(0, waker(first.clone())));
    assert!(!sem.poll(0, waker(second.clone())));
    assert_eq!(sem.acquire(1), Ok(Admission::Queued(1)));
    assert!(!sem.poll(1, waker(other.clone())));
    assert!(matches!(sem.signal_deferred(1), Ok(None)));
    let handle = match sem.signal_deferred(1) {
        Ok(Some(handle)) => handle,
        _ => panic!("expected the handle of the head request"),
    };
    assert_eq!(sem.available(), 2);
    assert_eq!(sem.waiting(), 1);
    assert_eq!((wakes(&first), wakes(&second), wakes(&other)), (0, 0, 0));
    // The waiter counts as resumed already; the scheduler hears of it now.
    handle.wake();
    assert_eq!((wakes(&first), wakes(&second), wakes(&other)), (0, 1, 0));
    assert!(sem.poll(0, waker(second.clone())));
    assert!(!sem.poll(1, waker(other.clone())));
}

#[test]
fn deferred_signal_past_the_maximum_is_refused() {
    let t = task();
    let mut sem = Semaphore::new(u64::MAX);
    assert!(matches!(sem.signal_deferred(1), Err(SemaphoreError::CounterOverflow)));
    assert_eq!(sem.available(), u64::MAX);
    assert_eq!(wakes(&t), 0);
}

#[test]
fn deferred_release_hands_out_the_handle() {
    let b = task();
    let mut sem = Semaphore::new(3);
    let a = match sem.acquire_permit(3) {
        Ok(PermitAdmission::Granted(permit)) => permit,
        other => panic!("expected a permit, got {:?}", other),
    };
    assert_eq!(sem.acquire(2), Ok(Admission::Queued(0)));
    assert!(!sem.poll(0, waker(b.clone())));
    let handle = match a.release_deferred(&mut sem) {
        Ok(Some(handle)) => handle,
        _ => panic!("expected the handle of the head request"),
    };
    assert_eq!(sem.available(), 3);
    assert_eq!(wakes(&b), 0);
    handle.wake();
    assert_eq!(wakes(&b), 1);
    assert!(sem.poll(0, waker(b.clone())));
    assert_eq!(sem.acquire(2), Ok(Admission::Granted));
}

#[test]
fn requeued_request_is_resumed_through_the_handle_of_its_new_poll() {
    let early = task();
    let late = task();
    let other = task();
    let mut sem = Semaphore::new(0);
    assert_eq!(sem.acquire(1), Ok(Admission::Queued(0)));
    assert!(!sem.poll(0, waker(early.clone())));
    assert_eq!(sem.acquire(1), Ok(Admission::Queued(1)));
    assert!(!sem.poll(1, waker(other.clone())));
    assert_eq!(sem.signal(1), Ok(Some(0)));
    assert!(sem.poll(0, waker(early.clone())));
    // The retry goes to the tail and leaves a new handle there.
    assert_eq!(sem.acquire(1), Ok(Admission::Queued(2)));
    assert!(!sem.poll(2, waker(late.clone())));
    assert_eq!(sem.available(), 1);
    assert_eq!(sem.signal(0), Ok(Some(1)));
    assert_eq!(sem.signal(0), Ok(Some(2)));
    assert_eq!((wakes(&early), wakes(&other), wakes(&late)), (1, 1, 1));
}
