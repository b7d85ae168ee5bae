use futures::task::{waker, ArcWake};
use local_semaphore::waiter::Waiter;
use std::sync::atomic::{AtomicUsize, Ordering};
use std::sync::Arc;

struct Counter {
    wakes: AtomicUsize,
}

impl ArcWake for Counter {
    fn wake_by_ref(arc_self: &Arc<Self>) {
        arc_self.wakes.fetch_add(1, Ordering::SeqCst);
    }
}

fn counter() -> Arc<Counter> {
    Arc::new(Counter { wakes: AtomicUsize::new(0) })
}

#[test]
fn new_waiter_is_not_woken() {
    let w = Waiter::new(6);
    assert_eq!(w.units(), 6);
    assert!(!w.is_woken());
}

#[test]
fn poll_before_wake_is_pending() {
    let c = counter();
    let mut w = Waiter::new(1);
    assert!(!w.poll(waker(c.clone())));
    assert!(!w.poll(waker(c.clone())));
    assert!(!w.is_woken());
    assert_eq!(c.wakes.load(Ordering::SeqCst), 0);
}

#[test]
fn wake_tells_the_scheduler_once() {
    let c = counter();
    let mut w = Waiter::new(1);
    assert!(!w.poll(waker(c.clone())));
    w.wake();
    assert!(w.is_woken());
    assert_eq!(c.wakes.load(Ordering::SeqCst), 1);
    w.wake();
    assert_eq!(c.wakes.load(Ordering::SeqCst), 1);
    assert!(w.poll(waker(c.clone())));
    assert!(w.is_woken());
}

#[test]
fn wake_uses_the_latest_handle() {
    let first = counter();
    let second = counter();
    let mut w = Waiter::new(1);
    assert!(!w.poll(waker(first.clone())));
    assert!(!w.poll(waker(second.clone())));
    w.wake();
    assert_eq!(first.wakes.load(Ordering::SeqCst), 0);
    assert_eq!(second.wakes.load(Ordering::SeqCst), 1);
}

#[test]
fn wake_without_a_handle_does_nothing() {
    let c = counter();
    let mut w = Waiter::new(1);
    w.wake();
    assert!(!w.is_woken());
    assert!(!w.poll(waker(c.clone())));
    assert_eq!(c.wakes.load(Ordering::SeqCst), 0);
}

#[test]
fn resume_hands_out_the_latest_handle_uncalled() {
    let first = counter();
    let second = counter();
    let mut w = Waiter::new(2);
    assert!(w.resume().is_none());
    assert!(!w.is_woken());
    assert!(!w.poll(waker(first.clone())));
    assert!(!w.poll(waker(second.clone())));
    let handle = w.resume().expect("a polled waiter holds a handle");
    assert!(w.is_woken());
    assert_eq!(first.wakes.load(Ordering::SeqCst), 0);
    assert_eq!(second.wakes.load(Ordering::SeqCst), 0);
    handle.wake();
    assert_eq!(first.wakes.load(Ordering::SeqCst), 0);
    assert_eq!(second.wakes.load(Ordering::SeqCst), 1);
    assert!(w.resume().is_none());
    assert!(w.is_woken());
}
