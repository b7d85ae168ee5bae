use futures::task::Waker;
use vstd::prelude::*;

verus! {

/// `futures::task::Waker`, under which `futures` hands on the standard
/// library's `Waker`: the handle by which a scheduler is told that a suspended
/// task can run again. Nothing is known of what is inside one.
#[verifier::external_type_specification]
#[verifier::external_body]
pub struct ExWaker(futures::task::Waker);

/// Calls `Waker::wake`, which tells the scheduler behind the handle to poll
/// its task again and uses the handle up. What the scheduler then does is
/// outside this library, so nothing is claimed of it.
#[verifier::external_body]
pub(crate) fn notify(waker: Waker) {
    waker.wake()
}

/// A waiter as a mathematical value.
pub struct WaiterView {
    /// The units it asks for.
    pub units: u64,
    /// Whether it was told to go on.
    pub woken: bool,
    /// The handle to resume its task with, if it holds one.
    pub handle: Option<Waker>,
}

impl WaiterView {
    /// A waiter that was neither polled nor resumed.
    pub open spec fn fresh(units: u64) -> WaiterView {
        WaiterView { units, woken: false, handle: None }
    }

    /// Whether it holds a handle to resume its task with.
    pub open spec fn armed(self) -> bool {
        self.handle is Some
    }

    /// The waiter after one poll that handed in `waker`: a woken one is as it
    /// was, any other holds `waker` and no earlier handle.
    pub open spec fn polled(self, waker: Waker) -> WaiterView {
        if self.woken {
            self
        } else {
            WaiterView { handle: Some(waker), ..self }
        }
    }

    /// The waiter after it was resumed: woken if it held a handle, and
    /// without a handle in any case.
    pub open spec fn resumed(self) -> WaiterView {
        WaiterView { woken: self.woken || self.armed(), handle: None, ..self }
    }
}

/// A request in flight, as the suspended task sees it: the units it asks for,
/// whether it was resumed, and the handle by which to resume it.
#[derive(Debug)]
pub struct Waiter {
    units: u64,
    woken: bool,
    waker: Option<Waker>,
}

impl View for Waiter {
    type V = WaiterView;

    closed spec fn view(&self) -> WaiterView {
        WaiterView { units: self.units, woken: self.woken, handle: self.waker }
    }
}

impl Waiter {
    /// The handle that the waiter holds, if any.
    pub open spec fn handle(&self) -> Option<Waker> {
        self@.handle
    }

    /// A waiter for `units` that was neither polled nor woken.
    pub fn new(units: u64) -> (w: Waiter)
        ensures
            w@ == WaiterView::fresh(units),
    {
        Waiter { units, woken: false, waker: None }
    }

    /// The units it asks for.
    pub fn units(&self) -> (units: u64)
        ensures
            units == self@.units,
    {
        self.units
    }

    /// Whether it was told to go on.
    pub fn is_woken(&self) -> (woken: bool)
        ensures
            woken == self@.woken,
    {
        self.woken
    }

    /// One poll by the scheduler, which hands in the handle of the polling
    /// task. A woken waiter is ready and keeps what it holds. Any other keeps
    /// the new handle in place of an older one and is not ready. No handle is
    /// called.
    pub fn poll(&mut self, waker: Waker) -> (ready: bool)
        ensures
            ready == old(self)@.woken,
            final(self)@ == old(self)@.polled(waker),
            !old(self)@.woken ==> final(self).handle() == Some(waker),
            old(self)@.woken ==> final(self).handle() == old(self).handle(),
    {
        if self.woken {
            return true;
        }
        self.waker = Some(waker);
        false
    }

    /// Marks the waiter as resumed and gives out the handle it held, for the
    /// caller to tell the scheduler with. With a handle in hand the waiter
    /// becomes woken; without one nothing changes: there is no task to tell
    /// yet.
    pub fn resume(&mut self) -> (handle: Option<Waker>)
        ensures
            handle == old(self).handle(),
            final(self)@ == old(self)@.resumed(),
            final(self).handle() is None,
    {
        let handle: Option<Waker> = self.waker.take();
        if handle.is_some() {
            self.woken = true;
        }
        handle
    }

    /// Resumes the task, once: as `resume`, and the scheduler is told through
    /// the handle that the waiter held.
    pub fn wake(&mut self)
        ensures
            final(self)@ == old(self)@.resumed(),
            final(self).handle() is None,
    {
        match self.resume() {
            Some(waker) => {
                notify(waker);
            },
            None => {},
        }
    }
}

} // verus!
