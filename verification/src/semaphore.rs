use crate::error::SemaphoreError;
use crate::model::{Admission, Model};
use crate::state::State;
use crate::laws::lemma_signal_resumes_head;
use crate::waiter::{notify, Waiter, WaiterView};
use futures::task::Waker;
use std::collections::HashMap;
use vstd::prelude::*;

verus! {

/// Units taken from a semaphore, to be given back exactly once. A permit
/// cannot be copied, and giving it back uses it up.
#[derive(Debug)]
pub struct Permit {
    units: u64,
}

impl View for Permit {
    type V = u64;

    closed spec fn view(&self) -> u64 {
        self.units
    }
}

/// How one attempt to acquire a permit ended, short of an error.
#[derive(Debug)]
pub enum PermitAdmission {
    /// The units were taken from the pool; the permit holds them.
    Granted(Permit),
    /// The request waits in the queue under this ticket.
    Queued(u64),
}

/// The waiters of a map, each as a mathematical value.
spec fn views(waiters: Map<u64, Waiter>) -> Map<u64, WaiterView> {
    Map::new(|t: u64| waiters.contains_key(t), |t: u64| waiters[t]@)
}

/// The waiters after the one under `ticket`, if there is one, was resumed.
pub open spec fn resumed_one(waiters: Map<u64, WaiterView>, ticket: Option<u64>) -> Map<
    u64,
    WaiterView,
> {
    match ticket {
        Some(t) => if waiters.contains_key(t) {
            waiters.insert(t, waiters[t].resumed())
        } else {
            waiters
        },
        None => waiters,
    }
}

/// The waiters after each one whose ticket is among `tickets` was resumed.
pub open spec fn resumed_all(waiters: Map<u64, WaiterView>, tickets: Seq<u64>) -> Map<
    u64,
    WaiterView,
> {
    Map::new(
        |t: u64| waiters.contains_key(t),
        |t: u64| if tickets.contains(t) {
            waiters[t].resumed()
        } else {
            waiters[t]
        },
    )
}

/// The waiters after the one under `ticket`, if there is one, was polled: a
/// woken one is done and leaves, any other stays with a handle.
pub open spec fn polled_one(waiters: Map<u64, WaiterView>, ticket: u64, waker: Waker) -> Map<
    u64,
    WaiterView,
> {
    if !waiters.contains_key(ticket) {
        waiters
    } else if waiters[ticket].woken {
        waiters.remove(ticket)
    } else {
        waiters.insert(ticket, waiters[ticket].polled(waker))
    }
}

/// The waiters after one attempt to acquire `units` that was answered with
/// `admission`: a request that was queued has a new waiter under its ticket.
pub open spec fn admitted_one(
    waiters: Map<u64, WaiterView>,
    admission: Result<Admission, SemaphoreError>,
    units: u64,
) -> Map<u64, WaiterView> {
    match admission {
        Ok(Admission::Queued(ticket)) => waiters.insert(ticket, WaiterView::fresh(units)),
        _ => waiters,
    }
}

/// Every request in the queue has a waiter for the same units that was not
/// resumed.
pub open spec fn attended(m: Model, waiters: Map<u64, WaiterView>) -> bool {
    forall|i: int|
        #![trigger m.queue[i]]
        0 <= i < m.queue.len() ==> {
            &&& waiters.contains_key(m.queue[i].ticket)
            &&& waiters[m.queue[i].ticket].units == m.queue[i].units
            &&& !waiters[m.queue[i].ticket].woken
        }
}

/// The handle that the waiter under `ticket` holds, if there is such a
/// waiter and it holds one.
pub open spec fn held(waiters: Map<u64, WaiterView>, ticket: Option<u64>) -> Option<Waker> {
    match ticket {
        Some(t) => if waiters.contains_key(t) {
            waiters[t].handle
        } else {
            None
        },
        None => None,
    }
}

/// Marks the waiter under `ticket`, if there is one, as resumed and gives out
/// the handle that it held.
fn resume_one(waiters: &mut HashMap<u64, Waiter>, ticket: u64) -> (handle: Option<Waker>)
    ensures
        views(final(waiters)@) == resumed_one(views(old(waiters)@), Some(ticket)),
        handle == held(views(old(waiters)@), Some(ticket)),
{
    match waiters.remove(&ticket) {
        Some(waiter) => {
            let mut waiter = waiter;
            let handle: Option<Waker> = waiter.resume();
            waiters.insert(ticket, waiter);
            assert(views(waiters@) =~= resumed_one(views(old(waiters)@), Some(ticket)));
            handle
        },
        None => {
            assert(views(waiters@) =~= views(old(waiters)@));
            None
        },
    }
}

/// Resumes the waiter under `ticket`, if there is one, and tells the
/// scheduler through the handle that it held.
fn wake_one(waiters: &mut HashMap<u64, Waiter>, ticket: u64)
    ensures
        views(final(waiters)@) == resumed_one(views(old(waiters)@), Some(ticket)),
{
    match resume_one(waiters, ticket) {
        Some(waker) => {
            notify(waker);
        },
        None => {},
    }
}

/// A counting semaphore that serves requests first come, first served: the
/// pool and the queue, and for every request that waits or was resumed and
/// has not yet looked, its waiter.
#[derive(Debug)]
pub struct Semaphore {
    state: State,
    waiters: HashMap<u64, Waiter>,
}

impl View for Semaphore {
    type V = Model;

    closed spec fn view(&self) -> Model {
        self.state@
    }
}

impl Permit {
    /// The units that the permit holds.
    pub fn units(&self) -> (units: u64)
        ensures
            units == self@,
    {
        self.units
    }

    /// Gives the permit's units back to `sem`, as `Semaphore::signal` does with
    /// that many units, and says which waiting task was resumed.
    pub fn release(self, sem: &mut Semaphore) -> (r: Result<Option<u64>, SemaphoreError>)
        requires
            old(sem).wf(),
        ensures
            final(sem).wf(),
            old(sem)@.available + self@ > u64::MAX ==> r == Err::<Option<u64>, SemaphoreError>(
                SemaphoreError::CounterOverflow,
            ) && final(sem)@ == old(sem)@ && final(sem).waiters() == old(sem).waiters(),
            old(sem)@.available + self@ <= u64::MAX ==> r == Ok::<Option<u64>, SemaphoreError>(
                old(sem)@.resumed(self@ as nat),
            ) && final(sem)@ == old(sem)@.released(self@ as nat) && final(sem).waiters()
                == resumed_one(old(sem).waiters(), old(sem)@.resumed(self@ as nat)),
    {
        sem.signal(self.units)
    }

    /// As `release`, but the scheduler is not told: the handle of the resumed
    /// waiter comes back, to be called once the caller has let go of `sem`.
    pub fn release_deferred(self, sem: &mut Semaphore) -> (r: Result<Option<Waker>, SemaphoreError>)
        requires
            old(sem).wf(),
        ensures
            final(sem).wf(),
            old(sem)@.available + self@ > u64::MAX ==> r == Err::<Option<Waker>, SemaphoreError>(
                SemaphoreError::CounterOverflow,
            ) && final(sem)@ == old(sem)@ && final(sem).waiters() == old(sem).waiters(),
            old(sem)@.available + self@ <= u64::MAX ==> r == Ok::<Option<Waker>, SemaphoreError>(
                held(old(sem).waiters(), old(sem)@.resumed(self@ as nat)),
            ) && final(sem)@ == old(sem)@.released(self@ as nat) && final(sem).waiters()
                == resumed_one(old(sem).waiters(), old(sem)@.resumed(self@ as nat)),
    {
        sem.signal_deferred(self.units)
    }
}

impl Semaphore {
    /// The waiters by ticket.
    pub closed spec fn waiters(&self) -> Map<u64, WaiterView> {
        views(self.waiters@)
    }

    /// The handle that the waiter under `ticket` holds, if there is such a
    /// waiter and it holds one.
    pub open spec fn handle_of(&self, ticket: u64) -> Option<Waker> {
        held(self.waiters(), Some(ticket))
    }

    /// The queue is in order, every request in it has a waiter for the same
    /// units that was not resumed, and every waiter's ticket was handed out.
    pub open spec fn wf(&self) -> bool {
        &&& self@.wf()
        &&& attended(self@, self.waiters())
        &&& forall|t: u64| #[trigger] self.waiters().contains_key(t) ==> t < self@.issued
    }

    /// An open semaphore with `avail` units and nobody waiting.
    pub fn new(avail: u64) -> (sem: Semaphore)
        ensures
            sem@ == Model::fresh(avail as nat),
            sem.waiters() == Map::<u64, WaiterView>::empty(),
            sem.wf(),
    {
        let sem = Semaphore { state: State::new(avail), waiters: HashMap::new() };
        assert(sem.waiters() =~= Map::<u64, WaiterView>::empty());
        sem
    }

    /// The units that nobody holds.
    pub fn available(&self) -> (n: u64)
        ensures
            n == self@.available,
    {
        self.state.available()
    }

    /// Whether the semaphore was closed.
    pub fn is_closed(&self) -> (closed: bool)
        ensures
            closed == self@.closed,
    {
        self.state.is_closed()
    }

    /// How many requests wait.
    pub fn waiting(&self) -> (n: usize)
        ensures
            n == self@.queue.len(),
    {
        self.state.waiting()
    }

    /// How many tickets were handed out so far.
    pub fn tickets_issued(&self) -> (n: u64)
        ensures
            n == self@.issued,
    {
        self.state.tickets_issued()
    }

    /// Whether an attempt to acquire `units` can be answered now: it needs no
    /// ticket, or one is left.
    pub fn admits(&self, units: u64) -> (yes: bool)
        ensures
            yes == self@.admits(units),
    {
        self.state.is_closed() || (self.state.waiting() == 0 && units <= self.state.available())
            || self.state.tickets_issued() < u64::MAX
    }

    /// Whether there is a waiter under `ticket`.
    pub fn is_suspended(&self, ticket: u64) -> (found: bool)
        ensures
            found == self.waiters().contains_key(ticket),
    {
        self.waiters.contains_key(&ticket)
    }

    /// One attempt to take `units`, which the caller gives back later with
    /// `signal`. A closed semaphore refuses. An open one grants when nobody
    /// waits and the pool covers the request; otherwise the request joins the
    /// tail of the queue with a new waiter that holds no handle yet, and the
    /// caller suspends on the returned ticket until resumed, then calls again.
    /// A request that has to queue needs a ticket: `admits` says whether the
    /// attempt can be answered.
    pub fn acquire(&mut self, units: u64) -> (r: Result<Admission, SemaphoreError>)
        requires
            old(self).wf(),
            old(self)@.admits(units),
        ensures
            final(self).wf(),
            r == old(self)@.admission(units),
            final(self)@ == old(self)@.admitted(units),
            final(self).waiters() == admitted_one(old(self).waiters(), r, units),
            r matches Ok(Admission::Queued(ticket)) ==> final(self).handle_of(ticket) is None,
    {
        if self.state.try_acquire(units)? {
            return Ok(Admission::Granted);
        }
        let ticket: u64 = self.state.queue(units);
        self.waiters.insert(ticket, Waiter::new(units));
        proof {
            let before = old(self)@.queue;
            let after = self@.queue;
            assert(self.waiters() =~= old(self).waiters().insert(ticket, WaiterView::fresh(units)));
            assert forall|i: int| 0 <= i < after.len() implies {
                let r = #[trigger] after[i];
                &&& self.waiters().contains_key(r.ticket)
                &&& self.waiters()[r.ticket].units == r.units
                &&& !self.waiters()[r.ticket].woken
            } by {
                if i < before.len() {
                    assert(after[i] == before[i]);
                }
            }
        }
        Ok(Admission::Queued(ticket))
    }

    /// As `acquire`, but a grant comes as a permit that holds the units.
    pub fn acquire_permit(&mut self, units: u64) -> (r: Result<PermitAdmission, SemaphoreError>)
        requires
            old(self).wf(),
            old(self)@.admits(units),
        ensures
            final(self).wf(),
            final(self)@ == old(self)@.admitted(units),
            final(self).waiters() == admitted_one(
                old(self).waiters(),
                old(self)@.admission(units),
                units,
            ),
            match old(self)@.admission(units) {
                Ok(Admission::Granted) => r matches Ok(PermitAdmission::Granted(permit))
                    && permit@ == units,
                Ok(Admission::Queued(ticket)) => r == Ok::<PermitAdmission, SemaphoreError>(
                    PermitAdmission::Queued(ticket),
                ),
                Err(e) => r == Err::<PermitAdmission, SemaphoreError>(e),
            },
    {
        match self.acquire(units) {
            Ok(Admission::Granted) => Ok(PermitAdmission::Granted(Permit { units })),
            Ok(Admission::Queued(ticket)) => Ok(PermitAdmission::Queued(ticket)),
            Err(e) => Err(e),
        }
    }

    /// One poll of the waiter under `ticket` by the scheduler, which hands in
    /// the handle of the polling task. Ready, which ends the wait, when the
    /// waiter was resumed or there is none; the waiter is then gone. Not ready
    /// otherwise: the waiter keeps the handle, to be resumed through it. The
    /// pool and the queue are not touched.
    pub fn poll(&mut self, ticket: u64, waker: Waker) -> (ready: bool)
        requires
            old(self).wf(),
        ensures
            final(self).wf(),
            final(self)@ == old(self)@,
            ready == (old(self).waiters().contains_key(ticket) ==> old(self).waiters()[ticket].woken),
            final(self).waiters() == polled_one(old(self).waiters(), ticket, waker),
            !ready ==> final(self).handle_of(ticket) == Some(waker),
            ready ==> final(self).handle_of(ticket) is None,
    {
        match self.waiters.remove(&ticket) {
            Some(waiter) => {
                let mut waiter = waiter;
                if waiter.poll(waker) {
                    assert(self.waiters() =~= old(self).waiters().remove(ticket));
                    true
                } else {
                    self.waiters.insert(ticket, waiter);
                    assert(self.waiters() =~= polled_one(old(self).waiters(), ticket, waker));
                    false
                }
            },
            None => {
                assert(self.waiters() =~= old(self).waiters());
                true
            },
        }
    }

    /// Gives `units` back to the pool and resumes the head request if the grown
    /// pool covers it. Returns the ticket that was resumed and the handle that
    /// its waiter held.
    fn give_back(&mut self, units: u64) -> (r: Result<(Option<u64>, Option<Waker>), SemaphoreError>)
        requires
            old(self).wf(),
        ensures
            final(self).wf(),
            old(self)@.available + units > u64::MAX ==> r == Err::<
                (Option<u64>, Option<Waker>),
                SemaphoreError,
            >(SemaphoreError::CounterOverflow) && final(self)@ == old(self)@
                && final(self).waiters() == old(self).waiters(),
            old(self)@.available + units <= u64::MAX ==> r == Ok::<
                (Option<u64>, Option<Waker>),
                SemaphoreError,
            >(
                (
                    old(self)@.resumed(units as nat),
                    held(old(self).waiters(), old(self)@.resumed(units as nat)),
                ),
            ) && final(self)@ == old(self)@.released(units as nat) && final(self).waiters()
                == resumed_one(old(self).waiters(), old(self)@.resumed(units as nat)),
    {
        let resumed: Option<u64> = self.state.signal(units)?;
        match resumed {
            Some(ticket) => {
                let handle: Option<Waker> = resume_one(&mut self.waiters, ticket);
                proof {
                    lemma_signal_resumes_head(old(self)@, old(self).waiters(), units);
                }
                Ok((resumed, handle))
            },
            None => Ok((resumed, None)),
        }
    }

    /// Gives `units` back to the pool. If the grown pool covers the request at
    /// the head of the queue, that request leaves the queue, its waiter is
    /// resumed, the scheduler is told through the handle that the waiter held,
    /// and the ticket is returned. At most one request is resumed, and nothing
    /// is taken from the pool for it: its task tries again. A sum past
    /// `u64::MAX` is refused and changes nothing.
    pub fn signal(&mut self, units: u64) -> (r: Result<Option<u64>, SemaphoreError>)
        requires
            old(self).wf(),
        ensures
            final(self).wf(),
            old(self)@.available + units > u64::MAX ==> r == Err::<Option<u64>, SemaphoreError>(
                SemaphoreError::CounterOverflow,
            ) && final(self)@ == old(self)@ && final(self).waiters() == old(self).waiters(),
            old(self)@.available + units <= u64::MAX ==> r == Ok::<Option<u64>, SemaphoreError>(
                old(self)@.resumed(units as nat),
            ) && final(self)@ == old(self)@.released(units as nat) && final(self).waiters()
                == resumed_one(old(self).waiters(), old(self)@.resumed(units as nat)),
            r matches Ok(Some(ticket)) ==> final(self).handle_of(ticket) is None,
    {
        match self.give_back(units) {
            Ok((resumed, handle)) => {
                match handle {
                    Some(waker) => {
                        notify(waker);
                    },
                    None => {},
                }
                Ok(resumed)
            },
            Err(e) => Err(e),
        }
    }

    /// As `signal`, but the scheduler is not told: the handle that the resumed
    /// waiter held comes back in place of the ticket, to be called once the
    /// caller has let go of the semaphore.
    pub fn signal_deferred(&mut self, units: u64) -> (r: Result<Option<Waker>, SemaphoreError>)
        requires
            old(self).wf(),
        ensures
            final(self).wf(),
            old(self)@.available + units > u64::MAX ==> r == Err::<Option<Waker>, SemaphoreError>(
                SemaphoreError::CounterOverflow,
            ) && final(self)@ == old(self)@ && final(self).waiters() == old(self).waiters(),
            old(self)@.available + units <= u64::MAX ==> r == Ok::<Option<Waker>, SemaphoreError>(
                held(old(self).waiters(), old(self)@.resumed(units as nat)),
            ) && final(self)@ == old(self)@.released(units as nat) && final(self).waiters()
                == resumed_one(old(self).waiters(), old(self)@.resumed(units as nat)),
    {
        match self.give_back(units) {
            Ok((_, handle)) => Ok(handle),
            Err(e) => Err(e),
        }
    }

    /// Closes the semaphore for good and resumes the waiter of every request
    /// in the queue. Returns their tickets, oldest first. Each of their tasks
    /// tries again and fails.
    pub fn close(&mut self) -> (woken: Vec<u64>)
        requires
            old(self).wf(),
        ensures
            final(self).wf(),
            final(self)@ == old(self)@.shut(),
            woken@ == old(self)@.tickets(),
            final(self).waiters() == resumed_all(old(self).waiters(), woken@),
            forall|i: int|
                0 <= i < woken@.len() ==> final(self).handle_of(#[trigger] woken@[i]) is None,
    {
        let woken: Vec<u64> = self.state.close();
        let mut at: usize = 0;
        assert(self.waiters() =~= resumed_all(old(self).waiters(), woken@.take(0)));
        while at < woken.len()
            invariant
                at <= woken.len(),
                self@ == old(self)@.shut(),
                self@.wf(),
                self.waiters() == resumed_all(old(self).waiters(), woken@.take(at as int)),
            decreases woken.len() - at,
        {
            let ticket: u64 = woken[at];
            wake_one(&mut self.waiters, ticket);
            proof {
                let start = old(self).waiters();
                let done = woken@.take(at as int);
                let next = woken@.take(at + 1);
                assert(next[at as int] == ticket);
                assert forall|t: u64| next.contains(t) <==> (done.contains(t) || t == ticket) by {
                    if next.contains(t) {
                        let k = choose|k: int| 0 <= k < next.len() && next[k] == t;
                        if k < at {
                            assert(done[k] == t);
                        }
                    }
                    if done.contains(t) {
                        let k = choose|k: int| 0 <= k < done.len() && done[k] == t;
                        assert(next[k] == t);
                    }
                }
                assert(self.waiters() =~= resumed_all(start, next));
            }
            at = at + 1;
        }
        assert(woken@.take(at as int) =~= woken@);
        woken
    }

    /// Takes the request with `ticket` out of the queue, and its waiter away.
    /// Says whether the request was in the queue. For a task that is dropped
    /// while it waits.
    pub fn cancel(&mut self, ticket: u64) -> (found: bool)
        requires
            old(self).wf(),
        ensures
            final(self).wf(),
            found == old(self)@.waits(ticket),
            found ==> exists|i: int| #[trigger]
                old(self)@.waits_at(ticket, i) && final(self)@ == old(self)@.without(i),
            !found ==> final(self)@ == old(self)@,
            final(self).waiters() == old(self).waiters().remove(ticket),
            final(self).handle_of(ticket) is None,
    {
        let found: bool = self.state.cancel(ticket);
        let _ = self.waiters.remove(&ticket);
        proof {
            assert(self.waiters() =~= old(self).waiters().remove(ticket));
            let before = old(self)@.queue;
            let after = self@.queue;
            if found {
                let at = choose|i: int| #[trigger]
                    old(self)@.waits_at(ticket, i) && self@ == old(self)@.without(i);
                assert forall|i: int| 0 <= i < after.len() implies {
                    let r = #[trigger] after[i];
                    &&& self.waiters().contains_key(r.ticket)
                    &&& self.waiters()[r.ticket].units == r.units
                    &&& !self.waiters()[r.ticket].woken
                } by {
                    let b = if i < at { i } else { i + 1 };
                    assert(after[i] == before[b]);
                    if b < at {
                        assert(before[b].ticket < before[at].ticket);
                    } else {
                        assert(before[at].ticket < before[b].ticket);
                    }
                }
            } else {
                assert forall|i: int| 0 <= i < after.len() implies (#[trigger] after[i]).ticket
                    != ticket by {
                    assert(!old(self)@.waits_at(ticket, i));
                }
            }
        }
        found
    }
}

} // verus!
