use crate::error::SemaphoreError;
use vstd::prelude::*;

verus! {

/// A request that waits in the queue: the ticket it was given on arrival and
/// the units it asks for.
#[derive(Clone, Copy, Debug, PartialEq, Eq, Structural)]
pub struct Request {
    pub ticket: u64,
    pub units: u64,
}

/// How one attempt to acquire ended, short of an error.
#[derive(Clone, Copy, Debug, PartialEq, Eq, Structural)]
pub enum Admission {
    /// The units were taken from the pool.
    Granted,
    /// The request waits in the queue under this ticket; its task is to
    /// suspend until resumed, and then to try again from the start.
    Queued(u64),
}

/// The semaphore as a mathematical value.
pub struct Model {
    /// Units that nobody holds.
    pub available: nat,
    /// The waiting requests, oldest first.
    pub queue: Seq<Request>,
    /// Once true, true for ever.
    pub closed: bool,
    /// How many tickets were handed out so far; the next ticket's number.
    pub issued: nat,
}

impl Model {
    /// An open semaphore with `avail` units and nobody waiting.
    pub open spec fn fresh(avail: nat) -> Model {
        Model { available: avail, queue: Seq::empty(), closed: false, issued: 0 }
    }

    /// Tickets in the queue grow from head to tail and were all handed out.
    pub open spec fn wf(self) -> bool {
        &&& forall|i: int| 0 <= i < self.queue.len() ==> (#[trigger] self.queue[i]).ticket < self.issued
        &&& forall|i: int, j: int|
            0 <= i < j < self.queue.len() ==> (#[trigger] self.queue[i]).ticket < (
            #[trigger] self.queue[j]).ticket
    }

    /// The tickets of the waiting requests, oldest first.
    pub open spec fn tickets(self) -> Seq<u64> {
        Seq::new(self.queue.len(), |i: int| self.queue[i].ticket)
    }

    /// A request for `units` is granted on the spot exactly when the semaphore is
    /// open, nobody waits, and the pool covers it.
    pub open spec fn grantable(self, units: nat) -> bool {
        !self.closed && self.queue.len() == 0 && units <= self.available
    }

    /// The state after `units` were granted.
    pub open spec fn granted(self, units: nat) -> Model {
        Model { available: (self.available - units) as nat, ..self }
    }

    /// The state after a request for `units` joined the tail of the queue.
    pub open spec fn enqueued(self, units: u64) -> Model {
        Model {
            queue: self.queue.push(Request { ticket: self.issued as u64, units }),
            issued: self.issued + 1,
            ..self
        }
    }

    /// A ticket is left to hand out.
    pub open spec fn has_ticket(self) -> bool {
        self.issued < u64::MAX
    }

    /// An attempt to acquire `units` can be answered: it needs no ticket, or
    /// one is left.
    pub open spec fn admits(self, units: u64) -> bool {
        self.closed || self.grantable(units as nat) || self.has_ticket()
    }

    /// What one attempt to acquire `units` answers: an error on a closed
    /// semaphore; a grant when that is possible; otherwise a place in the
    /// queue under the next ticket.
    pub open spec fn admission(self, units: u64) -> Result<Admission, SemaphoreError> {
        if self.closed {
            Err(SemaphoreError::Broken)
        } else if self.grantable(units as nat) {
            Ok(Admission::Granted)
        } else {
            Ok(Admission::Queued(self.issued as u64))
        }
    }

    /// The state after one attempt to acquire `units`.
    pub open spec fn admitted(self, units: u64) -> Model {
        if self.closed {
            self
        } else if self.grantable(units as nat) {
            self.granted(units as nat)
        } else {
            self.enqueued(units)
        }
    }

    /// There is a head request and the pool covers it.
    pub open spec fn head_ready(self) -> bool {
        self.queue.len() > 0 && self.queue[0].units <= self.available
    }

    /// The pool grown by `units`, the queue untouched.
    pub open spec fn refilled(self, units: nat) -> Model {
        Model { available: self.available + units, ..self }
    }

    /// The state after `units` came back: the pool grows, and the head request
    /// leaves the queue if the grown pool covers it. Nothing is taken from the
    /// pool for it.
    pub open spec fn released(self, units: nat) -> Model {
        let m = self.refilled(units);
        if m.head_ready() {
            Model { queue: m.queue.drop_first(), ..m }
        } else {
            m
        }
    }

    /// The ticket of the request that a release of `units` resumes, if any.
    pub open spec fn resumed(self, units: nat) -> Option<u64> {
        let m = self.refilled(units);
        if m.head_ready() {
            Some(m.queue[0].ticket)
        } else {
            None
        }
    }

    /// The state after closing: closed, and nobody waits any more.
    pub open spec fn shut(self) -> Model {
        Model { closed: true, queue: Seq::empty(), ..self }
    }

    /// Where in the queue the request with `ticket` waits.
    pub open spec fn waits_at(self, ticket: u64, i: int) -> bool {
        0 <= i < self.queue.len() && self.queue[i].ticket == ticket
    }

    /// The state after the request at place `i` of the queue gave up.
    pub open spec fn without(self, i: int) -> Model {
        Model { queue: self.queue.remove(i), ..self }
    }

    /// Some request in the queue carries `ticket`.
    pub open spec fn waits(self, ticket: u64) -> bool {
        exists|i: int| self.waits_at(ticket, i)
    }
}

/// Every transition keeps the queue's tickets growing and handed out.
pub proof fn lemma_wf_kept(m: Model, units: u64, i: int)
    requires
        m.wf(),
        m.issued <= u64::MAX,
    ensures
        Model::fresh(units as nat).wf(),
        m.granted(units as nat).wf(),
        m.has_ticket() ==> m.enqueued(units).wf(),
        m.admits(units) ==> m.admitted(units).wf(),
        m.released(units as nat).wf(),
        m.shut().wf(),
        0 <= i < m.queue.len() ==> m.without(i).wf(),
{
    if m.issued < u64::MAX {
        let e = m.enqueued(units);
        assert forall|a: int, b: int| 0 <= a < b < e.queue.len() implies (#[trigger] e.queue[a]).ticket
            < (#[trigger] e.queue[b]).ticket by {
            assert(e.queue[a] == m.queue[a]);
            if b < m.queue.len() {
                assert(e.queue[b] == m.queue[b]);
            }
        }
        assert forall|a: int| 0 <= a < e.queue.len() implies (#[trigger] e.queue[a]).ticket
            < e.issued by {
            if a < m.queue.len() {
                assert(e.queue[a] == m.queue[a]);
            }
        }
    }
    let r = m.released(units as nat);
    assert forall|a: int, b: int| 0 <= a < b < r.queue.len() implies (#[trigger] r.queue[a]).ticket
        < (#[trigger] r.queue[b]).ticket by {
        if r.queue.len() < m.queue.len() {
            assert(r.queue[a] == m.queue[a + 1]);
            assert(r.queue[b] == m.queue[b + 1]);
        }
    }
    assert forall|a: int| 0 <= a < r.queue.len() implies (#[trigger] r.queue[a]).ticket
        < r.issued by {
        if r.queue.len() < m.queue.len() {
            assert(r.queue[a] == m.queue[a + 1]);
        }
    }
    if 0 <= i < m.queue.len() {
        let w = m.without(i);
        assert forall|a: int, b: int| 0 <= a < b < w.queue.len() implies (#[trigger] w.queue[a]).ticket
            < (#[trigger] w.queue[b]).ticket by {
            let ma = if a < i { a } else { a + 1 };
            let mb = if b < i { b } else { b + 1 };
            assert(w.queue[a] == m.queue[ma]);
            assert(w.queue[b] == m.queue[mb]);
        }
        assert forall|a: int| 0 <= a < w.queue.len() implies (#[trigger] w.queue[a]).ticket
            < w.issued by {
            let ma = if a < i { a } else { a + 1 };
            assert(w.queue[a] == m.queue[ma]);
        }
    }
}

/// No two waiting requests carry the same ticket.
pub proof fn lemma_tickets_differ(m: Model, i: int, j: int)
    requires
        m.wf(),
        0 <= i < m.queue.len(),
        0 <= j < m.queue.len(),
        i != j,
    ensures
        m.queue[i].ticket != m.queue[j].ticket,
{
    if i < j {
        assert(m.queue[i].ticket < m.queue[j].ticket);
    } else {
        assert(m.queue[j].ticket < m.queue[i].ticket);
    }
}

} // verus!
