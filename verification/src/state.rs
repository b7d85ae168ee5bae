use crate::error::SemaphoreError;
use crate::model::{lemma_wf_kept, Model, Request};
use std::collections::VecDeque;
use vstd::prelude::*;

verus! {

/// The mutable core of a semaphore: the pool, the queue and the closed flag.
#[derive(Debug)]
pub struct State {
    avail: u64,
    list: VecDeque<Request>,
    closed: bool,
    next_ticket: u64,
}

impl View for State {
    type V = Model;

    closed spec fn view(&self) -> Model {
        Model {
            available: self.avail as nat,
            queue: self.list@,
            closed: self.closed,
            issued: self.next_ticket as nat,
        }
    }
}

impl State {
    /// An open state with `avail` units and an empty queue.
    pub fn new(avail: u64) -> (s: State)
        ensures
            s@ == Model::fresh(avail as nat),
            s@.wf(),
    {
        State { avail, list: VecDeque::new(), closed: false, next_ticket: 0 }
    }

    /// The units that nobody holds.
    pub fn available(&self) -> (n: u64)
        ensures
            n == self@.available,
    {
        self.avail
    }

    /// One attempt to take `units` at once. A closed state refuses. An open one
    /// grants exactly when nobody waits and the pool covers the request, and
    /// otherwise answers "not yet" and stays as it was.
    pub fn try_acquire(&mut self, units: u64) -> (r: Result<bool, SemaphoreError>)
        requires
            old(self)@.wf(),
        ensures
            final(self)@.wf(),
            old(self)@.closed ==> r == Err::<bool, SemaphoreError>(SemaphoreError::Broken)
                && final(self)@ == old(self)@,
            old(self)@.grantable(units as nat) ==> r == Ok::<bool, SemaphoreError>(true)
                && final(self)@ == old(self)@.granted(units as nat),
            !old(self)@.closed && !old(self)@.grantable(units as nat) ==> r == Ok::<
                bool,
                SemaphoreError,
            >(false) && final(self)@ == old(self)@,
    {
        if self.closed {
            return Err(SemaphoreError::Broken);
        }
        if self.list.len() == 0 && self.avail >= units {
            self.avail = self.avail - units;
            return Ok(true);
        }
        Ok(false)
    }

    /// How many tickets were handed out so far.
    pub fn tickets_issued(&self) -> (n: u64)
        ensures
            n == self@.issued,
    {
        self.next_ticket
    }

    /// Puts a request for `units` at the tail of the queue, behind all that
    /// wait, and returns its ticket, the number of tickets handed out before
    /// it. The pool and the closed flag stay as they were. The ticket counter
    /// is a `u64`: it must not be exhausted.
    pub fn queue(&mut self, units: u64) -> (ticket: u64)
        requires
            old(self)@.wf(),
            old(self)@.has_ticket(),
        ensures
            final(self)@.wf(),
            ticket == old(self)@.issued,
            final(self)@ == old(self)@.enqueued(units),
    {
        let ticket: u64 = self.next_ticket;
        self.list.push_back(Request { ticket, units });
        self.next_ticket = ticket + 1;
        proof {
            lemma_wf_kept(old(self)@, units, 0);
        }
        ticket
    }

    /// Gives `units` back to the pool and then looks at the head of the queue
    /// only: if the grown pool covers the head request, that request leaves the
    /// queue and its ticket is returned, so that its task can be resumed and try
    /// again. Nothing is taken from the pool on its behalf, and at most one
    /// request leaves. A sum past `u64::MAX` is refused and changes nothing.
    pub fn signal(&mut self, units: u64) -> (r: Result<Option<u64>, SemaphoreError>)
        requires
            old(self)@.wf(),
        ensures
            final(self)@.wf(),
            old(self)@.available + units > u64::MAX ==> r == Err::<Option<u64>, SemaphoreError>(
                SemaphoreError::CounterOverflow,
            ) && final(self)@ == old(self)@,
            old(self)@.available + units <= u64::MAX ==> r == Ok::<Option<u64>, SemaphoreError>(
                old(self)@.resumed(units as nat),
            ) && final(self)@ == old(self)@.released(units as nat),
    {
        let sum: u64 = match self.avail.checked_add(units) {
            Some(sum) => sum,
            None => {
                return Err(SemaphoreError::CounterOverflow);
            },
        };
        self.avail = sum;
        if self.list.len() > 0 {
            let head: Request = self.list[0];
            if head.units <= self.avail {
                let _ = self.list.pop_front();
                assert(self@.queue =~= old(self)@.queue.drop_first());
                return Ok(Some(head.ticket));
            }
        }
        Ok(None)
    }

    /// Closes the state for good and empties the queue. Returns the tickets of
    /// all requests that were waiting, oldest first: each of their tasks is to
    /// be resumed, and will find the state closed. The pool is left alone.
    pub fn close(&mut self) -> (woken: Vec<u64>)
        requires
            old(self)@.wf(),
        ensures
            final(self)@.wf(),
            final(self)@ == old(self)@.shut(),
            woken@ == old(self)@.tickets(),
    {
        let ghost before = self@;
        self.closed = true;
        let mut woken: Vec<u64> = Vec::new();
        loop
            invariant
                self.avail == before.available,
                self.next_ticket == before.issued,
                self.closed,
                woken@.len() <= before.queue.len(),
                self.list@ == before.queue.skip(woken@.len() as int),
                forall|i: int| 0 <= i < woken@.len() ==> woken@[i] == before.queue[i].ticket,
            ensures
                self.list@.len() == 0,
            decreases self.list@.len(),
        {
            match self.list.pop_front() {
                Some(request) => {
                    woken.push(request.ticket);
                    assert(self.list@ =~= before.queue.skip(woken@.len() as int));
                },
                None => {
                    break ;
                },
            }
        }
        assert(self@.queue =~= Seq::<Request>::empty());
        assert(woken@ =~= before.tickets());
        woken
    }

    /// Takes the request with `ticket` out of the queue, wherever it waits, and
    /// says whether it was there. For a task that gives up while suspended.
    pub fn cancel(&mut self, ticket: u64) -> (found: bool)
        requires
            old(self)@.wf(),
        ensures
            final(self)@.wf(),
            found == old(self)@.waits(ticket),
            found ==> exists|i: int| #[trigger]
                old(self)@.waits_at(ticket, i) && final(self)@ == old(self)@.without(i),
            !found ==> final(self)@ == old(self)@,
    {
        let mut at: usize = 0;
        while at < self.list.len()
            invariant
                *self == *old(self),
                self@.wf(),
                at <= self.list@.len(),
                forall|i: int| 0 <= i < at ==> !(#[trigger] self@.waits_at(ticket, i)),
            decreases self.list@.len() - at,
        {
            if self.list[at].ticket == ticket {
                let _ = self.list.remove(at);
                proof {
                    assert(old(self)@.waits_at(ticket, at as int));
                    assert(self@ == old(self)@.without(at as int));
                    lemma_wf_kept(old(self)@, 0, at as int);
                }
                return true;
            }
            at = at + 1;
        }
        assert forall|i: int| !old(self)@.waits_at(ticket, i) by {
            if 0 <= i < self.list@.len() {
                assert(!self@.waits_at(ticket, i));
            }
        }
        false
    }

    /// Whether the state was closed.
    pub fn is_closed(&self) -> (closed: bool)
        ensures
            closed == self@.closed,
    {
        self.closed
    }

    /// How many requests wait.
    pub fn waiting(&self) -> (n: usize)
        ensures
            n == self@.queue.len(),
    {
        self.list.len()
    }
}

} // verus!
