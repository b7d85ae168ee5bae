use crate::error::SemaphoreError;
use crate::model::{Admission, Model};
use crate::semaphore::{admitted_one, attended, held, polled_one, resumed_all, resumed_one};
use crate::waiter::WaiterView;
use futures::task::Waker;
use vstd::prelude::*;

verus! {

/// One move of a trace: a task tries to acquire units, or units come back.
pub enum Move {
    Acquire(u64),
    Signal(u64),
}

impl Model {
    /// The state after one move.
    pub open spec fn moved(self, m: Move) -> Model {
        match m {
            Move::Acquire(units) => self.admitted(units),
            Move::Signal(units) => self.released(units as nat),
        }
    }

    /// By how much one move changes what the tasks hold: a grant adds its
    /// units, a signal takes its units away, a request that is queued or
    /// refused holds nothing.
    pub open spec fn taken(self, m: Move) -> int {
        match m {
            Move::Acquire(units) => if self.admission(units) == Ok::<Admission, SemaphoreError>(
                Admission::Granted,
            ) {
                units as int
            } else {
                0
            },
            Move::Signal(units) => -(units as int),
        }
    }

    /// The state after a trace of moves, first to last.
    pub open spec fn run(self, moves: Seq<Move>) -> Model
        decreases moves.len(),
    {
        if moves.len() == 0 {
            self
        } else {
            self.run(moves.drop_last()).moved(moves.last())
        }
    }

    /// What the tasks hold after a trace that began with nothing held: the
    /// units granted less the units signalled.
    pub open spec fn held(self, moves: Seq<Move>) -> int
        decreases moves.len(),
    {
        if moves.len() == 0 {
            0
        } else {
            self.held(moves.drop_last()) + self.run(moves.drop_last()).taken(moves.last())
        }
    }

    /// The state after a run of signals, first to last.
    pub open spec fn released_each(self, releases: Seq<u64>) -> Model
        decreases releases.len(),
    {
        if releases.len() == 0 {
            self
        } else {
            self.released_each(releases.drop_last()).released(releases.last() as nat)
        }
    }

    /// The tickets that a run of signals resumes, one entry for each signal.
    pub open spec fn resumed_each(self, releases: Seq<u64>) -> Seq<Option<u64>>
        decreases releases.len(),
    {
        if releases.len() == 0 {
            Seq::empty()
        } else {
            self.resumed_each(releases.drop_last()).push(
                self.released_each(releases.drop_last()).resumed(releases.last() as nat),
            )
        }
    }

    /// The units that the waiting requests ask for, oldest first.
    pub open spec fn asked(self) -> Seq<u64> {
        Seq::new(self.queue.len(), |i: int| self.queue[i].units)
    }

    /// The state after one attempt to acquire for each entry of `asks`, first
    /// to last.
    pub open spec fn tried_each(self, asks: Seq<u64>) -> Model
        decreases asks.len(),
    {
        if asks.len() == 0 {
            self
        } else {
            self.tried_each(asks.drop_last()).admitted(asks.last())
        }
    }

    /// Each of these attempts, made in turn, is granted.
    pub open spec fn all_granted(self, asks: Seq<u64>) -> bool
        decreases asks.len(),
    {
        asks.len() == 0 || (self.all_granted(asks.drop_last()) && self.tried_each(
            asks.drop_last(),
        ).admission(asks.last()) == Ok::<Admission, SemaphoreError>(Admission::Granted))
    }
}

/// The sum of the entries of `units`.
pub open spec fn total(units: Seq<u64>) -> nat
    decreases units.len(),
{
    if units.len() == 0 {
        0
    } else {
        total(units.drop_last()) + units.last() as nat
    }
}

proof fn lemma_total_pointwise(a: Seq<u64>, b: Seq<u64>)
    requires
        a.len() == b.len(),
        forall|k: int| 0 <= k < a.len() ==> a[k] <= b[k],
    ensures
        total(a) <= total(b),
    decreases a.len(),
{
    if a.len() > 0 {
        lemma_total_pointwise(a.drop_last(), b.drop_last());
    }
}

proof fn lemma_released_total(m: Model, releases: Seq<u64>)
    ensures
        m.released_each(releases).available == m.available + total(releases),
    decreases releases.len(),
{
    if releases.len() > 0 {
        lemma_released_total(m, releases.drop_last());
    }
}

/// With nobody waiting, attempts whose sum the pool covers are all granted,
/// and the pool shrinks by that sum.
pub proof fn lemma_all_granted(m: Model, asks: Seq<u64>)
    requires
        !m.closed,
        m.queue.len() == 0,
        total(asks) <= m.available,
    ensures
        m.all_granted(asks),
        m.tried_each(asks) == (Model { available: (m.available - total(asks)) as nat, ..m }),
    decreases asks.len(),
{
    if asks.len() > 0 {
        lemma_all_granted(m, asks.drop_last());
    }
}

/// Requests are resumed in the order in which they arrived: when each signal
/// of a run brings at least the units that the request then at the head asks
/// for, the k-th signal resumes the k-th request of the queue, and the requests
/// behind them keep their places.
pub proof fn lemma_resumed_in_arrival_order(m: Model, releases: Seq<u64>)
    requires
        releases.len() <= m.queue.len(),
        forall|k: int| 0 <= k < releases.len() ==> m.queue[k].units <= #[trigger] releases[k],
    ensures
        m.released_each(releases).queue == m.queue.skip(releases.len() as int),
        m.released_each(releases).available >= m.available,
        m.released_each(releases).closed == m.closed,
        m.released_each(releases).issued == m.issued,
        m.resumed_each(releases).len() == releases.len(),
        forall|k: int| 0 <= k < releases.len() ==> #[trigger] m.resumed_each(releases)[k] == Some(
            m.queue[k].ticket,
        ),
    decreases releases.len(),
{
    if releases.len() == 0 {
        assert(m.queue.skip(0) =~= m.queue);
    } else {
        let front = releases.drop_last();
        let n = front.len() as int;
        assert forall|k: int| 0 <= k < front.len() implies m.queue[k].units <= #[trigger] front[k] by {
            assert(front[k] == releases[k]);
        }
        lemma_resumed_in_arrival_order(m, front);
        let before = m.released_each(front);
        assert(before.queue[0] == m.queue[n]);
        assert(m.queue[n].units <= releases[n]);
        assert(before.refilled(releases.last() as nat).head_ready());
        assert(before.queue.drop_first() =~= m.queue.skip(n + 1));
    }
}

/// Grants follow the order of arrival: when every waiting request was
/// resumed by a signal that brought at least its units, and the resumed tasks
/// then try again in the order in which they were resumed, each of them is
/// granted, and the pool ends with what the signals brought less what was
/// asked.
pub proof fn lemma_granted_in_arrival_order(m: Model, releases: Seq<u64>)
    requires
        !m.closed,
        releases.len() == m.queue.len(),
        forall|k: int| 0 <= k < releases.len() ==> m.queue[k].units <= #[trigger] releases[k],
    ensures
        m.released_each(releases).queue.len() == 0,
        m.released_each(releases).all_granted(m.asked()),
        m.released_each(releases).tried_each(m.asked()).available == m.available + total(releases)
            - total(m.asked()),
{
    lemma_resumed_in_arrival_order(m, releases);
    lemma_released_total(m, releases);
    lemma_total_pointwise(m.asked(), releases);
    lemma_all_granted(m.released_each(releases), m.asked());
}

/// What becomes of a request that a signal resumed, when its task tries
/// again at once: it is granted exactly when nobody else waits; with others
/// still in the queue it goes to the tail with a new ticket, behind requests
/// that arrived after it.
pub proof fn lemma_retry_after_resume(m: Model, units: u64)
    requires
        m.wf(),
        !m.closed,
        m.refilled(units as nat).head_ready(),
    ensures
        m.released(units as nat).admission(m.queue[0].units) == (if m.queue.len() == 1 {
            Ok::<Admission, SemaphoreError>(Admission::Granted)
        } else {
            Ok::<Admission, SemaphoreError>(Admission::Queued(m.issued as u64))
        }),
        m.queue.len() > 1 ==> m.released(units as nat).admitted(m.queue[0].units).queue
            == m.queue.drop_first().push(
            crate::model::Request { ticket: m.issued as u64, units: m.queue[0].units },
        ),
{
}

/// Units are neither made nor lost: after any trace of attempts to acquire
/// and of signals, the pool holds what it held at the start less what the
/// tasks hold.
pub proof fn lemma_conservation(m: Model, moves: Seq<Move>)
    ensures
        m.run(moves).available == m.available - m.held(moves),
    decreases moves.len(),
{
    if moves.len() > 0 {
        lemma_conservation(m, moves.drop_last());
    }
}

/// A grant of `n` units followed by their release leaves the semaphore as it
/// was, and a release adds exactly `n` units to the pool in whatever state it
/// finds the semaphore.
pub proof fn lemma_permit_round_trip(m: Model, later: Model, n: u64)
    requires
        m.grantable(n as nat),
    ensures
        m.admission(n) == Ok::<Admission, SemaphoreError>(Admission::Granted),
        m.admitted(n).released(n as nat) == m,
        m.admitted(n).resumed(n as nat) == None::<u64>,
        later.released(n as nat).available == later.available + n,
{
}

/// A closed semaphore stays closed whatever is done to it, and closing it
/// again changes nothing.
pub proof fn lemma_closed_for_good(m: Model, moves: Seq<Move>)
    requires
        m.closed,
    ensures
        m.run(moves).closed,
        m.shut().closed,
        m.shut().shut() == m.shut(),
    decreases moves.len(),
{
    if moves.len() > 0 {
        lemma_closed_for_good(m, moves.drop_last());
    }
}

/// Closing resumes every request that waits, and after it every attempt to
/// acquire fails as broken at once, without joining the queue.
pub proof fn lemma_close_fails_all(m: Model, units: u64, i: int)
    ensures
        m.shut().queue.len() == 0,
        m.shut().admission(units) == Err::<Admission, SemaphoreError>(SemaphoreError::Broken),
        m.shut().admitted(units) == m.shut(),
        m.tickets().len() == m.queue.len(),
        0 <= i < m.queue.len() ==> m.tickets()[i] == m.queue[i].ticket,
{
}

/// Closing resumes every suspended task: the waiter of each request in the
/// queue that holds a handle is woken by the close, the next poll of it is
/// the last, and the waiters of other tickets are left alone.
pub proof fn lemma_close_resumes_suspended(
    m: Model,
    waiters: Map<u64, WaiterView>,
    i: int,
    other: u64,
)
    requires
        attended(m, waiters),
        0 <= i < m.queue.len(),
    ensures
        ({
            let t = m.queue[i].ticket;
            let after = resumed_all(waiters, m.tickets());
            &&& after.contains_key(t)
            &&& after[t] == waiters[t].resumed()
            &&& waiters[t].armed() ==> after[t].woken && forall|waker: Waker|
                !(#[trigger] polled_one(after, t, waker)).contains_key(t)
        }),
        waiters.contains_key(other) && !m.waits(other) ==> resumed_all(waiters, m.tickets())[other]
            == waiters[other],
{
    let t = m.queue[i].ticket;
    assert(m.tickets()[i] == t);
    if m.tickets().contains(other) {
        let k = choose|k: int| 0 <= k < m.tickets().len() && m.tickets()[k] == other;
        assert(m.waits_at(other, k));
    }
}

/// A signal that finds the head request covered resumes that request's
/// waiter and no other: if it holds a handle it is woken, and the next poll
/// of it is the last.
pub proof fn lemma_signal_resumes_head(m: Model, waiters: Map<u64, WaiterView>, units: u64)
    requires
        m.wf(),
        attended(m, waiters),
        m.refilled(units as nat).head_ready(),
    ensures
        ({
            let t = m.queue[0].ticket;
            let after = resumed_one(waiters, m.resumed(units as nat));
            &&& m.resumed(units as nat) == Some(t)
            &&& after == waiters.insert(t, waiters[t].resumed())
            &&& waiters[t].armed() ==> after[t].woken && forall|waker: Waker|
                !(#[trigger] polled_one(after, t, waker)).contains_key(t)
            &&& attended(m.released(units as nat), after)
        }),
{
    let t = m.queue[0].ticket;
    let after = resumed_one(waiters, m.resumed(units as nat));
    let next = m.released(units as nat);
    assert forall|i: int| 0 <= i < next.queue.len() implies {
        &&& after.contains_key(#[trigger] next.queue[i].ticket)
        &&& after[next.queue[i].ticket].units == next.queue[i].units
        &&& !after[next.queue[i].ticket].woken
    } by {
        assert(next.queue[i] == m.queue[i + 1]);
        assert(m.queue[0].ticket < m.queue[i + 1].ticket);
    }
}

/// A request that was queued and then polled waits with exactly the handle
/// of that poll: its waiter asks for the same units, is not woken, and holds
/// that handle.
pub proof fn lemma_queued_then_polled(
    waiters: Map<u64, WaiterView>,
    ticket: u64,
    units: u64,
    waker: Waker,
)
    ensures
        polled_one(
            admitted_one(
                waiters,
                Ok::<Admission, SemaphoreError>(Admission::Queued(ticket)),
                units,
            ),
            ticket,
            waker,
        )[ticket] == (WaiterView { units, woken: false, handle: Some(waker) }),
{
}

/// A waiter that is polled again before it was resumed keeps the handle of
/// the later poll and nothing of the earlier one.
pub proof fn lemma_latest_handle_kept(
    waiters: Map<u64, WaiterView>,
    ticket: u64,
    earlier: Waker,
    later: Waker,
)
    requires
        waiters.contains_key(ticket),
        !waiters[ticket].woken,
    ensures
        polled_one(polled_one(waiters, ticket, earlier), ticket, later) == polled_one(
            waiters,
            ticket,
            later,
        ),
        held(polled_one(polled_one(waiters, ticket, earlier), ticket, later), Some(ticket))
            == Some(later),
{
    assert(polled_one(polled_one(waiters, ticket, earlier), ticket, later) =~= polled_one(
        waiters,
        ticket,
        later,
    ));
}

/// On an open semaphore whose pool covers `n` units, an attempt to acquire
/// them is granted at once when nobody waits, and joins the queue when
/// somebody does, however large the pool.
pub proof fn lemma_immediate_grant(m: Model, n: u64)
    requires
        !m.closed,
        n <= m.available,
    ensures
        m.queue.len() == 0 ==> m.admission(n) == Ok::<Admission, SemaphoreError>(
            Admission::Granted,
        ) && m.admitted(n) == m.granted(n as nat),
        m.queue.len() > 0 ==> m.admission(n) == Ok::<
            Admission,
            SemaphoreError,
        >(Admission::Queued(m.issued as u64)) && m.admitted(n) == m.enqueued(n),
        m.queue.len() > 0 ==> m.admission(n) != Ok::<Admission, SemaphoreError>(Admission::Granted)
            && m.admitted(n).available == m.available,
{
}

} // verus!
