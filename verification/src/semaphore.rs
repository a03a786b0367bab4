//! Contains the [Semaphore] type for priority-ordered acquisition of permits.
use crate::priority;
use crate::priority::{rank, rank_new, Priority};
use crate::queue;
use crate::queue::{PriorityQueue, PriorityQueueHandle, QueueEntry, SharedQueueHandle, MAX_ENTRIES};
use crate::waiter::{WAITER_FLAG_HAS_LOCK, WAITER_FLAG_WANTS_EVICT};
use core::marker::PhantomData;
use core::task::Waker;
use vstd::prelude::*;

pub mod entries;
pub mod error;
pub mod laws;

pub use entries::SemaphoreWaiter;
pub use error::InsufficientPermitsError;

verus! {

/// Alias trait for [PriorityQueue]`<`[SemaphoreWaiter]`<P>>`.
pub trait SemaphoreQueue<P: Priority>: PriorityQueue<SemaphoreWaiter<P>> {

}

impl<P: Priority, Q: PriorityQueue<SemaphoreWaiter<P>>> SemaphoreQueue<P> for Q {

}

/// The default queue used for [Semaphore]: there are more cases than with a mutex where nodes
/// aren't the head node when removed, so that linking the previous node pays off.
pub type DefaultSemaphoreQueue<P> = crate::queue::arena::DualLinkArenaQueue<SemaphoreWaiter<P>>;

/// The maximum amount of permits a single holder can have.
pub const MAX_PERMITS: usize = usize::MAX / 2;

/// A semaphore where queued waiters are granted permits by order of priority.
///
/// Those who hold permits are told when a requester of higher priority waits.
///
/// Note that to minimize waiting, requesters with the same priority are additionally sorted by
/// permit count (lowest first). If this isn't desirable, use a [Priority] wrapper like
/// [FIFO](crate::FIFO) or [LIFO](crate::LIFO). This makes it so requesters won't be blocked by
/// larger requests with the same priority.
///
/// At the start of the queue are all who hold permits, ordered by their priorities. After those are
/// all who wait, ordered by theirs.
pub struct Semaphore<P: Priority, Q: SemaphoreQueue<P> = DefaultSemaphoreQueue<P>> {
    queue: Q,
    total: usize,
    available: usize,
    phantom: PhantomData<P>,
}

/// A permit (or collection of permits) from a [Semaphore].
pub struct SemaphorePermit<P: Priority, Q: SemaphoreQueue<P>> {
    handle: Q::Handle,
    phantom: PhantomData<P>,
}

/// A place in the queue of a [Semaphore], for one who waits for permits.
pub struct SemaphorePermitWaiter<P: Priority, Q: SemaphoreQueue<P>> {
    handle: Q::Handle,
    phantom: PhantomData<P>,
}

/// What comes of an attempt to [acquire](Semaphore::acquire) permits.
pub enum AcquireAttempt<P: Priority, Q: SemaphoreQueue<P>> {
    /// The permits were granted right away.
    Acquired(SemaphorePermit<P, Q>),
    /// The requester has to wait. Holders may be asked to leave, in which case the tasks of those
    /// who wait for that are to be woken.
    Queued(SemaphorePermitWaiter<P, Q>, Vec<Waker>),
}

/// What has become of one who waits via
/// [acquire_within_total](Semaphore::acquire_within_total).
pub enum WithinTotal<P: Priority, Q: SemaphoreQueue<P>> {
    /// The permits were granted.
    Acquired(SemaphorePermit<P, Q>),
    /// They weren't yet.
    Waiting(SemaphorePermitWaiter<P, Q>),
    /// The semaphore lost the permits that are waited for. Others may get theirs now, in which case
    /// their tasks are to be woken.
    Refused(InsufficientPermitsError, Vec<Waker>),
}

impl<P: Priority, Q: SemaphoreQueue<P>> SemaphorePermit<P, Q> {
    /// The key of the holder's entry.
    pub closed spec fn key(&self) -> int {
        self.handle.key()
    }
}

impl<P: Priority, Q: SemaphoreQueue<P>> SemaphorePermitWaiter<P, Q> {
    /// The key of the waiting entry.
    pub closed spec fn key(&self) -> int {
        self.handle.key()
    }
}

impl<P: Priority, Q: SemaphoreQueue<P>> Semaphore<P, Q> {
    /// Those who hold permits, followed by those who wait for some.
    pub closed spec fn entries(&self) -> Seq<QueueEntry<SemaphoreWaiter<P>>> {
        self.queue.entries()
    }

    /// The permits that there are in all.
    pub closed spec fn total(&self) -> int {
        self.total as int
    }

    /// The permits that nobody holds.
    pub closed spec fn available(&self) -> int {
        self.available as int
    }

    /// Those who hold permits, by their keys.
    pub open spec fn holders(&self) -> Map<int, SemaphoreWaiter<P>> {
        entries::holders(self.entries())
    }

    /// Those who wait, in the order of their turns.
    pub open spec fn waiting(&self) -> Seq<QueueEntry<SemaphoreWaiter<P>>> {
        entries::waiting(self.entries())
    }

    /// Holders stand before those who wait, either in order of priority. Every permit is either
    /// available or held by someone, who has no more than [MAX_PERMITS].
    closed spec fn coherent(&self) -> bool {
        &&& self.queue.wf()
        &&& exists|h: int| entries::split_at(self.queue.entries(), h)
        &&& entries::in_order(self.queue.entries())
        &&& entries::at_most(self.queue.entries(), MAX_PERMITS as int)
        &&& self.total == self.available + entries::issued(self.queue.entries())
    }

    /// Those are turned away who wait for more permits than there are and want to be told so, and
    /// nobody who doesn't want that. Holders who have a lower priority than someone who waits are
    /// asked to leave.
    closed spec fn sound(&self) -> bool {
        &&& self.coherent()
        &&& entries::turned_away(self.waiting(), self.total())
        &&& entries::on_request(self.waiting())
        &&& priority::lawful::<P>() ==> entries::warned(self.holders(), self.waiting())
    }

    /// The invariant of a semaphore.
    pub closed spec fn wf(&self) -> bool {
        &&& self.sound()
        &&& priority::regular::<P>() ==> entries::stalled(self.waiting(), self.available())
    }

    /// Whether the permit is one of this semaphore.
    pub open spec fn held_by(&self, permit: &SemaphorePermit<P, Q>) -> bool {
        self.holders().contains_key(permit.key())
    }

    /// Whether the one who waits stands in the queue. It may have been granted its permits.
    pub open spec fn awaited_by(&self, pending: &SemaphorePermitWaiter<P, Q>) -> bool {
        queue::has_key(self.entries(), pending.key())
    }

    /// How many of those who wait stand before the entry with the key `key`.
    closed spec fn turn(&self, key: int) -> int {
        let i = queue::position(self.entries(), key) - entries::held_len(self.entries());
        if i > 0 {
            i
        } else {
            0
        }
    }

    /// Whether `self` is what comes of serving those in `waiting`, when there are `available`
    /// permits and the holders `holders`. The tasks of `woken` are to be woken then.
    pub open spec fn served(
        &self,
        holders: Map<int, SemaphoreWaiter<P>>,
        waiting: Seq<QueueEntry<SemaphoreWaiter<P>>>,
        available: int,
        woken: Seq<Waker>,
    ) -> bool {
        let service = entries::serve(waiting, available);
        &&& self.holders() == entries::with_granted(holders, service.granted)
        &&& self.waiting() == service.waiting
        &&& self.available() == service.available
        &&& woken == entries::wakers(service.granted)
    }

    /// Whether `self` is `before` after someone requested `count` permits with the priority
    /// `priority`, which were granted right away if `acquired` is set. The key of the new entry is
    /// `key`. The tasks of `woken` are to be woken.
    pub open spec fn requested(
        &self,
        before: &Self,
        priority: P,
        count: usize,
        within_total: bool,
        key: int,
        acquired: bool,
        woken: Seq<Waker>,
    ) -> bool {
        let entry = SemaphoreWaiter::fresh(priority, acquired, count, within_total);
        let first = entries::first_in_line(before.waiting());
        &&& !queue::has_key(before.entries(), key)
        &&& queue::has_key(self.entries(), key)
        &&& self.entries().len() == before.entries().len() + 1
        &&& self.total() == before.total()
        &&& acquired ==> {
            &&& count <= before.available()
            &&& first is Some && priority.comparable(&first->0.priority) ==> priority.order_new(
                &first->0.priority,
            ) >= 0
            &&& self.available() == before.available() - count
            &&& self.holders() == before.holders().insert(key, entry)
            &&& self.waiting() == before.waiting()
            &&& woken == Seq::<Waker>::empty()
        }
        &&& !acquired ==> {
            &&& count <= before.available() ==> {
                &&& first is Some
                &&& priority.comparable(&first->0.priority) ==> priority.order_new(
                    &first->0.priority,
                ) < 0
            }
            &&& self.available() == before.available()
            &&& self.holders().dom() == before.holders().dom()
            &&& forall|k: int| #[trigger]
                before.holders().contains_key(k) ==> entries::asked_by(
                    priority,
                    before.holders()[k],
                    self.holders()[k],
                )
            &&& queue::enqueued(before.waiting(), self.waiting(), key, entry)
            &&& exists|evict: Seq<bool>|
                {
                    &&& entries::in_the_way(before.entries(), priority, evict)
                    &&& queue::enqueued(
                        #[trigger] entries::asked(before.entries(), evict),
                        self.entries(),
                        key,
                        entry,
                    )
                    &&& woken == entries::asked_wakers(before.entries(), evict)
                }
        }
    }

    /// Whether `self` is `before` after `count` permits were to be split from those of `permit`, for
    /// one with the priority `priority`, and `result` is what came of it. At least one permit has to
    /// stay. The new holder is asked to leave if it inherits that, or if someone who waits has a
    /// higher priority.
    pub open spec fn split_off(
        &self,
        before: &Self,
        permit: &SemaphorePermit<P, Q>,
        count: usize,
        priority: P,
        inherited: bool,
        result: Result<SemaphorePermit<P, Q>, InsufficientPermitsError>,
    ) -> bool {
        let own = before.holders()[permit.key()];
        match result {
            Ok(other) => {
                let asked = self.holders()[other.key()].waiter.unwanted();
                let fresh = SemaphoreWaiter::fresh(priority, true, count, false);
                &&& count < own.count
                &&& other.key() != permit.key()
                &&& !queue::has_key(before.entries(), other.key())
                &&& self.entries().len() == before.entries().len() + 1
                &&& self.held_by(permit)
                &&& self.held_by(&other)
                &&& self.total() == before.total()
                &&& self.available() == before.available()
                &&& self.waiting() == before.waiting()
                &&& self.holders() == before.holders().insert(
                    permit.key(),
                    own.with_count((own.count - count) as usize),
                ).insert(
                    other.key(),
                    if asked {
                        fresh.evicted()
                    } else {
                        fresh
                    },
                )
                &&& inherited ==> asked
                &&& !inherited ==> entries::outranked(before.waiting(), priority, asked)
            },
            Err(error) => {
                &&& count >= own.count
                &&& error.known_total() == Some(own.count)
                &&& error.wanted() == count
                &&& *self == *before
            },
        }
    }

    /// Whether `self` is `before` after someone requested `count` permits with the priority
    /// `priority`, and `attempt` is what came of it.
    pub open spec fn attempted(
        &self,
        before: &Self,
        priority: P,
        count: usize,
        within_total: bool,
        attempt: AcquireAttempt<P, Q>,
    ) -> bool {
        match attempt {
            AcquireAttempt::Acquired(permit) => {
                &&& self.requested(
                    before,
                    priority,
                    count,
                    within_total,
                    permit.key(),
                    true,
                    Seq::empty(),
                )
                &&& self.held_by(&permit)
            },
            AcquireAttempt::Queued(pending, woken) => {
                &&& self.requested(
                    before,
                    priority,
                    count,
                    within_total,
                    pending.key(),
                    false,
                    woken@,
                )
                &&& self.awaited_by(&pending)
            },
        }
    }

    /// Whether `self` is `before`, but for the waker of the entry with the key `key`.
    pub open spec fn rewatched(&self, before: &Self, key: int, waker: Option<Waker>) -> bool {
        let turn = queue::position(before.waiting(), key);
        &&& self.total() == before.total()
        &&& self.available() == before.available()
        &&& self.entries().len() == before.entries().len()
        &&& queue::has_key(self.entries(), key)
        &&& if before.holders().contains_key(key) {
            &&& self.holders() == before.holders().insert(
                key,
                before.holders()[key].watched(waker),
            )
            &&& self.waiting() == before.waiting()
        } else {
            &&& self.holders() == before.holders()
            &&& self.waiting() == before.waiting().update(
                turn,
                QueueEntry { key, data: before.waiting()[turn].data.watched(waker) },
            )
        }
    }

    /// The data of the entry with the key `key`.
    pub open spec fn entry(&self, key: int) -> SemaphoreWaiter<P> {
        self.entries()[queue::position(self.entries(), key)].data
    }

    /// Whether `self` is `before` after the one with the key `key` left the queue: if it had been
    /// granted its permits, they are released again, and if it was the first who waits, those after
    /// it are no longer blocked by it. The tasks of `woken` are to be woken.
    pub open spec fn cancelled(&self, before: &Self, key: int, woken: Seq<Waker>) -> bool {
        &&& self.entries().len() == before.entries().len() - 1
        &&& self.total() == before.total()
        &&& if before.holders().contains_key(key) {
            self.served(
                before.holders().remove(key),
                before.waiting(),
                before.available() + before.holders()[key].count,
                woken,
            )
        } else {
            let turn = queue::position(before.waiting(), key);
            let rest = before.waiting().remove(turn);
            if turn == 0 && before.available() > 0 {
                self.served(before.holders(), rest, before.available(), woken)
            } else {
                &&& self.holders() == before.holders()
                &&& self.waiting() == rest
                &&& self.available() == before.available()
                &&& woken == Seq::<Waker>::empty()
            }
        }
    }

    /// Whether `self` is `before` after some permits that nobody holds, or nobody holds any more,
    /// were taken away: those are turned away who wait for more permits than there are in all then
    /// and want to be told so. The tasks of `woken` are to be woken.
    pub open spec fn reduced(&self, before: &Self, woken: Seq<Waker>) -> bool {
        let evict = entries::oversized(before.waiting(), 0, self.total());
        &&& self.waiting() == entries::asked(before.waiting(), evict)
        &&& woken == entries::asked_wakers(before.waiting(), evict)
    }
}

impl<P: Priority, Q: SemaphoreQueue<P>> Semaphore<P, Q> {
    /// Create a new semaphore with `capacity` permits available.
    pub fn new(capacity: usize) -> (semaphore: Self)
        ensures
            semaphore.wf(),
            semaphore.entries().len() == 0,
            semaphore.total() == capacity,
            semaphore.available() == capacity,
    {
        let semaphore = Self {
            queue: Q::empty(),
            total: capacity,
            available: capacity,
            phantom: PhantomData,
        };
        proof {
            assert(entries::split_at(semaphore.queue.entries(), 0));
            entries::lemma_split(semaphore.queue.entries(), 0);
        }
        semaphore
    }

    /// Returns the total count of permits associated with the semaphore.
    pub fn total_permits(&self) -> (total: usize)
        ensures
            total == self.total(),
    {
        self.total
    }

    /// Returns the amount of currently available permits.
    pub fn available_permits(&self) -> (available: usize)
        ensures
            available == self.available(),
    {
        self.available
    }

    /// Request a single permit. Permits are issued by order of priority.
    pub fn acquire(&mut self, priority: P) -> (attempt: AcquireAttempt<P, Q>)
        requires
            old(self).wf(),
            old(self).entries().len() < MAX_ENTRIES,
        ensures
            final(self).wf(),
            final(self).attempted(old(self), priority, 1, false, attempt),
    {
        self.acquire_many(priority, 1)
    }

    /// Request a single permit.
    ///
    /// Shorthand for [acquire](Semaphore::acquire)`(priority.into())`.
    pub fn acquire_from<I: Into<P>>(&mut self, priority: I) -> (attempt: AcquireAttempt<P, Q>)
        requires
            old(self).wf(),
            old(self).entries().len() < MAX_ENTRIES,
            call_requires(I::into, (priority,)),
        ensures
            final(self).wf(),
            exists|own: P|
                {
                    &&& #[trigger] call_ensures(I::into, (priority,), own)
                    &&& final(self).attempted(old(self), own, 1, false, attempt)
                },
    {
        let own: P = priority.into();
        self.acquire(own)
    }

    /// Request a single permit with the [Default] priority.
    ///
    /// Shorthand for [acquire](Semaphore::acquire) with `Default::default()`.
    pub fn acquire_default(&mut self) -> (attempt: AcquireAttempt<P, Q>) where P: Default
        requires
            old(self).wf(),
            old(self).entries().len() < MAX_ENTRIES,
            call_requires(P::default, ()),
        ensures
            final(self).wf(),
            exists|own: P|
                {
                    &&& #[trigger] call_ensures(P::default, (), own)
                    &&& final(self).attempted(old(self), own, 1, false, attempt)
                },
    {
        let own: P = P::default();
        self.acquire(own)
    }

    /// Request multiple permits. Permits are issued by order of priority. Lower priority waiters
    /// are blocked until all requested permits are acquired.
    pub fn acquire_many(&mut self, priority: P, count: usize) -> (attempt: AcquireAttempt<P, Q>)
        requires
            old(self).wf(),
            old(self).entries().len() < MAX_ENTRIES,
            count < MAX_PERMITS,
        ensures
            final(self).wf(),
            final(self).attempted(old(self), priority, count, false, attempt),
    {
        let (handle, acquired, woken): (Q::Handle, bool, Vec<Waker>) = self.do_acquire(
            priority,
            count,
            false,
        );
        if acquired {
            AcquireAttempt::Acquired(SemaphorePermit { handle, phantom: PhantomData })
        } else {
            AcquireAttempt::Queued(SemaphorePermitWaiter { handle, phantom: PhantomData }, woken)
        }
    }

    /// Request multiple permits with the [Default] priority.
    ///
    /// Shorthand for [acquire_many](Semaphore::acquire_many) with `Default::default()`.
    pub fn acquire_many_default(&mut self, count: usize) -> (attempt: AcquireAttempt<P, Q>) where
        P: Default,

        requires
            old(self).wf(),
            old(self).entries().len() < MAX_ENTRIES,
            count < MAX_PERMITS,
            call_requires(P::default, ()),
        ensures
            final(self).wf(),
            exists|own: P|
                {
                    &&& #[trigger] call_ensures(P::default, (), own)
                    &&& final(self).attempted(old(self), own, count, false, attempt)
                },
    {
        let own: P = P::default();
        self.acquire_many(own, count)
    }

    /// Request multiple permits.
    ///
    /// Shorthand for [acquire_many](Semaphore::acquire_many) with `priority.into()`.
    pub fn acquire_many_from<I: Into<P>>(&mut self, count: usize, priority: I) -> (attempt:
        AcquireAttempt<P, Q>)
        requires
            old(self).wf(),
            old(self).entries().len() < MAX_ENTRIES,
            count < MAX_PERMITS,
            call_requires(I::into, (priority,)),
        ensures
            final(self).wf(),
            exists|own: P|
                {
                    &&& #[trigger] call_ensures(I::into, (priority,), own)
                    &&& final(self).attempted(old(self), own, count, false, attempt)
                },
    {
        let own: P = priority.into();
        self.acquire_many(own, count)
    }

    /// Request `count` permits without blocking the queue if the requested count of permits is more
    /// than the total associated. If the semaphore lacks sufficient associated permits, this returns
    /// an [InsufficientPermitsError]. If it loses them while the requester waits,
    /// [poll_within_total](Semaphore::poll_within_total) does.
    pub fn acquire_within_total(&mut self, priority: P, count: usize) -> (result: Result<
        AcquireAttempt<P, Q>,
        InsufficientPermitsError,
    >)
        requires
            old(self).wf(),
            old(self).entries().len() < MAX_ENTRIES,
            count < MAX_PERMITS,
        ensures
            final(self).wf(),
            match result {
                Ok(attempt) => {
                    &&& count <= old(self).total()
                    &&& final(self).attempted(old(self), priority, count, true, attempt)
                },
                Err(error) => {
                    &&& count > old(self).total()
                    &&& error.known_total() == Some(old(self).total() as usize)
                    &&& error.wanted() == count
                    &&& *final(self) == *old(self)
                },
            },
    {
        if self.total < count {
            return Err(InsufficientPermitsError::new(self.total, count));
        }
        let (handle, acquired, woken): (Q::Handle, bool, Vec<Waker>) = self.do_acquire(
            priority,
            count,
            true,
        );
        if acquired {
            Ok(AcquireAttempt::Acquired(SemaphorePermit { handle, phantom: PhantomData }))
        } else {
            Ok(
                AcquireAttempt::Queued(
                    SemaphorePermitWaiter { handle, phantom: PhantomData },
                    woken,
                ),
            )
        }
    }

    /// Looks whether one who waits has its permits by now. If not, keeps the waker, for its task to
    /// be woken once it has.
    pub fn poll_acquire(&mut self, pending: SemaphorePermitWaiter<P, Q>, waker: Waker) -> (result:
        Result<SemaphorePermit<P, Q>, SemaphorePermitWaiter<P, Q>>)
        requires
            old(self).wf(),
            old(self).awaited_by(&pending),
        ensures
            final(self).wf(),
            match result {
                Ok(permit) => {
                    &&& old(self).holders().contains_key(pending.key())
                    &&& permit.key() == pending.key()
                    &&& final(self).rewatched(old(self), pending.key(), None)
                    &&& final(self).held_by(&permit)
                },
                Err(still) => {
                    &&& !old(self).holders().contains_key(pending.key())
                    &&& still.key() == pending.key()
                    &&& final(self).rewatched(old(self), pending.key(), Some(waker))
                    &&& final(self).awaited_by(&still)
                },
            },
    {
        proof {
            self.lemma_entry(pending.key());
            self.entry(pending.key()).waiter.lemma_flags();
        }
        match self.wait_for_flag(&pending.handle, waker, WAITER_FLAG_HAS_LOCK) {
            Some(_) => Ok(SemaphorePermit { handle: pending.handle, phantom: PhantomData }),
            None => Err(pending),
        }
    }

    /// Looks whether one who waits via [acquire_within_total](Semaphore::acquire_within_total) has
    /// its permits by now, or is turned away, because the semaphore lost them. If neither, keeps the
    /// waker, for its task to be woken once it is.
    pub fn poll_within_total(
        &mut self,
        pending: SemaphorePermitWaiter<P, Q>,
        waker: Waker,
    ) -> (result: WithinTotal<P, Q>)
        requires
            old(self).wf(),
            old(self).awaited_by(&pending),
        ensures
            final(self).wf(),
            match result {
                WithinTotal::Acquired(permit) => {
                    &&& old(self).holders().contains_key(pending.key())
                    &&& permit.key() == pending.key()
                    &&& final(self).rewatched(old(self), pending.key(), None)
                    &&& final(self).held_by(&permit)
                },
                WithinTotal::Waiting(still) => {
                    &&& !old(self).holders().contains_key(pending.key())
                    &&& !old(self).entry(pending.key()).waiter.unwanted()
                    &&& still.key() == pending.key()
                    &&& final(self).rewatched(old(self), pending.key(), Some(waker))
                    &&& final(self).awaited_by(&still)
                },
                WithinTotal::Refused(error, woken) => {
                    &&& !old(self).holders().contains_key(pending.key())
                    &&& old(self).entry(pending.key()).waiter.unwanted()
                    &&& error.known_total() is None
                    &&& error.wanted() == old(self).entry(pending.key()).count
                    &&& final(self).cancelled(old(self), pending.key(), woken@)
                },
            },
    {
        proof {
            self.lemma_entry(pending.key());
            self.entry(pending.key()).waiter.lemma_flags();
        }
        let count: usize = self.queue.get_by_handle(&pending.handle).count();
        let ready: Option<usize> = self.wait_for_flag(
            &pending.handle,
            waker,
            WAITER_FLAG_HAS_LOCK | WAITER_FLAG_WANTS_EVICT,
        );
        match ready {
            Some(flags) => {
                if flags & WAITER_FLAG_HAS_LOCK == 0 {
                    let ghost mid = *self;
                    let woken: Vec<Waker> = self.leave(pending.handle);
                    proof {
                        self.lemma_cancelled(old(self), &mid, pending.key(), woken@);
                    }
                    return WithinTotal::Refused(
                        InsufficientPermitsError::new(usize::MAX, count),
                        woken,
                    );
                }
                WithinTotal::Acquired(
                    SemaphorePermit { handle: pending.handle, phantom: PhantomData },
                )
            },
            None => WithinTotal::Waiting(pending),
        }
    }

    /// Gives up waiting. Returns the wakers of those who are granted their permits for that, whose
    /// tasks are to be woken.
    pub fn cancel(&mut self, pending: SemaphorePermitWaiter<P, Q>) -> (woken: Vec<Waker>)
        requires
            old(self).wf(),
            old(self).awaited_by(&pending),
        ensures
            final(self).wf(),
            final(self).cancelled(old(self), pending.key(), woken@),
    {
        self.leave(pending.handle)
    }

    /// Releases the permits back to the semaphore, for those who wait. Returns the wakers of those
    /// who are granted theirs, whose tasks are to be woken.
    pub fn release(&mut self, permit: SemaphorePermit<P, Q>) -> (woken: Vec<Waker>)
        requires
            old(self).wf(),
            old(self).held_by(&permit),
        ensures
            final(self).wf(),
            final(self).entries().len() == old(self).entries().len() - 1,
            final(self).total() == old(self).total(),
            final(self).served(
                old(self).holders().remove(permit.key()),
                old(self).waiting(),
                old(self).available() + old(self).holders()[permit.key()].count,
                woken@,
            ),
    {
        proof {
            self.lemma_entry(permit.key());
        }
        let (_, _, next): (bool, bool, Option<Q::SharedHandle>) = self.withdraw(permit.handle);
        self.activate_waiters(next)
    }

    /// Add permits to the semaphore. Use [try_add_permits](Semaphore::try_add_permits) if overflows
    /// may occur.
    pub fn add_permits(&mut self, count: usize) -> (added: (usize, Vec<Waker>))
        requires
            old(self).wf(),
            old(self).total() + count <= usize::MAX,
        ensures
            final(self).wf(),
            final(self).entries().len() == old(self).entries().len(),
            final(self).total() == old(self).total() + count,
            final(self).served(
                old(self).holders(),
                old(self).waiting(),
                old(self).available() + count,
                added.1@,
            ),
            added.0 == final(self).available(),
    {
        self.try_add_permits(count).unwrap()
    }

    /// Try adding permits, returning an error if adding the permits would overflow. Returns the
    /// permits that are available then, and the wakers of those who are granted theirs, whose tasks
    /// are to be woken.
    pub fn try_add_permits(&mut self, count: usize) -> (result: Result<(usize, Vec<Waker>), ()>)
        requires
            old(self).wf(),
        ensures
            final(self).wf(),
            match result {
                Ok((available, woken)) => {
                    &&& old(self).total() + count <= usize::MAX
                    &&& final(self).total() == old(self).total() + count
                    &&& final(self).entries().len() == old(self).entries().len()
                    &&& final(self).served(
                        old(self).holders(),
                        old(self).waiting(),
                        old(self).available() + count,
                        woken@,
                    )
                    &&& available == final(self).available()
                },
                Err(_) => {
                    &&& old(self).total() + count > usize::MAX
                    &&& *final(self) == *old(self)
                },
            },
    {
        proof {
            self.lemma_conserved();
        }
        match self.total.checked_add(count) {
            Some(total) => {
                self.total = total;
                self.available = self.available + count;
                proof {
                    self.lemma_head();
                }
                let head = self.queue.head_handle();
                let woken: Vec<Waker> = self.activate_waiters(head);
                Ok((self.available, woken))
            },
            None => Err(()),
        }
    }

    /// Forget up to count permits, up to the currently available amount. Returns the amount of
    /// permits forgotten, and the wakers of those who are turned away for that, whose tasks are to
    /// be woken.
    pub fn forget_permits(&mut self, count: usize) -> (forgotten: (usize, Vec<Waker>))
        requires
            old(self).wf(),
        ensures
            final(self).wf(),
            forgotten.0 == (if count <= old(self).available() {
                count as int
            } else {
                old(self).available()
            }),
            final(self).entries().len() == old(self).entries().len(),
            final(self).total() == old(self).total() - forgotten.0,
            final(self).available() == old(self).available() - forgotten.0,
            final(self).holders() == old(self).holders(),
            forgotten.0 > 0 ==> final(self).reduced(old(self), forgotten.1@),
            forgotten.0 == 0 ==> *final(self) == *old(self) && forgotten.1@.len() == 0,
    {
        let count: usize = if count <= self.available {
            count
        } else {
            self.available
        };
        if count == 0 {
            return (0, Vec::new());
        }
        proof {
            self.lemma_conserved();
        }
        self.available = self.available - count;
        self.total = self.total - count;
        let woken: Vec<Waker> = self.notify_oversized_waiters(None);
        proof {
            entries::lemma_oversized(
                old(self).waiting(),
                self.total(),
                old(self).available(),
                self.available(),
            );
        }
        (count, woken)
    }
}

impl<P: Priority, Q: SemaphoreQueue<P>> Semaphore<P, Q> {
    /// Grants its permits to an entry, which is then moved to where it belongs. Returns the waker of
    /// its task, which is to be woken.
    fn grant(queue: &mut Q, handle: &Q::SharedHandle) -> (waker: Option<Waker>)
        requires
            old(queue).wf(),
            queue::has_key(old(queue).entries(), handle.shared_key()),
        ensures
            final(queue).wf(),
            ({
                let before = old(queue).entries();
                let data = before[queue::position(before, handle.shared_key())].data;
                &&& waker == data.waiter.waker
                &&& queue::updated(
                    before,
                    final(queue).entries(),
                    handle.shared_key(),
                    data.started(),
                    true,
                )
            }),
    {
        let start = |entry: &mut SemaphoreWaiter<P>| -> (outcome: (bool, Option<Waker>))
            ensures
                outcome.0,
                outcome.1 == old(entry).waiter.waker,
                *final(entry) == old(entry).started(),
        {
            (true, entry.waiter.start())
        };
        queue.update_node(handle.as_ref(), start)
    }

    /// Grants permits to those who wait, from the entry `start` on, for as long as there are
    /// enough.
    fn activate_waiters(&mut self, start: Option<Q::SharedHandle>) -> (woken: Vec<Waker>)
        requires
            old(self).coherent(),
            start is Some ==> queue::has_key(old(self).entries(), start->0.shared_key()),
        ensures
            final(self).coherent(),
            final(self).total() == old(self).total(),
            final(self).entries().len() == old(self).entries().len(),
            ({
                let from = if start is Some {
                    old(self).turn(start->0.shared_key())
                } else {
                    old(self).waiting().len() as int
                };
                let service = entries::serve(old(self).waiting().skip(from), old(self).available());
                &&& final(self).holders() == entries::with_granted(
                    old(self).holders(),
                    service.granted,
                )
                &&& final(self).waiting() == old(self).waiting().take(from) + service.waiting
                &&& final(self).available() == service.available
                &&& woken@ == entries::wakers(service.granted)
                &&& from == 0 ==> {
                    &&& final(self).served(
                        old(self).holders(),
                        old(self).waiting(),
                        old(self).available(),
                        woken@,
                    )
                    &&& old(self).sound() ==> final(self).wf()
                }
            }),
    {
        let mut woken: Vec<Waker> = Vec::new();
        let ghost before = self.queue.entries();
        let ghost mut h = entries::held_len(before);
        let ghost mut p = if start is Some {
            queue::position(before, start->0.shared_key())
        } else {
            before.len() as int
        };
        let ghost first = if p < h {
            h
        } else {
            p
        };
        let ghost ahead = before.subrange(h, first);
        let ghost target = entries::serve(before.skip(first), self.available as int);
        let mut next = start;
        let ghost mut granted: Seq<QueueEntry<SemaphoreWaiter<P>>> = Seq::empty();
        proof {
            assert(entries::split_at(before, h));
            entries::lemma_split(before, h);
            assert(granted + target.granted =~= target.granted);
            assert(self.waiting().take(first - h) =~= ahead);
            assert(self.waiting().skip(first - h) =~= before.skip(first));
        }
        loop
            invariant_except_break
                0 <= p <= self.queue.entries().len(),
                match next {
                    Some(handle) => p < self.queue.entries().len() && handle.shared_key()
                        == self.queue.entries()[p].key,
                    None => p == self.queue.entries().len(),
                },
                ({
                    let q = if p < h {
                        h
                    } else {
                        p
                    };
                    let entries = self.queue.entries();
                    let rest = entries::serve(entries.skip(q), self.available as int);
                    &&& target.granted == granted + rest.granted
                    &&& ahead + target.waiting == entries.subrange(h, q) + rest.waiting
                    &&& target.available == rest.available
                }),
            invariant
                self.coherent(),
                self.total == old(self).total,
                self.queue.entries().len() == before.len(),
                entries::split_at(self.queue.entries(), h),
                self.holders() == entries::with_granted(entries::holders(before), granted),
                woken@ == entries::wakers(granted),
            ensures
                target.granted == granted,
                ahead + target.waiting == self.queue.entries().skip(h),
                target.available == self.available,
            decreases self.queue.entries().len() - p,
        {
            let handle = match next {
                Some(handle) => handle,
                None => {
                    proof {
                        let entries = self.queue.entries();
                        assert(entries.subrange(h, p) =~= entries.skip(h));
                        assert(entries.skip(p) =~= Seq::empty());
                        assert(target.granted =~= granted);
                        assert(ahead + target.waiting =~= entries.skip(h));
                    }
                    break ;
                },
            };
            let ghost entries = self.queue.entries();
            let ghost rest = entries.skip(if p < h {
                h
            } else {
                p
            });
            proof {
                self.queue.lemma_unique_keys();
                queue::lemma_position(entries, p);
            }
            let node = self.queue.get_by_handle(handle.as_ref());
            let is_held: bool = node.waiter.has_lock();
            let will_evict: bool = node.waiter.wants_evict();
            let count: usize = node.count();
            next = self.queue.get_next_handle(handle.as_ref());
            if is_held {
                proof {
                    p = p + 1;
                }
                continue ;
            }
            assert(rest[0] == entries[p]);
            assert(rest.skip(1) =~= entries.skip(p + 1));
            if count > self.available {
                // One who waits is asked to leave only where the semaphore lost the permits for
                // it. It is fine to skip it then, since it will be turned away.
                if will_evict {
                    proof {
                        assert(entries.subrange(h, p + 1) =~= entries.subrange(h, p).push(
                            entries[p],
                        ));
                        let after = entries::serve(entries.skip(p + 1), self.available as int);
                        assert(entries.subrange(h, p) + (seq![entries[p]] + after.waiting)
                            =~= entries.subrange(h, p + 1) + after.waiting);
                        p = p + 1;
                    }
                    continue ;
                }
                proof {
                    assert(target.granted =~= granted);
                    assert(ahead + target.waiting =~= entries.skip(h));
                }
                break ;
            }
            self.available = self.available - count;
            let waker: Option<Waker> = Self::grant(&mut self.queue, &handle);
            match waker {
                Some(waker) => {
                    woken.push(waker);
                },
                None => {},
            }
            proof {
                let after = self.queue.entries();
                entries::lemma_started(entries, after, h, p);
                assert(granted.push(entries[p]).drop_last() =~= granted);
                let left = entries::serve(entries.skip(p + 1), self.available as int);
                assert(granted + (seq![entries[p]] + left.granted) =~= granted.push(entries[p])
                    + left.granted);
                assert forall|j: int| p < j < after.len() implies #[trigger] after[j]
                    == entries[j] by {
                    assert(after.skip(h + 1)[j - h - 1] == entries.skip(h).remove(p - h)[j - h
                        - 1]);
                }
                assert(after.skip(p + 1) =~= entries.skip(p + 1));
                assert(after.subrange(h + 1, p + 1) =~= entries.subrange(h, p)) by {
                    assert forall|j: int| h <= j < p implies #[trigger] after[j + 1]
                        == entries[j] by {
                        assert(after.skip(h + 1)[j - h] == entries.skip(h).remove(p - h)[j - h]);
                    }
                }
                granted = granted.push(entries[p]);
                h = h + 1;
                p = p + 1;
            }
        }
        proof {
            entries::lemma_split(self.queue.entries(), h);
            let waiting = old(self).waiting();
            if first == entries::held_len(before) {
                assert(ahead + target.waiting =~= target.waiting);
                assert(waiting.skip(0) =~= waiting);
                entries::lemma_served_stalled(waiting, old(self).available());
                if old(self).sound() {
                    entries::lemma_served_turned_away(waiting, old(self).available(), self.total());
                    entries::lemma_served_warned(
                        old(self).holders(),
                        waiting,
                        old(self).available(),
                    );
                    if priority::lawful::<P>() {
                        entries::lemma_waiting_sorted(before, entries::held_len(before));
                    }
                }
            }
        }
        woken
    }

    /// Asks an entry to leave. Returns the waker of its task, which is to be woken.
    fn evict(queue: &mut Q, handle: &Q::SharedHandle) -> (waker: Option<Waker>)
        requires
            old(queue).wf(),
            queue::has_key(old(queue).entries(), handle.shared_key()),
        ensures
            final(queue).wf(),
            ({
                let before = old(queue).entries();
                let i = queue::position(before, handle.shared_key());
                &&& waker == before[i].data.waiter.waker
                &&& final(queue).entries() == before.update(
                    i,
                    QueueEntry { key: before[i].key, data: before[i].data.evicted() },
                )
            }),
    {
        let evict = |entry: &mut SemaphoreWaiter<P>| -> (outcome: (bool, Option<Waker>))
            ensures
                !outcome.0,
                outcome.1 == old(entry).waiter.waker,
                *final(entry) == old(entry).evicted(),
        {
            (false, entry.waiter.evict())
        };
        queue.update_node(handle.as_ref(), evict)
    }

    /// Asks those entries to leave, from the entry `start` (or the first one) on, for which `decide`
    /// says so.
    fn ask<F: Fn(&SemaphoreWaiter<P>) -> bool>(
        &mut self,
        start: Option<Q::SharedHandle>,
        decide: F,
    ) -> (woken: Vec<Waker>)
        requires
            old(self).queue.wf(),
            start is Some ==> queue::has_key(old(self).entries(), start->0.shared_key()),
            forall|data: &SemaphoreWaiter<P>| call_requires(decide, (data,)),
        ensures
            final(self).queue.wf(),
            final(self).total == old(self).total,
            final(self).available == old(self).available,
            exists|evict: Seq<bool>|
                {
                    let first = if start is Some {
                        queue::position(old(self).entries(), start->0.shared_key())
                    } else {
                        0
                    };
                    &&& evict.len() == old(self).entries().len()
                    &&& forall|i: int| 0 <= i < first ==> !(#[trigger] evict[i])
                    &&& forall|i: int|
                        first <= i < evict.len() ==> call_ensures(
                            decide,
                            (&old(self).entries()[i].data,),
                            #[trigger] evict[i],
                        )
                    &&& final(self).entries() == #[trigger] entries::asked(
                        old(self).entries(),
                        evict,
                    )
                    &&& woken@ == entries::asked_wakers(old(self).entries(), evict)
                },
    {
        let mut woken: Vec<Waker> = Vec::new();
        let ghost before = self.queue.entries();
        let ghost first = if start is Some {
            queue::position(before, start->0.shared_key())
        } else {
            0
        };
        let ghost mut p = first;
        let ghost mut evict: Seq<bool> = Seq::new(first as nat, |i: int| false);
        proof {
            entries::lemma_asked_nobody(before.take(p), evict);
        }
        let mut next = match start {
            Some(handle) => Some(handle),
            None => self.queue.head_handle(),
        };
        loop
            invariant
                self.queue.wf(),
                self.total == old(self).total,
                self.available == old(self).available,
                forall|data: &SemaphoreWaiter<P>| call_requires(decide, (data,)),
                before.len() == self.queue.entries().len(),
                0 <= first <= p <= before.len(),
                match next {
                    Some(handle) => p < before.len() && handle.shared_key() == before[p].key,
                    None => p == before.len(),
                },
                evict.len() == p,
                forall|i: int| 0 <= i < first ==> !(#[trigger] evict[i]),
                forall|i: int|
                    first <= i < p ==> call_ensures(
                        decide,
                        (&before[i].data,),
                        #[trigger] evict[i],
                    ),
                forall|i: int|
                    0 <= i < p ==> (#[trigger] self.queue.entries()[i]) == (if evict[i] {
                        QueueEntry { key: before[i].key, data: before[i].data.evicted() }
                    } else {
                        before[i]
                    }),
                forall|i: int|
                    p <= i < before.len() ==> (#[trigger] self.queue.entries()[i]) == before[i],
                woken@ == entries::asked_wakers(before.take(p), evict),
            ensures
                p == before.len(),
            decreases before.len() - p,
        {
            let handle = match next {
                Some(handle) => handle,
                None => {
                    break ;
                },
            };
            proof {
                self.queue.lemma_unique_keys();
                queue::lemma_position(self.queue.entries(), p);
            }
            let wanted: bool = decide(self.queue.get_by_handle(handle.as_ref()));
            next = self.queue.get_next_handle(handle.as_ref());
            if wanted {
                match Self::evict(&mut self.queue, &handle) {
                    Some(waker) => {
                        woken.push(waker);
                    },
                    None => {},
                }
            }
            proof {
                let taken = before.take(p + 1);
                assert(taken.drop_last() =~= before.take(p));
                entries::lemma_asked_prefix(before.take(p), evict, evict.push(wanted));
                evict = evict.push(wanted);
                p = p + 1;
            }
        }
        proof {
            assert(before.take(p) =~= before);
            assert(self.queue.entries() =~= entries::asked(before, evict));
            assert(self.entries() == entries::asked(old(self).entries(), evict));
        }
        woken
    }

    /// Asks the holders to leave who have a lower priority than `priority`.
    fn ask_holders(&mut self, priority: &P) -> (woken: Vec<Waker>)
        requires
            old(self).queue.wf(),
        ensures
            final(self).queue.wf(),
            final(self).total == old(self).total,
            final(self).available == old(self).available,
            exists|evict: Seq<bool>|
                {
                    &&& entries::in_the_way(old(self).entries(), *priority, evict)
                    &&& final(self).entries() == #[trigger] entries::asked(
                        old(self).entries(),
                        evict,
                    )
                    &&& woken@ == entries::asked_wakers(old(self).entries(), evict)
                },
    {
        let below = |entry: &SemaphoreWaiter<P>| -> (evict: bool)
            ensures
                evict ==> entry.waiter.holds(),
                entry.waiter.holds() && priority.comparable(&entry.priority) ==> evict == (
                priority.order(&entry.priority) > 0),
        { entry.waiter.has_lock() && rank(priority, &entry.priority) > 0 };
        self.ask(None, below)
    }

    /// Turns those away, from the entry `start` (or the first one) on, who wait for more permits than
    /// there are in all and want to be told so.
    fn notify_oversized_waiters(&mut self, start: Option<Q::SharedHandle>) -> (woken: Vec<Waker>)
        requires
            old(self).coherent(),
            start is Some ==> queue::has_key(old(self).entries(), start->0.shared_key()),
        ensures
            final(self).coherent(),
            final(self).entries().len() == old(self).entries().len(),
            final(self).total() == old(self).total(),
            final(self).available() == old(self).available(),
            final(self).holders() == old(self).holders(),
            ({
                let from = if start is Some {
                    old(self).turn(start->0.shared_key())
                } else {
                    0
                };
                let evict = entries::oversized(old(self).waiting(), from, old(self).total());
                &&& final(self).waiting() == entries::asked(old(self).waiting(), evict)
                &&& woken@ == entries::asked_wakers(old(self).waiting(), evict)
            }),
    {
        let ghost before = self.queue.entries();
        let ghost h = entries::held_len(before);
        let ghost first = if start is Some {
            queue::position(before, start->0.shared_key())
        } else {
            0
        };
        proof {
            self.queue.lemma_unique_keys();
        }
        let total: usize = self.total;
        let exceeds = |entry: &SemaphoreWaiter<P>| -> (evict: bool)
            ensures
                evict == (entry.within_total && entry.count > total),
        {
            let (count, should_evict): (usize, bool) = entry.count_and_flag();
            should_evict && count > total
        };
        let woken: Vec<Waker> = self.ask(start, exceeds);
        proof {
            let evict = choose|evict: Seq<bool>|
                {
                    &&& evict.len() == before.len()
                    &&& forall|i: int| 0 <= i < first ==> !(#[trigger] evict[i])
                    &&& forall|i: int|
                        first <= i < evict.len() ==> call_ensures(
                            exceeds,
                            (&before[i].data,),
                            #[trigger] evict[i],
                        )
                    &&& self.entries() == #[trigger] entries::asked(before, evict)
                    &&& woken@ == entries::asked_wakers(before, evict)
                };
            assert(entries::split_at(before, h));
            assert forall|i: int| 0 <= i < h implies !(#[trigger] evict[i]) by {
                entries::lemma_issued_covers(before, i, i);
                assert(before[i].data.waiter.holds());
            }
            entries::lemma_asked(before, evict);
            entries::lemma_same_ranks(before, self.queue.entries());
            entries::lemma_asked_waiting(before, evict, h);
            entries::lemma_split(before, h);
            assert(evict.skip(h) =~= entries::oversized(
                entries::waiting(before),
                if first < h {
                    0
                } else {
                    first - h
                },
                total as int,
            ));
        }
        woken
    }

    /// The first who waits and isn't turned away.
    fn first_in_line(&self) -> (first: Option<&SemaphoreWaiter<P>>)
        requires
            self.coherent(),
        ensures
            match first {
                Some(data) => entries::first_in_line(self.waiting()) == Some(*data),
                None => entries::first_in_line(self.waiting()) is None,
            },
    {
        let ghost entries = self.queue.entries();
        let ghost h = entries::held_len(entries);
        let items = self.queue.iter();
        let mut i: usize = 0;
        while i < items.len()
            invariant
                i <= items.len(),
                items@.len() == entries.len(),
                forall|j: int| 0 <= j < items@.len() ==> *(#[trigger] items@[j]) == entries[j].data,
                entries::split_at(entries, h),
                entries::first_in_line(self.waiting()) == entries::first_in_line(
                    entries.skip(
                        if i < h {
                            h
                        } else {
                            i as int
                        },
                    ),
                ),
            decreases items.len() - i,
        {
            let item = items[i];
            if !item.waiter.has_lock() {
                assert(entries.skip(i as int).skip(1) =~= entries.skip(i + 1));
                if !item.waiter.wants_evict() {
                    return Some(item);
                }
            }
            i = i + 1;
        }
        None
    }

    /// Whether someone who waits, and isn't turned away, has a higher priority than `priority`.
    fn outranked(&self, priority: &P) -> (asked: bool)
        requires
            self.coherent(),
        ensures
            entries::outranked(self.waiting(), *priority, asked),
    {
        let ghost entries = self.queue.entries();
        let ghost h = entries::held_len(entries);
        proof {
            assert(entries::split_at(entries, h));
            entries::lemma_split(entries, h);
        }
        let items = self.queue.iter();
        let mut i: usize = 0;
        while i < items.len()
            invariant
                i <= items.len(),
                items@.len() == entries.len(),
                forall|j: int| 0 <= j < items@.len() ==> *(#[trigger] items@[j]) == entries[j].data,
                entries::split_at(entries, h),
                self.waiting() == entries.skip(h),
                forall|j: int|
                    {
                        &&& h <= j < i
                        &&& !(#[trigger] entries[j]).data.waiter.unwanted()
                        &&& entries[j].data.priority.comparable(priority)
                    } ==> entries[j].data.priority.order(priority) <= 0,
            decreases items.len() - i,
        {
            let item = items[i];
            if !item.waiter.has_lock() && !item.waiter.wants_evict() && rank(
                &item.priority,
                priority,
            ) > 0 {
                assert(self.waiting()[i - h] == entries[i as int]);
                return true;
            }
            i = i + 1;
        }
        false
    }

    /// Requests `count` permits. They are granted right away if there are enough of them and nobody
    /// else is first in line. Otherwise the requester is queued, and the holders of lower priority
    /// are asked to leave.
    fn do_acquire(&mut self, priority: P, count: usize, within_total: bool) -> (outcome: (
        Q::Handle,
        bool,
        Vec<Waker>,
    ))
        requires
            old(self).wf(),
            old(self).entries().len() < MAX_ENTRIES,
            count <= MAX_PERMITS,
            within_total ==> count <= old(self).total(),
        ensures
            final(self).wf(),
            final(self).requested(
                old(self),
                priority,
                count,
                within_total,
                outcome.0.key(),
                outcome.1,
                outcome.2@,
            ),
    {
        let will_acquire: bool = count <= self.available && match self.first_in_line() {
            Some(first) => rank_new(&priority, &first.priority) >= 0,
            None => true,
        };
        let entry = SemaphoreWaiter::new(priority, will_acquire, count, within_total);
        if will_acquire {
            self.available = self.available - count;
            let handle = self.queue.enqueue(entry);
            proof {
                self.lemma_granted(old(self), handle.key(), entry);
            }
            return (handle, true, Vec::new());
        }
        let woken: Vec<Waker> = self.ask_holders(&entry.priority);
        let ghost evict = choose|evict: Seq<bool>|
            {
                &&& entries::in_the_way(old(self).entries(), priority, evict)
                &&& self.entries() == #[trigger] entries::asked(old(self).entries(), evict)
                &&& woken@ == entries::asked_wakers(old(self).entries(), evict)
            };
        let handle = self.queue.enqueue(entry);
        proof {
            self.lemma_queued(old(self), evict, handle.key(), entry);
        }
        (handle, false, woken)
    }

    /// Looks whether an entry has reached `target`. If not, keeps the waker.
    fn wait_for_flag(&mut self, handle: &Q::Handle, waker: Waker, target: usize) -> (ready: Option<
        usize,
    >)
        requires
            old(self).wf(),
            queue::has_key(old(self).entries(), handle.key()),
        ensures
            final(self).wf(),
            ready == (if old(self).entry(handle.key()).waiter.reaches(target) {
                Some(old(self).entry(handle.key()).waiter.flags)
            } else {
                None
            }),
            final(self).rewatched(
                old(self),
                handle.key(),
                if ready is Some {
                    None
                } else {
                    Some(waker)
                },
            ),
    {
        let wait = |entry: &mut SemaphoreWaiter<P>| -> (outcome: (bool, Option<usize>))
            ensures
                !outcome.0,
                old(entry).waiter.reaches(target) ==> outcome.1 == Some(old(entry).waiter.flags)
                    && *final(entry) == old(entry).watched(None),
                !old(entry).waiter.reaches(target) ==> outcome.1 is None && *final(entry) == old(
                    entry,
                ).watched(Some(waker)),
        {
            (false, entry.waiter.wait_for_flag(waker, target))
        };
        let ready: Option<usize> = self.queue.update_node(handle, wait);
        proof {
            let kept = if ready is Some {
                None
            } else {
                Some(waker)
            };
            self.lemma_rewatched(old(self), handle.key(), kept);
        }
        ready
    }

    /// Takes an entry out of the queue, and makes available what it holds. Returns whether it held
    /// permits, whether it was the first who waits, and the handle of the entry after it.
    fn withdraw(&mut self, handle: Q::Handle) -> (outcome: (bool, bool, Option<Q::SharedHandle>))
        requires
            old(self).coherent(),
            queue::has_key(old(self).entries(), handle.key()),
        ensures
            final(self).coherent(),
            final(self).entries().len() == old(self).entries().len() - 1,
            final(self).total() == old(self).total(),
            outcome.0 == old(self).holders().contains_key(handle.key()),
            outcome.0 ==> {
                &&& final(self).available() == old(self).available() + old(self).entry(
                    handle.key(),
                ).count
                &&& final(self).holders() == old(self).holders().remove(handle.key())
                &&& final(self).waiting() == old(self).waiting()
            },
            !outcome.0 ==> {
                let turn = queue::position(old(self).waiting(), handle.key());
                &&& final(self).available() == old(self).available()
                &&& final(self).holders() == old(self).holders()
                &&& final(self).waiting() == old(self).waiting().remove(turn)
                &&& outcome.1 == (turn == 0)
            },
            outcome.0 || outcome.1 ==> match outcome.2 {
                Some(next) => {
                    &&& queue::has_key(final(self).entries(), next.shared_key())
                    &&& queue::position(final(self).entries(), next.shared_key())
                        <= entries::held_len(final(self).entries())
                },
                None => final(self).waiting().len() == 0,
            },
    {
        let ghost before = self.queue.entries();
        let ghost h = entries::held_len(before);
        let ghost i = queue::position(before, handle.key());
        proof {
            self.queue.lemma_unique_keys();
            assert(entries::split_at(before, h));
            assert(before[i].key == handle.key());
            entries::lemma_turn(before, h, handle.key());
            entries::lemma_remove(before, h, i);
            entries::lemma_removed_in_order(before, i);
            entries::lemma_issued_covers(before, i, i);
        }
        let node = self.queue.get_by_handle(&handle);
        let is_active: bool = node.waiter.has_lock();
        if is_active {
            self.available = self.available + node.count();
        }
        let (prev, next): (Option<&SemaphoreWaiter<P>>, Option<Q::SharedHandle>) =
            self.queue.dequeue(handle);
        let was_first: bool = !is_active && match prev {
            Some(prev) => prev.waiter.has_lock(),
            None => true,
        };
        proof {
            let after = self.queue.entries();
            let g = if i < h {
                h - 1
            } else {
                h
            };
            entries::lemma_split(before, h);
            entries::lemma_split(after, g);
            assert(entries::at_most(after, MAX_PERMITS as int)) by {
                assert forall|j: int| 0 <= j < after.len() implies (
                #[trigger] after[j]).data.count <= MAX_PERMITS by {
                    assert(after[j] == before[if j < i {
                        j
                    } else {
                        j + 1
                    }]);
                }
            }
            assert(i > 0 ==> before[i - 1].data.waiter.holds() == (i - 1 < h));
            if next is Some {
                assert(after[i] == before[i + 1]);
                queue::lemma_position(after, i);
            }
        }
        (is_active, was_first, next)
    }

    /// Leaves the queue.
    fn leave(&mut self, handle: Q::Handle) -> (woken: Vec<Waker>)
        requires
            old(self).wf(),
            queue::has_key(old(self).entries(), handle.key()),
        ensures
            final(self).wf(),
            final(self).cancelled(old(self), handle.key(), woken@),
    {
        let ghost key = handle.key();
        proof {
            self.lemma_entry(key);
        }
        let (is_active, was_first, next): (bool, bool, Option<Q::SharedHandle>) = self.withdraw(
            handle,
        );
        if is_active || was_first && self.available > 0 {
            // Either there are permits to grant, or those after this one may have been blocked due
            // to waiting on it.
            return self.activate_waiters(next);
        }
        proof {
            let turn = queue::position(old(self).waiting(), key);
            if turn > 0 {
                assert(self.waiting()[0] == old(self).waiting()[0]);
            }
        }
        Vec::new()
    }
}

impl<P: Priority, Q: SemaphoreQueue<P>> Semaphore<P, Q> {
    /// What a request that is granted right away changes.
    proof fn lemma_granted(&self, before: &Self, key: int, entry: SemaphoreWaiter<P>)
        requires
            before.wf(),
            self.queue.wf(),
            self.total == before.total,
            self.available == before.available - entry.count,
            queue::enqueued(before.entries(), self.entries(), key, entry),
            entry.waiter.holds(),
            entry.count <= MAX_PERMITS,
            ({
                let first = entries::first_in_line(before.waiting());
                first is Some && entry.priority.comparable(&first->0.priority)
                    ==> entry.priority.order_new(&first->0.priority) >= 0
            }),
        ensures
            self.wf(),
            queue::has_key(self.entries(), key),
            self.entries().len() == before.entries().len() + 1,
            self.holders() == before.holders().insert(key, entry),
            self.waiting() == before.waiting(),
    {
        let entries = before.queue.entries();
        let after = self.queue.entries();
        let h = entries::held_len(entries);
        before.queue.lemma_unique_keys();
        assert(entries::split_at(entries, h));
        entries::lemma_enqueued(entries, after, h, key, entry);
        entries::lemma_enqueued_in_order(entries, after, key, entry);
        entries::lemma_enqueued_at_most(entries, after, key, entry, MAX_PERMITS as int);
        if priority::lawful::<P>() {
            let waiting = before.waiting();
            assert forall|k: int, j: int|
                {
                    &&& #[trigger] self.holders().contains_key(k)
                    &&& 0 <= j < waiting.len()
                    &&& !(#[trigger] waiting[j]).data.waiter.unwanted()
                    &&& waiting[j].data.priority.order(&self.holders()[k].priority) > 0
                } implies self.holders()[k].waiter.unwanted() by {
                if k == key {
                    before.lemma_ranks_first(entry.priority, j);
                } else {
                    assert(before.holders().contains_key(k));
                }
            }
        }
    }

    /// Whoever may go before the first in line ranks below nobody who waits and isn't turned away.
    proof fn lemma_ranks_first(&self, priority: P, i: int)
        requires
            priority::lawful::<P>(),
            self.wf(),
            ({
                let first = entries::first_in_line(self.waiting());
                first is Some && priority.comparable(&first->0.priority) ==> priority.order_new(
                    &first->0.priority,
                ) >= 0
            }),
            0 <= i < self.waiting().len(),
            !self.waiting()[i].data.waiter.unwanted(),
        ensures
            priority.order(&self.waiting()[i].data.priority) >= 0,
            self.waiting()[i].data.priority.order(&priority) <= 0,
            priority::newest_last::<P>() ==> priority.order(&self.waiting()[i].data.priority) > 0,
    {
        let waiting = self.waiting();
        lemma_someone_in_line(waiting, i);
        let j = entries::lemma_first_in_line(waiting);
        let first = waiting[j].data.priority;
        reveal(priority::newest_last);
        priority::lemma_lawful_pair(priority, first);
        if j < i {
            law_waiting_in_order(*self, j, i);
            priority::lemma_lawful_chain(priority, first, waiting[i].data.priority);
        }
        priority::lemma_lawful_pair(priority, waiting[i].data.priority);
    }

    /// What it changes that the holder with the key `own` has `left` permits left, and the new holder
    /// with the key `key` has the others.
    proof fn lemma_split_off(
        &self,
        before: &Self,
        mid: Seq<QueueEntry<SemaphoreWaiter<P>>>,
        own: int,
        left: usize,
        key: int,
        entry: SemaphoreWaiter<P>,
    )
        requires
            before.wf(),
            before.holders().contains_key(own),
            queue::has_key(before.entries(), own),
            self.queue.wf(),
            self.total == before.total,
            self.available == before.available,
            mid == before.entries().update(
                queue::position(before.entries(), own),
                QueueEntry { key: own, data: before.entry(own).with_count(left) },
            ),
            queue::enqueued(mid, self.entries(), key, entry),
            entry.waiter.holds(),
            before.entry(own).count == left + entry.count,
            entry.waiter.unwanted() || entries::outranked(before.waiting(), entry.priority, false),
        ensures
            self.wf(),
            !queue::has_key(before.entries(), key),
            self.entries().len() == before.entries().len() + 1,
            self.waiting() == before.waiting(),
            self.holders() == before.holders().insert(
                own,
                before.holders()[own].with_count(left),
            ).insert(key, entry),
    {
        let entries = before.queue.entries();
        let after = self.queue.entries();
        let h = entries::held_len(entries);
        let i = queue::position(entries, own);
        before.lemma_entry(own);
        before.queue.lemma_unique_keys();
        assert(entries[i].key == own);
        assert(entries::split_at(entries, h));
        entries::lemma_turn(entries, h, own);
        entries::lemma_changed(entries, h, i, entries[i].data.with_count(left));
        entries::lemma_same_ranks(entries, mid);
        entries::lemma_enqueued(mid, after, h, key, entry);
        entries::lemma_enqueued_in_order(mid, after, key, entry);
        assert(!queue::has_key(entries, key)) by {
            assert forall|j: int| 0 <= j < entries.len() implies (#[trigger] entries[j]).key
                != key by {
                assert(mid[j].key == entries[j].key);
            }
        }
        assert(entries::at_most(mid, MAX_PERMITS as int)) by {
            assert forall|j: int| 0 <= j < mid.len() implies (#[trigger] mid[j]).data.count
                <= MAX_PERMITS by {
                assert(entries[j].data.count <= MAX_PERMITS);
            }
        }
        assert(entries[i].data.count <= MAX_PERMITS);
        entries::lemma_enqueued_at_most(mid, after, key, entry, MAX_PERMITS as int);
        if priority::lawful::<P>() {
            let waiting = before.waiting();
            assert forall|k: int, j: int|
                {
                    &&& #[trigger] self.holders().contains_key(k)
                    &&& 0 <= j < waiting.len()
                    &&& !(#[trigger] waiting[j]).data.waiter.unwanted()
                    &&& waiting[j].data.priority.order(&self.holders()[k].priority) > 0
                } implies self.holders()[k].waiter.unwanted() by {
                if k == key {
                    priority::lemma_lawful_pair(waiting[j].data.priority, entry.priority);
                } else {
                    assert(before.holders().contains_key(k));
                }
            }
        }
    }

    /// What a request that is queued changes, where those are asked to leave for whom `evict` says
    /// so.
    proof fn lemma_queued(
        &self,
        before: &Self,
        evict: Seq<bool>,
        key: int,
        entry: SemaphoreWaiter<P>,
    )
        requires
            before.wf(),
            self.queue.wf(),
            self.total == before.total,
            self.available == before.available,
            entries::in_the_way(before.entries(), entry.priority, evict),
            queue::enqueued(
                entries::asked(before.entries(), evict),
                self.entries(),
                key,
                entry,
            ),
            !entry.waiter.holds(),
            !entry.waiter.unwanted(),
            entry.count <= MAX_PERMITS,
            entry.within_total ==> entry.count <= before.total(),
            entry.count <= before.available() ==> {
                let first = entries::first_in_line(before.waiting());
                &&& first is Some
                &&& entry.priority.comparable(&first->0.priority) ==> entry.priority.order_new(
                    &first->0.priority,
                ) < 0
            },
        ensures
            self.wf(),
            !queue::has_key(before.entries(), key),
            queue::has_key(self.entries(), key),
            self.entries().len() == before.entries().len() + 1,
            self.holders().dom() == before.holders().dom(),
            forall|k: int| #[trigger]
                before.holders().contains_key(k) ==> entries::asked_by(
                    entry.priority,
                    before.holders()[k],
                    self.holders()[k],
                ),
            queue::enqueued(before.waiting(), self.waiting(), key, entry),
    {
        let entries = before.queue.entries();
        let mid = entries::asked(entries, evict);
        let after = self.queue.entries();
        let h = entries::held_len(entries);
        before.queue.lemma_unique_keys();
        assert(entries::split_at(entries, h));
        entries::lemma_asked(entries, evict);
        entries::lemma_same_ranks(entries, mid);
        entries::lemma_asked_holders(entries, evict, h, entry.priority);
        entries::lemma_enqueued(mid, after, h, key, entry);
        entries::lemma_enqueued_in_order(mid, after, key, entry);
        entries::lemma_enqueued_at_most(mid, after, key, entry, MAX_PERMITS as int);
        assert(!queue::has_key(entries, key)) by {
            assert forall|i: int| 0 <= i < entries.len() implies (#[trigger] entries[i]).key
                != key by {
                assert(mid[i].key == entries[i].key);
            }
        }
        assert(entries::turned_away(self.waiting(), self.total()) && entries::on_request(
            self.waiting(),
        )) by {
            let w = before.waiting();
            let k = queue::lemma_place(w, self.waiting(), key, entry);
            assert forall|i: int|
                0 <= i < self.waiting().len() && (
                #[trigger] self.waiting()[i]).data.within_total && self.waiting()[i].data.count
                    > self.total() implies self.waiting()[i].data.waiter.unwanted() by {
                if i < k {
                    assert(self.waiting()[i] == w[i]);
                } else if i > k {
                    assert(self.waiting()[i] == w[i - 1]);
                }
            }
            assert forall|i: int|
                0 <= i < self.waiting().len() && (
                #[trigger] self.waiting()[i]).data.waiter.unwanted() implies self.waiting()[i].data.within_total by {
                if i < k {
                    assert(self.waiting()[i] == w[i]);
                } else if i > k {
                    assert(self.waiting()[i] == w[i - 1]);
                }
            }
        }
        if priority::lawful::<P>() {
            self.lemma_queued_warned(before, key, entry);
        }
        if priority::regular::<P>() {
            entries::lemma_waiting_sorted(entries, h);
            if entry.count <= self.available {
                let first = entries::first_in_line(before.waiting())->0;
                priority::lemma_lawful_pair(entry.priority, first.priority);
            }
            entries::lemma_queued_stalled(
                before.waiting(),
                self.waiting(),
                key,
                entry,
                self.available as int,
            );
        }
    }

    /// A request that is queued has every holder of lower priority asked to leave.
    proof fn lemma_queued_warned(&self, before: &Self, key: int, entry: SemaphoreWaiter<P>)
        requires
            priority::lawful::<P>(),
            entries::warned(before.holders(), before.waiting()),
            self.holders().dom() == before.holders().dom(),
            forall|k: int| #[trigger]
                before.holders().contains_key(k) ==> entries::asked_by(
                    entry.priority,
                    before.holders()[k],
                    self.holders()[k],
                ),
            queue::enqueued(before.waiting(), self.waiting(), key, entry),
        ensures
            entries::warned(self.holders(), self.waiting()),
    {
        let w = before.waiting();
        let waiting = self.waiting();
        let at = queue::lemma_place(w, waiting, key, entry);
        assert forall|k: int, j: int|
            {
                &&& #[trigger] self.holders().contains_key(k)
                &&& 0 <= j < waiting.len()
                &&& !(#[trigger] waiting[j]).data.waiter.unwanted()
                &&& waiting[j].data.priority.order(&self.holders()[k].priority) > 0
            } implies self.holders()[k].waiter.unwanted() by {
            assert(before.holders().dom().contains(k));
            assert(before.holders().contains_key(k));
            let was = before.holders()[k];
            was.waiter.lemma_flags();
            if j == at {
                priority::lemma_lawful_pair(entry.priority, was.priority);
            } else {
                let i = if j < at {
                    j
                } else {
                    j - 1
                };
                assert(waiting[j] == w[i]);
            }
        }
    }

    /// Another waker is all that changes when an entry is watched by another task.
    proof fn lemma_rewatched(&self, before: &Self, key: int, waker: Option<Waker>)
        requires
            before.wf(),
            self.queue.wf(),
            self.total == before.total,
            self.available == before.available,
            queue::has_key(before.entries(), key),
            self.entries() == before.entries().update(
                queue::position(before.entries(), key),
                QueueEntry { key, data: before.entry(key).watched(waker) },
            ),
        ensures
            self.wf(),
            self.rewatched(before, key, waker),
    {
        let entries = before.queue.entries();
        let after = self.queue.entries();
        let h = entries::held_len(entries);
        let i = queue::position(entries, key);
        let data = entries[i].data.watched(waker);
        before.queue.lemma_unique_keys();
        assert(entries[i].key == key);
        assert(entries::split_at(entries, h));
        entries::lemma_turn(entries, h, key);
        entries::lemma_changed(entries, h, i, data);
        entries::lemma_same_ranks(entries, after);
        assert(after[i].key == key);
        assert(entries::at_most(after, MAX_PERMITS as int)) by {
            assert forall|j: int| 0 <= j < after.len() implies (#[trigger] after[j]).data.count
                <= MAX_PERMITS by {
                assert(entries[j].data.count <= MAX_PERMITS);
            }
        }
    }

    /// An entry either holds permits or waits.
    proof fn lemma_entry(&self, key: int)
        requires
            self.coherent(),
            queue::has_key(self.entries(), key),
        ensures
            self.holders().contains_key(key) == self.entry(key).waiter.holds(),
            self.holders().contains_key(key) ==> self.holders()[key] == self.entry(key),
            !self.holders().contains_key(key) ==> {
                let turn = queue::position(self.waiting(), key);
                &&& queue::has_key(self.waiting(), key)
                &&& 0 <= turn < self.waiting().len()
                &&& self.waiting()[turn] == (QueueEntry { key, data: self.entry(key) })
            },
    {
        let entries = self.queue.entries();
        let h = entries::held_len(entries);
        let i = queue::position(entries, key);
        self.queue.lemma_unique_keys();
        assert(entries[i].key == key);
        assert(entries::split_at(entries, h));
        entries::lemma_split(entries, h);
        entries::lemma_turn(entries, h, key);
    }

    /// It is all the same who watches an entry that leaves the queue.
    proof fn lemma_cancelled(&self, before: &Self, mid: &Self, key: int, woken: Seq<Waker>)
        requires
            before.wf(),
            queue::has_key(before.entries(), key),
            !before.holders().contains_key(key),
            mid.rewatched(before, key, None),
            mid.wf(),
            self.cancelled(mid, key, woken),
        ensures
            self.cancelled(before, key, woken),
    {
        before.lemma_entry(key);
        mid.lemma_entry(key);
        let turn = queue::position(before.waiting(), key);
        mid.lemma_waiting_keys();
        before.lemma_waiting_keys();
        assert(mid.waiting()[turn].key == key);
        queue::lemma_position(mid.waiting(), turn);
        assert(mid.waiting().remove(turn) =~= before.waiting().remove(turn));
    }

    /// No two who wait have the same key.
    proof fn lemma_waiting_keys(&self)
        requires
            self.coherent(),
        ensures
            queue::unique_keys(self.waiting()),
    {
        let entries = self.queue.entries();
        let h = entries::held_len(entries);
        self.queue.lemma_unique_keys();
        assert(entries::split_at(entries, h));
        entries::lemma_split(entries, h);
        let w = self.waiting();
        assert forall|a: int, b: int| 0 <= a < b < w.len() implies (#[trigger] w[a]).key != (
        #[trigger] w[b]).key by {
            assert(w[a] == entries[h + a]);
            assert(w[b] == entries[h + b]);
        }
    }

    /// The first entry is one from where those who wait can be served.
    proof fn lemma_head(&self)
        requires
            self.coherent(),
        ensures
            self.entries().len() > 0 ==> {
                &&& queue::has_key(self.entries(), self.entries()[0].key)
                &&& queue::position(self.entries(), self.entries()[0].key) == 0
            },
            0 <= entries::held_len(self.entries()) <= self.entries().len(),
    {
        self.queue.lemma_unique_keys();
        assert(entries::split_at(self.queue.entries(), entries::held_len(self.queue.entries())));
        if self.queue.entries().len() > 0 {
            queue::lemma_position(self.queue.entries(), 0);
        }
    }

    /// Every permit is either available or held by someone.
    proof fn lemma_conserved(&self)
        requires
            self.coherent(),
        ensures
            self.total() == self.available() + entries::issued(self.entries()),
            entries::issued(self.entries()) >= 0,
    {
        entries::lemma_issued_natural(self.queue.entries());
    }
}

impl<P: Priority, Q: SemaphoreQueue<P>> Default for Semaphore<P, Q> {
    /// Creates a new [Semaphore] with zero permits.
    fn default() -> (semaphore: Self)
        ensures
            semaphore.wf(),
            semaphore.entries().len() == 0,
            semaphore.total() == 0,
            semaphore.available() == 0,
    {
        Self::new(0)
    }
}

impl<P: Priority, Q: SemaphoreQueue<P>> SemaphorePermit<P, Q> {
    /// Looks whether the holder is asked to leave, because a requester of higher priority waits. If
    /// not, keeps the waker, for the holder's task to be woken once it is.
    pub fn evicted(&self, semaphore: &mut Semaphore<P, Q>, waker: Waker) -> (evicted: bool)
        requires
            old(semaphore).wf(),
            old(semaphore).held_by(self),
        ensures
            final(semaphore).wf(),
            evicted == old(semaphore).holders()[self.key()].waiter.unwanted(),
            final(semaphore).rewatched(
                old(semaphore),
                self.key(),
                if evicted {
                    None
                } else {
                    Some(waker)
                },
            ),
            final(semaphore).held_by(self),
    {
        proof {
            semaphore.lemma_entry(self.key());
            semaphore.entry(self.key()).waiter.lemma_flags();
        }
        semaphore.wait_for_flag(&self.handle, waker, WAITER_FLAG_WANTS_EVICT).is_some()
    }

    /// Drops the waker of the holder, who no longer waits to be asked to leave.
    pub fn ignore_evicted(&self, semaphore: &mut Semaphore<P, Q>)
        requires
            old(semaphore).wf(),
            old(semaphore).held_by(self),
        ensures
            final(semaphore).wf(),
            final(semaphore).rewatched(old(semaphore), self.key(), None),
            final(semaphore).held_by(self),
    {
        let clear = |entry: &mut SemaphoreWaiter<P>| -> (outcome: (bool, usize))
            ensures
                !outcome.0,
                *final(entry) == old(entry).watched(None),
        {
            (false, entry.waiter.clear_waker())
        };
        semaphore.queue.update_node(&self.handle, clear);
        proof {
            semaphore.lemma_rewatched(old(semaphore), self.key(), None);
        }
    }

    /// Remove these permits from the pool of permits in the semaphore. Returns the wakers of those
    /// who are turned away for that, whose tasks are to be woken.
    pub fn forget(self, semaphore: &mut Semaphore<P, Q>) -> (woken: Vec<Waker>)
        requires
            old(semaphore).wf(),
            old(semaphore).held_by(&self),
        ensures
            final(semaphore).wf(),
            final(semaphore).entries().len() == old(semaphore).entries().len() - 1,
            final(semaphore).total() == old(semaphore).total() - old(
                semaphore,
            ).holders()[self.key()].count,
            final(semaphore).available() == old(semaphore).available(),
            final(semaphore).holders() == old(semaphore).holders().remove(self.key()),
            final(semaphore).reduced(old(semaphore), woken@),
    {
        proof {
            semaphore.lemma_entry(self.key());
            semaphore.lemma_conserved();
        }
        let count: usize = semaphore.queue.get_by_handle(&self.handle).count();
        let (_, _, next): (bool, bool, Option<Q::SharedHandle>) = semaphore.withdraw(self.handle);
        proof {
            semaphore.lemma_conserved();
        }
        semaphore.available = semaphore.available - count;
        semaphore.total = semaphore.total - count;
        let woken: Vec<Waker> = match next {
            Some(next) => semaphore.notify_oversized_waiters(Some(next)),
            None => Vec::new(),
        };
        proof {
            let waiting = old(semaphore).waiting();
            if waiting.len() == 0 {
                assert(entries::asked(
                    waiting,
                    entries::oversized(waiting, 0, semaphore.total()),
                ) =~= waiting);
            }
            entries::lemma_oversized(
                old(semaphore).waiting(),
                semaphore.total(),
                old(semaphore).available(),
                semaphore.available(),
            );
        }
        woken
    }

    /// The count of permits held.
    pub fn permits(&self, semaphore: &Semaphore<P, Q>) -> (count: usize)
        requires
            semaphore.wf(),
            semaphore.held_by(self),
        ensures
            count == semaphore.holders()[self.key()].count,
    {
        proof {
            semaphore.lemma_entry(self.key());
        }
        semaphore.queue.get_by_handle(&self.handle).count()
    }

    /// Gives a holder another count of permits. Whatever that changes in all has to be made up for.
    fn recount(queue: &mut Q, handle: &Q::Handle, count: usize)
        requires
            old(queue).wf(),
            queue::has_key(old(queue).entries(), handle.key()),
        ensures
            final(queue).wf(),
            ({
                let before = old(queue).entries();
                let i = queue::position(before, handle.key());
                final(queue).entries() == before.update(
                    i,
                    QueueEntry { key: before[i].key, data: before[i].data.with_count(count) },
                )
            }),
    {
        let set_count = |entry: &mut SemaphoreWaiter<P>| -> (outcome: (bool, ()))
            ensures
                !outcome.0,
                *final(entry) == old(entry).with_count(count),
        {
            entry.count = count;
            (false, ())
        };
        queue.update_node(handle, set_count);
    }

    /// Split into multiple permits. The new one has the priority `priority` for evictions.
    pub fn split_with_priority(
        &self,
        semaphore: &mut Semaphore<P, Q>,
        count: usize,
        priority: P,
    ) -> (result: Result<Self, InsufficientPermitsError>)
        requires
            old(semaphore).wf(),
            old(semaphore).held_by(self),
            old(semaphore).entries().len() < MAX_ENTRIES,
            count > 0,
        ensures
            final(semaphore).wf(),
            final(semaphore).split_off(old(semaphore), self, count, priority, false, result),
    {
        self.do_split(semaphore, count, priority, false)
    }

    /// Split into multiple permits. The new one has the same priority for evictions, and is asked to
    /// leave if this one is.
    pub fn split(&self, semaphore: &mut Semaphore<P, Q>, count: usize) -> (result: Result<
        Self,
        InsufficientPermitsError,
    >) where P: Clone
        requires
            old(semaphore).wf(),
            old(semaphore).held_by(self),
            old(semaphore).entries().len() < MAX_ENTRIES,
            count > 0,
        ensures
            final(semaphore).wf(),
            exists|priority: P|
                {
                    &&& #[trigger] call_ensures(
                        P::clone,
                        (&old(semaphore).holders()[self.key()].priority,),
                        priority,
                    )
                    &&& final(semaphore).split_off(
                        old(semaphore),
                        self,
                        count,
                        priority,
                        old(semaphore).holders()[self.key()].waiter.unwanted(),
                        result,
                    )
                },
    {
        proof {
            semaphore.lemma_entry(self.key());
        }
        let own = semaphore.queue.get_by_handle(&self.handle);
        let priority: P = own.priority.clone();
        let inherited: bool = own.waiter.wants_evict();
        self.do_split(semaphore, count, priority, inherited)
    }

    /// Splits permits off for a new holder, which is asked to leave if `inherited` is set, or if
    /// someone who waits has a higher priority.
    fn do_split(
        &self,
        semaphore: &mut Semaphore<P, Q>,
        count: usize,
        priority: P,
        inherited: bool,
    ) -> (result: Result<Self, InsufficientPermitsError>)
        requires
            old(semaphore).wf(),
            old(semaphore).held_by(self),
            old(semaphore).entries().len() < MAX_ENTRIES,
            count > 0,
        ensures
            final(semaphore).wf(),
            final(semaphore).split_off(old(semaphore), self, count, priority, inherited, result),
    {
        proof {
            semaphore.lemma_entry(self.key());
            let i = queue::position(semaphore.entries(), self.key());
            assert(semaphore.queue.entries()[i].data.count <= MAX_PERMITS);
        }
        let held: usize = semaphore.queue.get_by_handle(&self.handle).count();
        if held <= count {
            return Err(InsufficientPermitsError::new(held, count));
        }
        let asked: bool = inherited || semaphore.outranked(&priority);
        let mut entry = SemaphoreWaiter::new(priority, true, count, false);
        proof {
            entry.waiter.lemma_flags();
        }
        if asked {
            // Nobody watches the new entry yet, so that there is no task to be woken.
            entry.waiter.evict();
        }
        Self::recount(&mut semaphore.queue, &self.handle, held - count);
        let ghost mid = semaphore.queue.entries();
        let handle = semaphore.queue.enqueue(entry);
        proof {
            semaphore.lemma_split_off(
                old(semaphore),
                mid,
                self.key(),
                (held - count) as usize,
                handle.key(),
                entry,
            );
        }
        Ok(SemaphorePermit { handle, phantom: PhantomData })
    }

    /// Merge another permit of the same semaphore into this one.
    pub fn merge(&self, semaphore: &mut Semaphore<P, Q>, other: Self)
        requires
            old(semaphore).wf(),
            old(semaphore).held_by(self),
            old(semaphore).held_by(&other),
            self.key() != other.key(),
            old(semaphore).holders()[self.key()].count + old(
                semaphore,
            ).holders()[other.key()].count <= MAX_PERMITS,
        ensures
            final(semaphore).wf(),
            final(semaphore).held_by(self),
            final(semaphore).entries().len() == old(semaphore).entries().len() - 1,
            final(semaphore).total() == old(semaphore).total(),
            final(semaphore).available() == old(semaphore).available(),
            final(semaphore).waiting() == old(semaphore).waiting(),
            ({
                let own = old(semaphore).holders()[self.key()];
                let both = own.count + old(semaphore).holders()[other.key()].count;
                final(semaphore).holders() == old(semaphore).holders().remove(other.key()).insert(
                    self.key(),
                    own.with_count(both as usize),
                )
            }),
    {
        let ghost before = semaphore.queue.entries();
        let ghost h = entries::held_len(before);
        let ghost i = queue::position(before, self.key());
        proof {
            semaphore.lemma_entry(self.key());
            semaphore.lemma_entry(other.key());
            semaphore.queue.lemma_unique_keys();
            assert(entries::split_at(before, h));
            entries::lemma_turn(before, h, self.key());
            entries::lemma_turn(before, h, other.key());
        }
        let own_count: usize = semaphore.queue.get_by_handle(&self.handle).count();
        let other_count: usize = semaphore.queue.get_by_handle(&other.handle).count();
        let both: usize = own_count + other_count;
        let ghost gone = other.key();
        Self::recount(&mut semaphore.queue, &self.handle, both);
        let ghost mid = semaphore.queue.entries();
        proof {
            let j = queue::position(before, gone);
            entries::lemma_changed(before, h, i, before[i].data.with_count(both));
            entries::lemma_same_ranks(before, mid);
            assert(mid[j].key == gone);
            queue::lemma_position(mid, j);
            assert(mid[j] == before[j]);
            entries::lemma_remove(mid, h, j);
            entries::lemma_removed_in_order(mid, j);
        }
        semaphore.queue.dequeue(other.handle);
        proof {
            let after = semaphore.queue.entries();
            let j = queue::position(before, gone);
            assert(after == mid.remove(j));
            assert(entries::at_most(after, MAX_PERMITS as int)) by {
                assert forall|a: int| 0 <= a < after.len() implies (
                #[trigger] after[a]).data.count <= MAX_PERMITS by {
                    let b = if a < j {
                        a
                    } else {
                        a + 1
                    };
                    assert(after[a] == mid[b]);
                    assert(before[b].data.count <= MAX_PERMITS);
                }
            }
            assert(entries::holders(after) =~= entries::holders(before).remove(gone).insert(
                self.key(),
                before[i].data.with_count(both),
            ));
        }
    }
}

/// No permit is lost or made up: the permits that are available and those that are held make up the
/// total, no holder has more than that, nor more than [MAX_PERMITS].
pub proof fn law_conservation<P: Priority, Q: SemaphoreQueue<P>>(
    semaphore: Semaphore<P, Q>,
    key: int,
)
    requires
        semaphore.wf(),
    ensures
        0 <= semaphore.available() <= semaphore.total(),
        semaphore.total() == semaphore.available() + entries::issued(semaphore.entries()),
        semaphore.total() == semaphore.entries().fold_left(
            semaphore.available(),
            |sum: int, entry: QueueEntry<SemaphoreWaiter<P>>|
                if entry.data.waiter.holds() {
                    sum + entry.data.count
                } else {
                    sum
                },
        ),
        semaphore.holders().contains_key(key) ==> {
            &&& semaphore.holders()[key].count <= semaphore.total()
            &&& semaphore.holders()[key].count <= MAX_PERMITS
        },
{
    entries::law_issued(semaphore.entries(), semaphore.available());
    semaphore.lemma_conserved();
    if semaphore.holders().contains_key(key) {
        semaphore.lemma_entry(key);
        let i = queue::position(semaphore.entries(), key);
        assert(semaphore.queue.entries()[i].data.count <= MAX_PERMITS);
        entries::lemma_issued_covers(semaphore.entries(), i, i);
    }
}

/// Those who hold permits come first, followed by those who wait. Every entry is one or the other,
/// and no two have the same key.
pub proof fn law_two_sides<P: Priority, Q: SemaphoreQueue<P>>(semaphore: Semaphore<P, Q>, key: int)
    requires
        semaphore.wf(),
    ensures
        entries::split_at(semaphore.entries(), entries::held_len(semaphore.entries())),
        queue::unique_keys(semaphore.entries()),
        queue::has_key(semaphore.entries(), key) <==> semaphore.holders().contains_key(key)
            || queue::has_key(semaphore.waiting(), key),
        !(semaphore.holders().contains_key(key) && queue::has_key(semaphore.waiting(), key)),
        forall|i: int, j: int|
            0 <= i < j < semaphore.entries().len() ==> (#[trigger] semaphore.entries()[i]).key != (
            #[trigger] semaphore.entries()[j]).key,
        forall|i: int, j: int|
            0 <= i < j < semaphore.entries().len() && (
            #[trigger] semaphore.entries()[j]).data.waiter.holds() ==> (
            #[trigger] semaphore.entries()[i]).data.waiter.holds(),
        forall|i: int|
            0 <= i < semaphore.entries().len() ==> {
                let entry = #[trigger] semaphore.entries()[i];
                if entry.data.waiter.holds() {
                    &&& semaphore.holders().contains_key(entry.key)
                    &&& semaphore.holders()[entry.key] == entry.data
                } else {
                    &&& !semaphore.holders().contains_key(entry.key)
                    &&& i >= semaphore.entries().len() - semaphore.waiting().len()
                }
            },
        semaphore.waiting().len() <= semaphore.entries().len(),
        forall|i: int|
            0 <= i < semaphore.waiting().len() ==> {
                &&& (#[trigger] semaphore.waiting()[i]) == semaphore.entries()[i
                    + semaphore.entries().len() - semaphore.waiting().len()]
                &&& !semaphore.waiting()[i].data.waiter.holds()
            },
        semaphore.holders().contains_key(key) ==> exists|i: int|
            {
                &&& 0 <= i < semaphore.entries().len()
                &&& (#[trigger] semaphore.entries()[i]).key == key
                &&& semaphore.entries()[i].data == semaphore.holders()[key]
            },
{
    let entries = semaphore.queue.entries();
    let h = entries::held_len(entries);
    semaphore.queue.lemma_unique_keys();
    assert(entries::split_at(entries, h));
    entries::lemma_split(entries, h);
    if queue::has_key(entries, key) {
        semaphore.lemma_entry(key);
    }
    entries::lemma_holders(entries);
    if queue::has_key(semaphore.waiting(), key) {
        let i = queue::position(semaphore.waiting(), key);
        assert(semaphore.waiting()[i].key == key);
        assert(semaphore.waiting()[i] == entries[h + i]);
    }
    if semaphore.holders().contains_key(key) {
        let i = queue::position(entries, key);
        assert(entries[i].key == key);
    }
}

/// What is known of an entry by its key is what those who hold permits, or those who wait, are known
/// to be.
pub proof fn law_entry<P: Priority, Q: SemaphoreQueue<P>>(semaphore: Semaphore<P, Q>, key: int)
    requires
        semaphore.wf(),
        queue::has_key(semaphore.entries(), key),
    ensures
        semaphore.holders().contains_key(key) == semaphore.entry(key).waiter.holds(),
        semaphore.holders().contains_key(key) ==> semaphore.holders()[key] == semaphore.entry(key),
        !semaphore.holders().contains_key(key) ==> {
            let turn = queue::position(semaphore.waiting(), key);
            &&& 0 <= turn < semaphore.waiting().len()
            &&& semaphore.waiting()[turn] == (QueueEntry { key, data: semaphore.entry(key) })
        },
{
    semaphore.lemma_entry(key);
}

/// Those who wait stand in order of priority. Where the priority says nothing of new ones, those of
/// the same priority stand in order of the permits they ask for, the lowest first.
pub proof fn law_waiting_in_order<P: Priority, Q: SemaphoreQueue<P>>(
    semaphore: Semaphore<P, Q>,
    i: int,
    j: int,
)
    requires
        priority::lawful::<P>(),
        semaphore.wf(),
        0 <= i < j < semaphore.waiting().len(),
    ensures
        ({
            let first = semaphore.waiting()[i].data;
            let second = semaphore.waiting()[j].data;
            &&& first.priority.order(&second.priority) >= 0
            &&& priority::plain::<P>() && first.priority.order(&second.priority) == 0
                ==> first.count <= second.count
        }),
{
    let entries = semaphore.queue.entries();
    let h = entries::held_len(entries);
    assert(entries::split_at(entries, h));
    entries::lemma_split(entries, h);
    assert(semaphore.waiting()[i] == entries[h + i]);
    assert(semaphore.waiting()[j] == entries[h + j]);
    assert(!entries[h + i].data.waiter.holds());
    assert(!entries[h + j].data.waiter.holds());
    assert(entries[h + i].data.order(&entries[h + j].data) >= 0);
}

/// Holders stand in order of priority, too.
pub proof fn law_holders_in_order<P: Priority, Q: SemaphoreQueue<P>>(
    semaphore: Semaphore<P, Q>,
    i: int,
    j: int,
)
    requires
        priority::lawful::<P>(),
        semaphore.wf(),
        0 <= i < j < entries::held_len(semaphore.entries()),
    ensures
        semaphore.entries()[i].data.priority.order(&semaphore.entries()[j].data.priority) >= 0,
{
    let entries = semaphore.queue.entries();
    assert(entries::split_at(entries, entries::held_len(entries)));
    assert(entries[i].data.waiter.holds() && entries[j].data.waiter.holds());
    assert(entries[i].data.order(&entries[j].data) >= 0);
}

/// No permits lie idle: whenever some are available, there aren't enough for the first who waits,
/// unless that one is turned away.
pub proof fn law_no_idle_permits<P: Priority, Q: SemaphoreQueue<P>>(semaphore: Semaphore<P, Q>)
    requires
        priority::regular::<P>(),
        semaphore.wf(),
        semaphore.waiting().len() > 0,
        semaphore.available() > 0,
        !semaphore.waiting()[0].data.waiter.unwanted(),
    ensures
        semaphore.waiting()[0].data.count > semaphore.available(),
{
}

/// Nobody waits in vain for more permits than the semaphore has in all, if they asked to be told so:
/// they are turned away.
pub proof fn law_turned_away<P: Priority, Q: SemaphoreQueue<P>>(
    semaphore: Semaphore<P, Q>,
    i: int,
)
    requires
        semaphore.wf(),
        0 <= i < semaphore.waiting().len(),
        semaphore.waiting()[i].data.within_total,
        semaphore.waiting()[i].data.count > semaphore.total(),
    ensures
        semaphore.waiting()[i].data.waiter.unwanted(),
{
}

/// Nobody is turned away who didn't ask to be told that there aren't enough permits.
pub proof fn law_turned_away_on_request<P: Priority, Q: SemaphoreQueue<P>>(
    semaphore: Semaphore<P, Q>,
    i: int,
)
    requires
        semaphore.wf(),
        0 <= i < semaphore.waiting().len(),
        semaphore.waiting()[i].data.waiter.unwanted(),
    ensures
        semaphore.waiting()[i].data.within_total,
{
}

/// While someone waits, and isn't turned away, every holder of lower priority is asked to leave.
pub proof fn law_holders_warned<P: Priority, Q: SemaphoreQueue<P>>(
    semaphore: Semaphore<P, Q>,
    key: int,
    i: int,
)
    requires
        priority::lawful::<P>(),
        semaphore.wf(),
        semaphore.holders().contains_key(key),
        0 <= i < semaphore.waiting().len(),
        !semaphore.waiting()[i].data.waiter.unwanted(),
        semaphore.waiting()[i].data.priority.order(&semaphore.holders()[key].priority) > 0,
    ensures
        semaphore.holders()[key].waiter.unwanted(),
{
}

/// Nobody overtakes another: whoever is granted permits right away ranks below nobody who waits,
/// except those who are turned away. With a priority like [FIFO](priority::FIFO) they rank above all
/// of them.
pub proof fn law_no_overtaking<P: Priority, Q: SemaphoreQueue<P>>(
    before: Semaphore<P, Q>,
    after: Semaphore<P, Q>,
    priority: P,
    count: usize,
    within_total: bool,
    key: int,
    woken: Seq<Waker>,
    i: int,
)
    requires
        priority::lawful::<P>(),
        before.wf(),
        after.requested(&before, priority, count, within_total, key, true, woken),
        0 <= i < before.waiting().len(),
        !before.waiting()[i].data.waiter.unwanted(),
    ensures
        priority.order(&before.waiting()[i].data.priority) >= 0,
        priority::newest_last::<P>() ==> priority.order(&before.waiting()[i].data.priority) > 0,
{
    before.lemma_ranks_first(priority, i);
}

/// Once a requester has to wait, every holder of lower priority is asked to leave, and no other is
/// for its sake.
pub proof fn law_request_warns<P: Priority, Q: SemaphoreQueue<P>>(
    before: Semaphore<P, Q>,
    after: Semaphore<P, Q>,
    priority: P,
    count: usize,
    within_total: bool,
    key: int,
    woken: Seq<Waker>,
    holder: int,
)
    requires
        priority::lawful::<P>(),
        after.requested(&before, priority, count, within_total, key, false, woken),
        before.holders().contains_key(holder),
    ensures
        after.holders().contains_key(holder),
        ({
            let was = before.holders()[holder];
            let is = after.holders()[holder];
            if priority.order(&was.priority) > 0 {
                is.waiter.unwanted()
            } else {
                is == was
            }
        }),
{
    let was = before.holders()[holder];
    was.waiter.lemma_flags();
    priority::lemma_lawful_pair(priority, was.priority);
    assert(after.holders().dom().contains(holder));
}

/// A request for which there are enough permits is held up by higher priorities only, as far as the
/// priority says nothing of new ones, and never by those who are turned away.
pub proof fn law_held_up_by_priority<P: Priority, Q: SemaphoreQueue<P>>(
    before: Semaphore<P, Q>,
    after: Semaphore<P, Q>,
    priority: P,
    count: usize,
    within_total: bool,
    key: int,
    woken: Seq<Waker>,
)
    requires
        priority::lawful::<P>(),
        priority::plain::<P>(),
        before.wf(),
        after.requested(&before, priority, count, within_total, key, false, woken),
        count <= before.available(),
    ensures
        exists|i: int|
            {
                &&& 0 <= i < before.waiting().len()
                &&& (#[trigger] before.waiting()[i]).data.priority.order(&priority) > 0
                &&& !before.waiting()[i].data.waiter.unwanted()
            },
{
    reveal(priority::plain);
    let j = entries::lemma_first_in_line(before.waiting());
    let first = before.waiting()[j].data.priority;
    priority::lemma_lawful_pair(priority, first);
    assert(before.waiting()[j].data.priority.order(&priority) > 0);
}

/// Someone is first in line where not all are turned away.
proof fn lemma_someone_in_line<P: Priority>(
    waiting: Seq<QueueEntry<SemaphoreWaiter<P>>>,
    i: int,
)
    requires
        0 <= i < waiting.len(),
        !waiting[i].data.waiter.unwanted(),
    ensures
        entries::first_in_line(waiting) is Some,
    decreases waiting.len(),
{
    if waiting[0].data.waiter.unwanted() {
        assert(waiting.skip(1)[i - 1] == waiting[i]);
        lemma_someone_in_line(waiting.skip(1), i - 1);
    }
}

/// With a priority like [FIFO](priority::FIFO), a requester is queued after everyone who waits with
/// the same priority. With one like [LIFO](priority::LIFO), it is queued before them.
pub proof fn law_waiters_of_same_priority<P: Priority, Q: SemaphoreQueue<P>>(
    before: Semaphore<P, Q>,
    after: Semaphore<P, Q>,
    priority: P,
    count: usize,
    within_total: bool,
    key: int,
    woken: Seq<Waker>,
    i: int,
)
    requires
        priority::lawful::<P>(),
        before.wf(),
        after.requested(&before, priority, count, within_total, key, false, woken),
        0 <= i < after.waiting().len(),
        after.waiting()[i].key != key,
        after.waiting()[i].data.priority.order(&priority) == 0,
    ensures
        priority::newest_last::<P>() ==> i < queue::position(after.waiting(), key),
        priority::newest_first::<P>() ==> queue::position(after.waiting(), key) < i,
{
    let entry = SemaphoreWaiter::fresh(priority, false, count, within_total);
    let entries = before.queue.entries();
    let h = entries::held_len(entries);
    assert(0usize & 1 == 0) by (bit_vector);
    assert(!entry.waiter.holds());
    assert(entries::split_at(entries, h));
    entries::law_semaphore_waiter::<P>();
    entries::lemma_waiting_sorted(entries, h);
    before.lemma_waiting_keys();
    let w = before.waiting();
    let k = queue::lemma_place(w, after.waiting(), key, entry);
    let a = if i < k {
        i
    } else {
        i - 1
    };
    assert(after.waiting()[i] == w[a]);
    assert(!w[a].data.waiter.holds());
    if priority::newest_last::<P>() {
        queue::law_newest_last(w, after.waiting(), key, entry, i);
    }
    if priority::newest_first::<P>() {
        queue::law_newest_first(w, after.waiting(), key, entry, i);
    }
}

/// To acquire permits and release them again is no more than to serve those who wait: where nobody
/// does, it leaves the semaphore as it was.
pub proof fn law_release_undoes_acquire<P: Priority, Q: SemaphoreQueue<P>>(
    before: Semaphore<P, Q>,
    between: Semaphore<P, Q>,
    after: Semaphore<P, Q>,
    priority: P,
    count: usize,
    within_total: bool,
    key: int,
    asked: Seq<Waker>,
    woken: Seq<Waker>,
)
    requires
        before.wf(),
        between.requested(&before, priority, count, within_total, key, true, asked),
        after.total() == between.total(),
        after.served(
            between.holders().remove(key),
            between.waiting(),
            between.available() + between.holders()[key].count,
            woken,
        ),
    ensures
        after.total() == before.total(),
        after.served(before.holders(), before.waiting(), before.available(), woken),
        before.waiting().len() == 0 ==> {
            &&& after.holders() == before.holders()
            &&& after.waiting() == before.waiting()
            &&& after.available() == before.available()
            &&& woken == Seq::<Waker>::empty()
        },
{
    law_two_sides(before, key);
    assert(before.holders().insert(
        key,
        SemaphoreWaiter::fresh(priority, true, count, within_total),
    ).remove(key) =~= before.holders());
}

/// To queue up and give up again leaves those who wait as they were before, or, if the requester
/// was the first of them, serves them.
pub proof fn law_cancel_undoes_acquire<P: Priority, Q: SemaphoreQueue<P>>(
    before: Semaphore<P, Q>,
    between: Semaphore<P, Q>,
    after: Semaphore<P, Q>,
    priority: P,
    count: usize,
    within_total: bool,
    key: int,
    asked: Seq<Waker>,
    woken: Seq<Waker>,
)
    requires
        before.wf(),
        between.wf(),
        between.requested(&before, priority, count, within_total, key, false, asked),
        after.cancelled(&between, key, woken),
    ensures
        after.total() == before.total(),
        ({
            ||| after.served(between.holders(), before.waiting(), before.available(), woken)
            ||| {
                &&& after.holders() == between.holders()
                &&& after.waiting() == before.waiting()
                &&& after.available() == before.available()
                &&& woken == Seq::<Waker>::empty()
            }
        }),
{
    let entry = SemaphoreWaiter::fresh(priority, false, count, within_total);
    before.lemma_waiting_keys();
    law_two_sides(before, key);
    law_two_sides(between, key);
    assert(!between.holders().contains_key(key)) by {
        if between.holders().contains_key(key) {
            assert(before.holders().dom().contains(key));
        }
    }
    queue::law_dequeue_undoes_enqueue(before.waiting(), between.waiting(), key, entry);
}

/// A permit that is split off with the same priority is asked to leave just if the one that it came
/// from is.
pub proof fn law_split_keeps_warning<P: Priority, Q: SemaphoreQueue<P>>(
    before: Semaphore<P, Q>,
    after: Semaphore<P, Q>,
    permit: SemaphorePermit<P, Q>,
    other: SemaphorePermit<P, Q>,
    count: usize,
    priority: P,
)
    requires
        priority::lawful::<P>(),
        before.wf(),
        before.held_by(&permit),
        priority.order(&before.holders()[permit.key()].priority) == 0,
        after.split_off(
            &before,
            &permit,
            count,
            priority,
            before.holders()[permit.key()].waiter.unwanted(),
            Ok(other),
        ),
    ensures
        after.holders()[other.key()].waiter.unwanted()
            == before.holders()[permit.key()].waiter.unwanted(),
        after.holders()[permit.key()].waiter.unwanted()
            == before.holders()[permit.key()].waiter.unwanted(),
{
    let own = before.holders()[permit.key()];
    let asked = after.holders()[other.key()].waiter.unwanted();
    if asked && !own.waiter.unwanted() {
        let i = choose|i: int|
            {
                &&& 0 <= i < before.waiting().len()
                &&& !(#[trigger] before.waiting()[i]).data.waiter.unwanted()
                &&& before.waiting()[i].data.priority.comparable(&priority)
                    ==> before.waiting()[i].data.priority.order(&priority) > 0
            };
        let above = before.waiting()[i].data.priority;
        priority::lemma_lawful_pair(above, priority);
        priority::lemma_lawful_chain(above, priority, own.priority);
        law_holders_warned(before, permit.key(), i);
    }
}

/// To split permits and merge them again leaves the semaphore as it was.
pub proof fn law_merge_undoes_split<P: Priority, Q: SemaphoreQueue<P>>(
    before: Semaphore<P, Q>,
    between: Semaphore<P, Q>,
    permit: SemaphorePermit<P, Q>,
    other: SemaphorePermit<P, Q>,
    count: usize,
    priority: P,
    inherited: bool,
)
    requires
        before.wf(),
        before.held_by(&permit),
        between.split_off(&before, &permit, count, priority, inherited, Ok(other)),
    ensures
        between.total() == before.total(),
        between.available() == before.available(),
        between.waiting() == before.waiting(),
        ({
            let own = between.holders()[permit.key()];
            let both = own.count + between.holders()[other.key()].count;
            between.holders().remove(other.key()).insert(
                permit.key(),
                own.with_count(both as usize),
            ) == before.holders()
        }),
{
    law_two_sides(before, other.key());
    let own = between.holders()[permit.key()];
    let both = own.count + between.holders()[other.key()].count;
    assert(between.holders().remove(other.key()).insert(
        permit.key(),
        own.with_count(both as usize),
    ) =~= before.holders());
}

} // verus!
