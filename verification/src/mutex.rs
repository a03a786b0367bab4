//! Contains the [Mutex] type for priority-ordered exclusive access to a resource.
use crate::priority;
use crate::priority::{rank, Priority};
use crate::queue;
use crate::queue::{PriorityQueue, PriorityQueueHandle, QueueEntry, SharedQueueHandle, MAX_ENTRIES};
use crate::waiter::{Waiter, WAITER_FLAG_HAS_LOCK, WAITER_FLAG_WANTS_EVICT};
use core::cmp::Ordering;
use core::marker::PhantomData;
use core::task::Waker;
use vstd::prelude::*;

pub mod laws;

verus! {

/// The entry type that [Mutex] keeps in its queue.
#[derive(Debug)]
pub struct MutexWaiter<P: Priority> {
    pub priority: P,
    pub waiter: Waiter,
}

/// Has the same priority as `P`, with the exception of pinning the holding entry to the head.
impl<P: Priority> Priority for MutexWaiter<P> {
    open spec fn comparable(&self, other: &Self) -> bool {
        self.waiter.holds() || other.waiter.holds() || self.priority.comparable(&other.priority)
    }

    open spec fn order(&self, other: &Self) -> int {
        if self.waiter.holds() && other.waiter.holds() {
            0
        } else if self.waiter.holds() {
            1
        } else if other.waiter.holds() {
            -1
        } else {
            self.priority.order(&other.priority)
        }
    }

    open spec fn order_new(&self, old: &Self) -> int {
        if old.waiter.holds() {
            -1
        } else if self.waiter.holds() {
            1
        } else {
            self.priority.order_new(&old.priority)
        }
    }

    fn compare(&self, other: &Self) -> (outcome: Ordering) {
        match (self.waiter.has_lock(), other.waiter.has_lock()) {
            (true, true) => Ordering::Equal,
            (true, false) => Ordering::Greater,
            (false, true) => Ordering::Less,
            (false, false) => self.priority.compare(&other.priority),
        }
    }

    fn compare_new(&self, old: &Self) -> (outcome: Ordering) {
        if old.waiter.has_lock() {
            return Ordering::Less;
        }
        if self.waiter.has_lock() {
            return Ordering::Greater;
        }
        self.priority.compare_new(&old.priority)
    }
}

/// Pinning the holder to the head keeps a priority lawful, and the place of a new entry among those
/// of the same priority where it was.
pub proof fn law_mutex_waiter<P: Priority>()
    requires
        priority::lawful::<P>(),
    ensures
        priority::lawful::<MutexWaiter<P>>(),
        priority::newest_last::<P>() ==> priority::newest_last::<MutexWaiter<P>>(),
{
    reveal(priority::lawful);
    reveal(priority::newest_last);
    assert forall|a: MutexWaiter<P>, b: MutexWaiter<P>, c: MutexWaiter<P>|
        #[trigger] a.order(&b) >= 0 && #[trigger] b.order(&c) >= 0 implies a.order(&c) >= 0 by {
        if !a.waiter.holds() && !b.waiter.holds() && !c.waiter.holds() {
            priority::lemma_lawful_chain(a.priority, b.priority, c.priority);
        }
    }
}

impl<P: Priority> MutexWaiter<P> {
    fn new(priority: P, has_lock: bool) -> (entry: Self)
        ensures
            entry == (MutexWaiter { priority, waiter: Waiter::fresh(has_lock) }),
            entry.waiter.holds() == has_lock,
    {
        Self { priority, waiter: Waiter::new(has_lock) }
    }
}

/// Alias trait for [PriorityQueue]`<`[MutexWaiter]`<P>>`.
pub trait MutexQueue<P: Priority>: PriorityQueue<MutexWaiter<P>> {

}

impl<P: Priority, Q: PriorityQueue<MutexWaiter<P>>> MutexQueue<P> for Q {

}

/// The default queue used for [Mutex]: removed nodes usually have the lock, and thus are the head
/// node, so that there is no need to link the previous node.
pub type DefaultMutexQueue<P> = crate::queue::arena::SingleLinkArenaQueue<MutexWaiter<P>>;

/// Opaque marker type for the result of [Mutex::try_lock].
#[derive(Debug, Default, Clone, Copy)]
pub struct TryLockError;

impl TryLockError {
    /// What went wrong, in words.
    pub fn message(&self) -> (message: &'static str)
        ensures
            message@ == "lock is already held"@,
    {
        "lock is already held"
    }
}

/// A mutex that queues waiters by priority. Higher priority requesters receive access first.
///
/// The current holder of the lock is told when a higher priority waiter is queued.
///
/// The value that the mutex guards is here while no holder has taken it. A holder takes it along
/// in its [MutexGuard], and gives it back when it unlocks.
pub struct Mutex<P: Priority, T, Q: MutexQueue<P> = DefaultMutexQueue<P>> {
    queue: Q,
    data: Option<T>,
    phantom: PhantomData<P>,
}

/// A guard holding access for a [Mutex], and the value that the mutex guards.
pub struct MutexGuard<P: Priority, T, Q: MutexQueue<P>> {
    node: Q::Handle,
    value: T,
    phantom: PhantomData<P>,
}

/// A place in the queue of a [Mutex], for one who waits for access.
pub struct MutexPending<P: Priority, Q: MutexQueue<P>> {
    node: Q::Handle,
    phantom: PhantomData<P>,
}

/// What comes of an attempt to [lock](Mutex::lock).
pub enum LockAttempt<P: Priority, T, Q: MutexQueue<P>> {
    /// The lock was free.
    Acquired(MutexGuard<P, T, Q>),
    /// The requester has to wait. The holder may be asked to leave, in which case its task, if it
    /// waits for that, is to be woken.
    Queued(MutexPending<P, Q>, Option<Waker>),
}

impl<P: Priority, T, Q: MutexQueue<P>> MutexGuard<P, T, Q> {
    /// The key of the holder's entry.
    pub closed spec fn key(&self) -> int {
        self.node.key()
    }

    /// The guarded value.
    pub closed spec fn value(&self) -> T {
        self.value
    }

    /// Reads the guarded value.
    pub fn get(&self) -> (value: &T)
        ensures
            *value == self.value(),
    {
        &self.value
    }

    /// Gives access to the guarded value.
    pub fn get_mut(&mut self) -> (value: &mut T)
        ensures
            *value == old(self).value(),
            final(self).value() == *final(value),
            final(self).key() == old(self).key(),
    {
        &mut self.value
    }

    /// Looks whether the holder is asked to leave, because a requester of higher priority waits. If
    /// not, keeps the waker, for the holder's task to be woken once it is.
    pub fn evicted(&self, mutex: &mut Mutex<P, T, Q>, waker: Waker) -> (evicted: bool)
        requires
            old(mutex).wf(),
            old(mutex).held_by(self),
        ensures
            final(mutex).wf(),
            final(mutex).held_by(self),
            evicted == old(mutex).entries()[0].data.waiter.unwanted(),
            final(mutex).entries() == with_waker(
                old(mutex).entries(),
                self.key(),
                if evicted {
                    None
                } else {
                    Some(waker)
                },
            ),
    {
        let ghost before = mutex.queue.entries();
        proof {
            mutex.queue.lemma_unique_keys();
            queue::lemma_position(before, 0);
            before[0].data.waiter.lemma_flags();
        }
        let wait = |entry: &mut MutexWaiter<P>| -> (outcome: (bool, Option<usize>))
            ensures
                !outcome.0,
                final(entry).priority == old(entry).priority,
                old(entry).waiter.reaches(WAITER_FLAG_WANTS_EVICT) ==> outcome.1 is Some
                    && final(entry).waiter == old(entry).waiter.unwatched(),
                !old(entry).waiter.reaches(WAITER_FLAG_WANTS_EVICT) ==> outcome.1 is None
                    && final(entry).waiter == (Waiter {
                    flags: old(entry).waiter.flags,
                    waker: Some(waker),
                }),
        {
            (false, entry.waiter.wait_for_flag(waker, WAITER_FLAG_WANTS_EVICT))
        };
        let ready: Option<usize> = mutex.queue.update_node(&self.node, wait);
        proof {
            let after = mutex.queue.entries();
            lemma_same_flags(before, after);
            assert(ready is Some ==> after == with_waker(before, self.key(), None));
            assert(ready is None ==> after == with_waker(before, self.key(), Some(waker)));
        }
        ready.is_some()
    }

    /// Drops the waker of the holder, who no longer waits to be asked to leave.
    pub fn ignore_evicted(&self, mutex: &mut Mutex<P, T, Q>)
        requires
            old(mutex).wf(),
            old(mutex).held_by(self),
        ensures
            final(mutex).wf(),
            final(mutex).held_by(self),
            final(mutex).entries() == with_waker(old(mutex).entries(), self.key(), None),
    {
        let ghost before = mutex.queue.entries();
        proof {
            mutex.queue.lemma_unique_keys();
            queue::lemma_position(before, 0);
        }
        let clear = |entry: &mut MutexWaiter<P>| -> (outcome: (bool, usize))
            ensures
                !outcome.0,
                final(entry).priority == old(entry).priority,
                final(entry).waiter == old(entry).waiter.unwatched(),
        {
            (false, entry.waiter.clear_waker())
        };
        mutex.queue.update_node(&self.node, clear);
        proof {
            let after = mutex.queue.entries();
            lemma_same_flags(before, after);
            assert(after == with_waker(before, self.key(), None));
        }
    }
}

impl<P: Priority, Q: MutexQueue<P>> MutexPending<P, Q> {
    /// The key of the waiting entry.
    pub closed spec fn key(&self) -> int {
        self.node.key()
    }
}

/// Whether the first entry has the lock, and no other.
pub open spec fn one_holder<P: Priority>(entries: Seq<QueueEntry<MutexWaiter<P>>>) -> bool {
    forall|i: int|
        0 <= i < entries.len() ==> ((#[trigger] entries[i]).data.waiter.holds() <==> i == 0)
}

/// Whether the holder is asked to leave if someone waits with a higher priority.
pub open spec fn holder_warned<P: Priority>(entries: Seq<QueueEntry<MutexWaiter<P>>>) -> bool {
    forall|i: int|
        0 < i < entries.len() && (#[trigger] entries[i]).data.priority.order(
            &entries[0].data.priority,
        ) > 0 ==> entries[0].data.waiter.unwanted()
}

/// The entries of a mutex, the first of which is asked to leave if `evict` is set.
pub open spec fn with_head_asked<P: Priority>(
    entries: Seq<QueueEntry<MutexWaiter<P>>>,
    evict: bool,
) -> Seq<QueueEntry<MutexWaiter<P>>> {
    if evict {
        entries.update(
            0,
            QueueEntry {
                key: entries[0].key,
                data: MutexWaiter {
                    priority: entries[0].data.priority,
                    waiter: entries[0].data.waiter.evicted(),
                },
            },
        )
    } else {
        entries
    }
}

/// The entries of a mutex, the first of which, if there is one, is granted access.
pub open spec fn with_head_started<P: Priority>(
    entries: Seq<QueueEntry<MutexWaiter<P>>>,
) -> Seq<QueueEntry<MutexWaiter<P>>> {
    if entries.len() > 0 {
        entries.update(
            0,
            QueueEntry {
                key: entries[0].key,
                data: MutexWaiter {
                    priority: entries[0].data.priority,
                    waiter: entries[0].data.waiter.started(),
                },
            },
        )
    } else {
        entries
    }
}

/// The waker of the first entry, if there is one.
pub open spec fn head_waker<P: Priority>(entries: Seq<QueueEntry<MutexWaiter<P>>>) -> Option<
    Waker,
> {
    if entries.len() > 0 {
        entries[0].data.waiter.waker
    } else {
        None
    }
}

/// The entries of a mutex where the entry with the key `key` has another waker.
pub open spec fn with_waker<P: Priority>(
    entries: Seq<QueueEntry<MutexWaiter<P>>>,
    key: int,
    waker: Option<Waker>,
) -> Seq<QueueEntry<MutexWaiter<P>>> {
    let i = queue::position(entries, key);
    entries.update(
        i,
        QueueEntry {
            key,
            data: MutexWaiter {
                priority: entries[i].data.priority,
                waiter: Waiter { flags: entries[i].data.waiter.flags, waker },
            },
        },
    )
}

impl<P: Priority, T, Q: MutexQueue<P>> Mutex<P, T, Q> {
    /// The holder of the lock, followed by the waiters.
    pub closed spec fn entries(&self) -> Seq<QueueEntry<MutexWaiter<P>>> {
        self.queue.entries()
    }

    /// The guarded value, unless the holder has taken it.
    pub closed spec fn value(&self) -> Option<T> {
        self.data
    }

    /// If there are entries, the first one has the lock, and no other has. The waiters stand in
    /// order of priority, and the holder is asked to leave if one of them has a higher priority.
    /// While there is no holder, the guarded value is here.
    pub closed spec fn wf(&self) -> bool {
        &&& self.queue.wf()
        &&& one_holder(self.queue.entries())
        &&& priority::lawful::<P>() ==> queue::sorted(self.queue.entries()) && holder_warned(
            self.queue.entries(),
        )
        &&& self.queue.entries().len() == 0 ==> self.data is Some
    }

    /// Whether the guard is that of the holder, who has taken the guarded value.
    pub open spec fn held_by(&self, guard: &MutexGuard<P, T, Q>) -> bool {
        &&& self.entries().len() > 0
        &&& self.entries()[0].key == guard.key()
        &&& self.value() is None
    }

    /// Whether the entry is in the queue, and the guarded value is not taken by it.
    pub open spec fn awaited_by(&self, pending: &MutexPending<P, Q>) -> bool {
        &&& queue::has_key(self.entries(), pending.key())
        &&& self.entries()[0].key == pending.key() ==> self.value() is Some
    }

    /// Whether `self` is `before` after someone requested access with the priority `priority`, and
    /// `attempt` is what came of it.
    pub open spec fn requested(
        &self,
        before: &Self,
        priority: P,
        attempt: LockAttempt<P, T, Q>,
    ) -> bool {
        match attempt {
            LockAttempt::Acquired(guard) => {
                &&& before.entries().len() == 0
                &&& self.entries() == seq![
                    QueueEntry {
                        key: guard.key(),
                        data: MutexWaiter { priority, waiter: Waiter::fresh(true) },
                    },
                ]
                &&& before.value() == Some(guard.value())
                &&& self.held_by(&guard)
            },
            LockAttempt::Queued(pending, woken) => {
                let head = before.entries()[0];
                &&& before.entries().len() > 0
                &&& exists|evict: bool|
                    {
                        &&& priority.comparable(&head.data.priority) ==> evict == (priority.order(
                            &head.data.priority,
                        ) > 0)
                        &&& #[trigger] queue::enqueued(
                            with_head_asked(before.entries(), evict),
                            self.entries(),
                            pending.key(),
                            MutexWaiter { priority, waiter: Waiter::fresh(false) },
                        )
                        &&& woken == (if evict {
                            head.data.waiter.waker
                        } else {
                            None
                        })
                    }
                &&& self.value() == before.value()
                &&& self.entries()[0].key == head.key
                &&& self.awaited_by(&pending)
            },
        }
    }

    /// Create a new [Mutex], unlocked and ready for use.
    pub fn new(val: T) -> (mutex: Self)
        ensures
            mutex.wf(),
            mutex.entries().len() == 0,
            mutex.value() == Some(val),
    {
        Self { queue: Q::empty(), data: Some(val), phantom: PhantomData }
    }

    /// Try to acquire the lock without blocking or requesting eviction of the current holder.
    ///
    /// Priority will be stored in the queue; higher priority requesters will ask the holder to
    /// leave.
    pub fn try_lock(&mut self, priority: P) -> (result: Result<MutexGuard<P, T, Q>, TryLockError>)
        requires
            old(self).wf(),
        ensures
            final(self).wf(),
            match result {
                Ok(guard) => {
                    &&& old(self).entries().len() == 0
                    &&& final(self).entries() == seq![
                        QueueEntry {
                            key: guard.key(),
                            data: MutexWaiter { priority, waiter: Waiter::fresh(true) },
                        },
                    ]
                    &&& old(self).value() == Some(guard.value())
                    &&& final(self).held_by(&guard)
                },
                Err(_) => old(self).entries().len() > 0 && *final(self) == *old(self),
            },
    {
        if !self.queue.is_empty() {
            return Err(TryLockError);
        }
        let entry = MutexWaiter::new(priority, true);
        let node = self.queue.enqueue(entry);
        let value: T = self.data.take().unwrap();
        assert(self.queue.entries() =~= seq![QueueEntry { key: node.key(), data: entry }]);
        Ok(MutexGuard { node, value, phantom: PhantomData })
    }

    /// Grants access to the first entry, if there is one. Returns the waker of its task, which is
    /// to be woken.
    fn start_head(&mut self) -> (woken: Option<Waker>)
        requires
            old(self).queue.wf(),
        ensures
            final(self).queue.wf(),
            final(self).queue.entries() == with_head_started(old(self).queue.entries()),
            final(self).data == old(self).data,
            woken == head_waker(old(self).queue.entries()),
    {
        match self.queue.head_handle() {
            Some(handle) => {
                proof {
                    self.queue.lemma_unique_keys();
                    queue::lemma_position(self.queue.entries(), 0);
                }
                let start = |entry: &mut MutexWaiter<P>| -> (outcome: (bool, Option<Waker>))
                    ensures
                        !outcome.0,
                        outcome.1 == old(entry).waiter.waker,
                        final(entry).priority == old(entry).priority,
                        final(entry).waiter == old(entry).waiter.started(),
                {
                    (false, entry.waiter.start())
                };
                self.queue.update_node(handle.as_ref(), start)
            },
            None => None,
        }
    }

    /// Asks the holder to leave. Returns the waker of its task, which is to be woken.
    fn evict_head(&mut self) -> (woken: Option<Waker>)
        requires
            old(self).queue.wf(),
            old(self).queue.entries().len() > 0,
        ensures
            final(self).queue.wf(),
            final(self).queue.entries() == with_head_asked(old(self).queue.entries(), true),
            final(self).data == old(self).data,
            woken == head_waker(old(self).queue.entries()),
    {
        match self.queue.head_handle() {
            Some(handle) => {
                proof {
                    self.queue.lemma_unique_keys();
                    queue::lemma_position(self.queue.entries(), 0);
                }
                let evict = |entry: &mut MutexWaiter<P>| -> (outcome: (bool, Option<Waker>))
                    ensures
                        !outcome.0,
                        outcome.1 == old(entry).waiter.waker,
                        final(entry).priority == old(entry).priority,
                        final(entry).waiter == old(entry).waiter.evicted(),
                {
                    (false, entry.waiter.evict())
                };
                self.queue.update_node(handle.as_ref(), evict)
            },
            None => None,
        }
    }

    /// Request exclusive access to the locked resource, which is granted after higher priority
    /// requesters acquired and released the lock.
    ///
    /// The current holder is asked to release the lock if it has the lower priority.
    pub fn lock(&mut self, priority: P) -> (attempt: LockAttempt<P, T, Q>)
        requires
            old(self).wf(),
            old(self).entries().len() < MAX_ENTRIES,
        ensures
            final(self).wf(),
            final(self).requested(old(self), priority, attempt),
    {
        let ghost before = self.queue.entries();
        let evict: bool = match self.queue.head() {
            Some(head) => rank(&priority, &head.priority) > 0,
            None => {
                let entry = MutexWaiter::new(priority, true);
                let node = self.queue.enqueue(entry);
                let value: T = self.data.take().unwrap();
                assert(self.queue.entries() =~= seq![QueueEntry { key: node.key(), data: entry }]);
                return LockAttempt::Acquired(MutexGuard { node, value, phantom: PhantomData });
            },
        };
        let woken: Option<Waker> = if evict {
            self.evict_head()
        } else {
            None
        };
        let ghost asked = self.queue.entries();
        assert(asked == with_head_asked(before, evict));
        proof {
            before[0].data.waiter.lemma_flags();
            self.queue.lemma_unique_keys();
        }
        let entry = MutexWaiter::new(priority, false);
        let node = self.queue.enqueue(entry);
        proof {
            let after = self.queue.entries();
            let k = queue::lemma_place(asked, after, node.key(), entry);
            assert(asked[0].data.waiter.holds());
            assert(k > 0);
            queue::lemma_insert_key(asked, k, QueueEntry { key: node.key(), data: entry });
            assert(after[0] == asked[0]);
            assert(after[k].key == node.key());
            assert(one_holder(after)) by {
                assert forall|i: int| 0 <= i < after.len() implies ((
                #[trigger] after[i]).data.waiter.holds() <==> i == 0) by {
                    if i < k {
                        assert(after[i] == asked[i]);
                    } else if i > k {
                        assert(after[i] == asked[i - 1]);
                    }
                }
            }
            if priority::lawful::<P>() {
                law_mutex_waiter::<P>();
                assert(queue::sorted(asked)) by {
                    assert forall|i: int, j: int| 0 <= i < j < asked.len() implies (
                    #[trigger] asked[i]).data.order(&(#[trigger] asked[j]).data) >= 0 by {
                        assert(before[i].data.order(&before[j].data) >= 0);
                    }
                }
                queue::law_enqueue_sorted(asked, after, node.key(), entry);
                priority::lemma_lawful_pair(priority, before[0].data.priority);
                assert forall|i: int|
                    0 < i < after.len() && (#[trigger] after[i]).data.priority.order(
                        &after[0].data.priority,
                    ) > 0 implies after[0].data.waiter.unwanted() by {
                    if i < k {
                        assert(before[i].data.priority == after[i].data.priority);
                    } else if i > k {
                        assert(before[i - 1].data.priority == after[i].data.priority);
                    }
                }
            }
            assert(after[0].key != node.key());
        }
        let pending = MutexPending { node, phantom: PhantomData };
        assert(queue::enqueued(
            with_head_asked(old(self).entries(), evict),
            self.entries(),
            pending.key(),
            MutexWaiter { priority, waiter: Waiter::fresh(false) },
        ));
        LockAttempt::Queued(pending, woken)
    }

    /// Request exclusive access to the locked resource.
    ///
    /// Shorthand for [lock](Mutex::lock)`(priority.into())`.
    pub fn lock_from<I: Into<P>>(&mut self, priority: I) -> (attempt: LockAttempt<P, T, Q>)
        requires
            old(self).wf(),
            old(self).entries().len() < MAX_ENTRIES,
            call_requires(I::into, (priority,)),
        ensures
            final(self).wf(),
            exists|own: P|
                {
                    &&& #[trigger] call_ensures(I::into, (priority,), own)
                    &&& final(self).requested(old(self), own, attempt)
                },
    {
        let own: P = priority.into();
        self.lock(own)
    }

    /// Request exclusive access to the locked resource.
    ///
    /// Shorthand for [lock](Mutex::lock)`(Default::default())`.
    pub fn lock_default(&mut self) -> (attempt: LockAttempt<P, T, Q>) where P: Default
        requires
            old(self).wf(),
            old(self).entries().len() < MAX_ENTRIES,
            call_requires(P::default, ()),
        ensures
            final(self).wf(),
            exists|own: P|
                {
                    &&& #[trigger] call_ensures(P::default, (), own)
                    &&& final(self).requested(old(self), own, attempt)
                },
    {
        let own: P = P::default();
        self.lock(own)
    }

    /// Looks whether one who waits has access by now. If not, keeps the waker, for its task to be
    /// woken once it has.
    pub fn poll_lock(&mut self, pending: MutexPending<P, Q>, waker: Waker) -> (result: Result<
        MutexGuard<P, T, Q>,
        MutexPending<P, Q>,
    >)
        requires
            old(self).wf(),
            old(self).awaited_by(&pending),
        ensures
            final(self).wf(),
            match result {
                Ok(guard) => {
                    &&& old(self).entries()[0].key == pending.key()
                    &&& guard.key() == pending.key()
                    &&& old(self).value() == Some(guard.value())
                    &&& final(self).entries() == with_waker(
                        old(self).entries(),
                        pending.key(),
                        None,
                    )
                    &&& final(self).held_by(&guard)
                },
                Err(still) => {
                    &&& old(self).entries()[0].key != pending.key()
                    &&& still.key() == pending.key()
                    &&& final(self).value() == old(self).value()
                    &&& final(self).entries() == with_waker(
                        old(self).entries(),
                        pending.key(),
                        Some(waker),
                    )
                    &&& final(self).awaited_by(&still)
                },
            },
    {
        let ghost before = self.queue.entries();
        let ghost i = queue::position(before, pending.key());
        proof {
            self.queue.lemma_unique_keys();
            queue::lemma_position(before, 0);
            before[i].data.waiter.lemma_flags();
        }
        let wait = |entry: &mut MutexWaiter<P>| -> (outcome: (bool, Option<usize>))
            ensures
                !outcome.0,
                final(entry).priority == old(entry).priority,
                old(entry).waiter.reaches(WAITER_FLAG_HAS_LOCK) ==> outcome.1 is Some
                    && final(entry).waiter == old(entry).waiter.unwatched(),
                !old(entry).waiter.reaches(WAITER_FLAG_HAS_LOCK) ==> outcome.1 is None
                    && final(entry).waiter == (Waiter {
                    flags: old(entry).waiter.flags,
                    waker: Some(waker),
                }),
        {
            (false, entry.waiter.wait_for_flag(waker, WAITER_FLAG_HAS_LOCK))
        };
        let ready: Option<usize> = self.queue.update_node(&pending.node, wait);
        proof {
            let after = self.queue.entries();
            lemma_same_flags(before, after);
            assert(before[i].data.waiter.holds() <==> i == 0);
            assert(after[i].key == pending.key());
            assert(ready is Some ==> after == with_waker(before, pending.key(), None));
            assert(ready is None ==> after == with_waker(before, pending.key(), Some(waker)));
        }
        match ready {
            Some(_) => {
                let value: T = self.data.take().unwrap();
                Ok(MutexGuard { node: pending.node, value, phantom: PhantomData })
            },
            None => Err(pending),
        }
    }

    /// Takes an entry out of the queue. If it has the lock, the next one is granted access.
    fn leave(&mut self, node: Q::Handle) -> (woken: Option<Waker>)
        requires
            old(self).wf(),
            queue::has_key(old(self).queue.entries(), node.key()),
            old(self).queue.entries()[0].key == node.key() ==> old(self).data is Some,
        ensures
            final(self).wf(),
            final(self).data == old(self).data,
            ({
                let before = old(self).queue.entries();
                let rest = before.remove(queue::position(before, node.key()));
                if before[0].key == node.key() {
                    &&& final(self).queue.entries() == with_head_started(rest)
                    &&& woken == head_waker(rest)
                } else {
                    &&& final(self).queue.entries() == rest
                    &&& woken is None
                }
            }),
    {
        let ghost before = self.queue.entries();
        let ghost i = queue::position(before, node.key());
        proof {
            self.queue.lemma_unique_keys();
            queue::lemma_position(before, 0);
            assert(before[i].data.waiter.holds() <==> i == 0);
        }
        let was_head: bool = self.queue.get_by_handle(&node).waiter.has_lock();
        self.queue.dequeue(node);
        let ghost rest = self.queue.entries();
        let woken: Option<Waker> = if was_head {
            self.start_head()
        } else {
            None
        };
        proof {
            let after = self.queue.entries();
            if rest.len() > 0 {
                rest[0].data.waiter.lemma_flags();
            }
            assert forall|j: int| 0 <= j < after.len() implies ((
            #[trigger] after[j]).data.waiter.holds() <==> j == 0) by {
                let b = if j < i {
                    j
                } else {
                    j + 1
                };
                assert(rest[j] == before[b]);
                assert(before[b].data.waiter.holds() <==> b == 0);
            }
            if queue::sorted(before) {
                queue::law_dequeue_sorted(before, i);
                assert forall|a: int, b: int| 0 <= a < b < after.len() implies (
                #[trigger] after[a]).data.order(&(#[trigger] after[b]).data) >= 0 by {
                    assert(after[b].data.waiter.holds() <==> b == 0);
                    assert(after[a].data.waiter.holds() <==> a == 0);
                    assert(rest[a].data.order(&rest[b].data) >= 0);
                }
            }
            if priority::lawful::<P>() {
                assert forall|j: int|
                    0 < j < after.len() && (#[trigger] after[j]).data.priority.order(
                        &after[0].data.priority,
                    ) > 0 implies after[0].data.waiter.unwanted() by {
                    let b = if j < i {
                        j
                    } else {
                        j + 1
                    };
                    assert(rest[j] == before[b]);
                    if i == 0 {
                        assert(rest[0] == before[1]);
                        assert(before[1].data.order(&before[b].data) >= 0);
                        assert(before[1].data.waiter.holds() <==> 1int == 0);
                        assert(before[b].data.waiter.holds() <==> b == 0);
                        priority::lemma_lawful_pair(rest[0].data.priority, rest[j].data.priority);
                    } else {
                        assert(rest[0] == before[0]);
                        assert(before[b].data.priority.order(&before[0].data.priority) > 0);
                    }
                }
            }
        }
        woken
    }

    /// Releases the lock, and takes the guarded value back. The first of those who wait is granted
    /// access. Returns the waker of its task, which is to be woken.
    pub fn unlock(&mut self, guard: MutexGuard<P, T, Q>) -> (woken: Option<Waker>)
        requires
            old(self).wf(),
            old(self).held_by(&guard),
        ensures
            final(self).wf(),
            final(self).value() == Some(guard.value()),
            final(self).entries() == with_head_started(old(self).entries().remove(0)),
            woken == head_waker(old(self).entries().remove(0)),
    {
        proof {
            self.queue.lemma_unique_keys();
            queue::lemma_position(self.queue.entries(), 0);
        }
        self.data = Some(guard.value);
        self.leave(guard.node)
    }

    /// Leaves the queue without having taken the guarded value. If the lock was granted meanwhile,
    /// it passes on to the next one who waits. Returns the waker of that one's task, which is to be
    /// woken.
    pub fn cancel(&mut self, pending: MutexPending<P, Q>) -> (woken: Option<Waker>)
        requires
            old(self).wf(),
            old(self).awaited_by(&pending),
        ensures
            final(self).wf(),
            final(self).value() == old(self).value(),
            ({
                let before = old(self).entries();
                let rest = before.remove(queue::position(before, pending.key()));
                if before[0].key == pending.key() {
                    &&& final(self).entries() == with_head_started(rest)
                    &&& woken == head_waker(rest)
                } else {
                    &&& final(self).entries() == rest
                    &&& woken is None
                }
            }),
    {
        self.leave(pending.node)
    }
}

impl<P: Priority, T: Default, Q: MutexQueue<P>> Default for Mutex<P, T, Q> {
    /// Create a new [Mutex] that guards the default value.
    fn default() -> (mutex: Self)
        ensures
            mutex.wf(),
            mutex.entries().len() == 0,
            mutex.value() is Some,
            call_ensures(T::default, (), mutex.value()->0),
    {
        Self::new(T::default())
    }
}

/// Changing nothing but wakers keeps the order of the entries, and who has the lock.
proof fn lemma_same_flags<P: Priority>(
    before: Seq<QueueEntry<MutexWaiter<P>>>,
    after: Seq<QueueEntry<MutexWaiter<P>>>,
)
    requires
        before.len() == after.len(),
        forall|i: int|
            0 <= i < before.len() ==> {
                &&& (#[trigger] after[i]).key == before[i].key
                &&& after[i].data.priority == before[i].data.priority
                &&& after[i].data.waiter.flags == before[i].data.waiter.flags
            },
    ensures
        queue::sorted(before) ==> queue::sorted(after),
        one_holder(before) ==> one_holder(after),
        holder_warned(before) ==> holder_warned(after),
{
    if queue::sorted(before) {
        assert forall|i: int, j: int| 0 <= i < j < after.len() implies (
        #[trigger] after[i]).data.order(&(#[trigger] after[j]).data) >= 0 by {
            assert(before[i].data.order(&before[j].data) >= 0);
        }
    }
    if one_holder(before) {
        assert forall|i: int| 0 <= i < after.len() implies ((
        #[trigger] after[i]).data.waiter.holds() <==> i == 0) by {
            assert(before[i].data.waiter.holds() <==> i == 0);
        }
    }
}

/// At any time exactly the first entry has the lock, whether or not its owner has noticed yet, and
/// no two entries have the same key.
pub proof fn law_one_holder<P: Priority, T, Q: MutexQueue<P>>(mutex: Mutex<P, T, Q>)
    requires
        mutex.wf(),
    ensures
        one_holder(mutex.entries()),
        queue::unique_keys(mutex.entries()),
        forall|i: int|
            0 <= i < mutex.entries().len() ==> ((
            #[trigger] mutex.entries()[i]).data.waiter.holds() <==> i == 0),
        forall|i: int, j: int|
            0 <= i < j < mutex.entries().len() ==> (#[trigger] mutex.entries()[i]).key != (
            #[trigger] mutex.entries()[j]).key,
{
    mutex.queue.lemma_unique_keys();
}

/// Two guards that both hold the lock are one and the same, and nobody who waits holds it along with
/// them.
pub proof fn law_exclusive<P: Priority, T, Q: MutexQueue<P>>(
    mutex: Mutex<P, T, Q>,
    guard: MutexGuard<P, T, Q>,
    other: MutexGuard<P, T, Q>,
    pending: MutexPending<P, Q>,
)
    requires
        mutex.wf(),
        mutex.held_by(&guard),
    ensures
        mutex.held_by(&other) ==> other.key() == guard.key(),
        mutex.awaited_by(&pending) ==> {
            &&& pending.key() != guard.key()
            &&& !mutex.entries()[queue::position(
                mutex.entries(),
                pending.key(),
            )].data.waiter.holds()
        },
{
    mutex.queue.lemma_unique_keys();
    let entries = mutex.entries();
    if mutex.awaited_by(&pending) {
        let i = queue::position(entries, pending.key());
        assert(entries[i].key == pending.key());
        assert(entries[i].data.waiter.holds() <==> i == 0);
    }
}

/// The lock is never left idle while somebody waits: where there are entries, one has the lock, and
/// where there are none, the guarded value is here for the next requester.
pub proof fn law_never_idle<P: Priority, T, Q: MutexQueue<P>>(mutex: Mutex<P, T, Q>)
    requires
        mutex.wf(),
    ensures
        mutex.entries().len() > 0 ==> mutex.entries()[0].data.waiter.holds(),
        mutex.entries().len() == 0 ==> mutex.value() is Some,
{
}

/// While someone waits with a higher priority than the holder, the holder is asked to leave.
pub proof fn law_holder_warned<P: Priority, T, Q: MutexQueue<P>>(mutex: Mutex<P, T, Q>, i: int)
    requires
        priority::lawful::<P>(),
        mutex.wf(),
        0 < i < mutex.entries().len(),
        mutex.entries()[i].data.priority.order(&mutex.entries()[0].data.priority) > 0,
    ensures
        mutex.entries()[0].data.waiter.unwanted(),
{
}

/// Those who wait stand in order of priority, the highest first, so that whoever is granted access
/// once the holder unlocks ranks below nobody else who waits.
pub proof fn law_highest_next<P: Priority, T, Q: MutexQueue<P>>(
    mutex: Mutex<P, T, Q>,
    i: int,
    j: int,
)
    requires
        priority::lawful::<P>(),
        mutex.wf(),
        0 < i < j < mutex.entries().len(),
    ensures
        mutex.entries()[i].data.priority.order(&mutex.entries()[j].data.priority) >= 0,
        ({
            let next = with_head_started(mutex.entries().remove(0));
            &&& next[0].key == mutex.entries()[1].key
            &&& next[0].data.waiter.holds()
            &&& next[0].data.priority.order(&next[j - 1].data.priority) >= 0
        }),
{
    let entries = mutex.entries();
    assert(entries[i].data.order(&entries[j].data) >= 0);
    assert(entries[i].data.waiter.holds() <==> i == 0);
    assert(entries[j].data.waiter.holds() <==> j == 0);
    assert(entries[1].data.order(&entries[j].data) >= 0);
    assert(entries[1].data.waiter.holds() <==> 1int == 0);
    let rest = entries.remove(0);
    assert(rest[0] == entries[1]);
    assert(rest[j - 1] == entries[j]);
    rest[0].data.waiter.lemma_flags();
}

/// With a priority like [FIFO](priority::FIFO), a requester is queued after everyone who waits with
/// the same priority. With one like [LIFO](priority::LIFO), it is queued before them.
pub proof fn law_waiters_of_same_priority<P: Priority, T, Q: MutexQueue<P>>(
    mutex: Mutex<P, T, Q>,
    evict: bool,
    entries: Seq<QueueEntry<MutexWaiter<P>>>,
    key: int,
    priority: P,
    i: int,
)
    requires
        priority::lawful::<P>(),
        mutex.wf(),
        mutex.entries().len() > 0,
        queue::enqueued(
            with_head_asked(mutex.entries(), evict),
            entries,
            key,
            MutexWaiter { priority, waiter: Waiter::fresh(false) },
        ),
        0 < i < entries.len(),
        entries[i].key != key,
        entries[i].data.priority.order(&priority) == 0,
    ensures
        priority::newest_last::<P>() ==> i < queue::position(entries, key),
        priority::newest_first::<P>() ==> queue::position(entries, key) < i,
{
    let data = MutexWaiter { priority, waiter: Waiter::fresh(false) };
    let before = mutex.entries();
    let asked = with_head_asked(before, evict);
    mutex.queue.lemma_unique_keys();
    before[0].data.waiter.lemma_flags();
    law_mutex_waiter::<P>();
    assert(0usize & 1 == 0) by (bit_vector);
    let k = queue::lemma_place(asked, entries, key, data);
    queue::lemma_insert_key(asked, k, QueueEntry { key, data });
    assert(entries[k].key == key);
    assert(k > 0) by {
        assert(asked[0].data.waiter.holds());
    }
    let a = if i < k {
        i
    } else {
        i - 1
    };
    assert(entries[i] == asked[a]);
    assert(a > 0) by {
        if a == 0 {
            assert(asked.len() > 0);
        }
    }
    assert(!asked[a].data.waiter.holds());
    assert forall|x: int, y: int| 0 <= x < y < asked.len() implies (
    #[trigger] asked[x]).data.order(&(#[trigger] asked[y]).data) >= 0 by {
        assert(before[x].data.order(&before[y].data) >= 0);
    }
    if priority::newest_last::<P>() {
        queue::law_newest_last(asked, entries, key, data, i);
    }
    if priority::newest_first::<P>() && i < k {
        reveal(priority::newest_first);
        let last = asked[k - 1].data;
        assert(!last.waiter.holds()) by {
            assert(before[k - 1].data.waiter.holds() <==> k - 1 == 0);
        }
        priority::lemma_lawful_pair(data, last);
        priority::lemma_lawful_pair(data, asked[i].data);
        assert(data.order_new(&last) <= 0);
        assert(data.order(&last) < 0);
        if i < k - 1 {
            assert(asked[i].data.order(&asked[k - 1].data) >= 0);
            priority::lemma_lawful_chain(asked[i].data, last, data);
        }
    }
}

/// Giving up while others hold the lock leaves the queue as it was before the request, but for the
/// holder having been asked to leave.
pub proof fn law_cancel_undoes_lock<P: Priority, T, Q: MutexQueue<P>>(
    mutex: Mutex<P, T, Q>,
    evict: bool,
    entries: Seq<QueueEntry<MutexWaiter<P>>>,
    key: int,
    priority: P,
)
    requires
        mutex.wf(),
        mutex.entries().len() > 0,
        queue::enqueued(
            with_head_asked(mutex.entries(), evict),
            entries,
            key,
            MutexWaiter { priority, waiter: Waiter::fresh(false) },
        ),
    ensures
        queue::has_key(entries, key),
        entries.remove(queue::position(entries, key)) == with_head_asked(mutex.entries(), evict),
{
    let asked = with_head_asked(mutex.entries(), evict);
    mutex.queue.lemma_unique_keys();
    queue::law_dequeue_undoes_enqueue(
        asked,
        entries,
        key,
        MutexWaiter { priority, waiter: Waiter::fresh(false) },
    );
}

} // verus!
