//! What the operations of a [Mutex] do, stated of each of them from what goes in and what comes out.
use crate::mutex;
use crate::mutex::{LockAttempt, Mutex, MutexGuard, MutexPending, MutexQueue, MutexWaiter};
use crate::priority;
use crate::priority::Priority;
use crate::queue;
use crate::queue::{QueueEntry, MAX_ENTRIES};
use crate::waiter::Waiter;
use core::task::Waker;
use vstd::prelude::*;

verus! {

/// Unlocking gives the guarded value back. The holder is gone, and the first of those who waited
/// has the lock, without being asked to leave. If a waker was kept for it, exactly that one is
/// returned, however many others wait. Nothing changes for those.
pub proof fn law_unlock<P: Priority, T, Q: MutexQueue<P>>(
    mutex: &mut Mutex<P, T, Q>,
    guard: MutexGuard<P, T, Q>,
    woken: Option<Waker>,
)
    requires
        old(mutex).wf(),
        old(mutex).held_by(&guard),
        call_ensures(Mutex::<P, T, Q>::unlock, (mutex, guard), woken),
    ensures
        final(mutex).value() == Some(guard.value()),
        final(mutex).entries().len() == old(mutex).entries().len() - 1,
        forall|i: int|
            1 <= i < final(mutex).entries().len() ==> (#[trigger] final(mutex).entries()[i]) == old(mutex).entries()[i + 1],
        old(mutex).entries().len() == 1 ==> woken is None,
        old(mutex).entries().len() > 1 ==> {
            let was = old(mutex).entries()[1];
            let now = final(mutex).entries()[0];
            &&& woken == was.data.waiter.waker
            &&& now.key == was.key
            &&& now.data.priority == was.data.priority
            &&& now.data.waiter.holds()
            &&& !now.data.waiter.unwanted()
            &&& now.data.waiter.waker is None
        },
{
    let rest = old(mutex).entries().remove(0);
    if rest.len() > 0 {
        rest[0].data.waiter.lemma_flags();
    }
}

/// One who gives up is gone, and the guarded value stays where it is. If the lock had been granted,
/// it passes on as if unlocked. Otherwise nothing changes for the others, and nobody is woken.
pub proof fn law_cancel<P: Priority, T, Q: MutexQueue<P>>(
    mutex: &mut Mutex<P, T, Q>,
    pending: MutexPending<P, Q>,
    woken: Option<Waker>,
    i: int,
)
    requires
        old(mutex).wf(),
        old(mutex).awaited_by(&pending),
        call_ensures(Mutex::<P, T, Q>::cancel, (mutex, pending), woken),
        0 <= i < old(mutex).entries().len(),
        old(mutex).entries()[i].key == pending.key(),
    ensures
        final(mutex).value() == old(mutex).value(),
        final(mutex).entries().len() == old(mutex).entries().len() - 1,
        forall|j: int|
            0 <= j < i ==> (#[trigger] final(mutex).entries()[j]) == old(mutex).entries()[j],
        forall|j: int|
            i <= j < final(mutex).entries().len() && j > 0 ==> (#[trigger] final(mutex).entries()[j]) == old(mutex).entries()[j + 1],
        i > 0 || old(mutex).entries().len() == 1 ==> woken is None,
        i == 0 && old(mutex).entries().len() > 1 ==> {
            let was = old(mutex).entries()[1];
            let now = final(mutex).entries()[0];
            &&& woken == was.data.waiter.waker
            &&& now.key == was.key
            &&& now.data.priority == was.data.priority
            &&& now.data.waiter.holds()
            &&& !now.data.waiter.unwanted()
            &&& now.data.waiter.waker is None
        },
{
    mutex::law_one_holder(*old(mutex));
    queue::lemma_position(old(mutex).entries(), i);
    queue::lemma_position(old(mutex).entries(), 0);
    let rest = old(mutex).entries().remove(i);
    if rest.len() > 0 {
        rest[0].data.waiter.lemma_flags();
    }
}

/// A free lock is acquired, by an entry with the given priority that nobody watches or asks to
/// leave, and the guarded value with it.
pub proof fn law_lock_free<P: Priority, T, Q: MutexQueue<P>>(
    mutex: &mut Mutex<P, T, Q>,
    priority: P,
    attempt: LockAttempt<P, T, Q>,
)
    requires
        old(mutex).wf(),
        old(mutex).entries().len() == 0,
        call_ensures(Mutex::<P, T, Q>::lock, (mutex, priority), attempt),
    ensures
        attempt matches LockAttempt::Acquired(guard) && {
            let now = final(mutex).entries()[0];
            &&& old(mutex).value() == Some(guard.value())
            &&& final(mutex).value() is None
            &&& final(mutex).entries().len() == 1
            &&& now.key == guard.key()
            &&& now.data.priority == priority
            &&& now.data.waiter.holds()
            &&& !now.data.waiter.unwanted()
            &&& now.data.waiter.waker is None
        },
{
    Waiter::law_fresh(true);
}

/// Where the lock is held, the requester waits, with the given priority, behind the holder and in
/// order of priority. The holder is asked to leave, and its waker returned if one was kept, exactly
/// if it has the lower priority. Nothing else changes.
pub proof fn law_lock_held<P: Priority, T, Q: MutexQueue<P>>(
    mutex: &mut Mutex<P, T, Q>,
    priority: P,
    attempt: LockAttempt<P, T, Q>,
)
    requires
        priority::lawful::<P>(),
        old(mutex).wf(),
        0 < old(mutex).entries().len() < MAX_ENTRIES,
        call_ensures(Mutex::<P, T, Q>::lock, (mutex, priority), attempt),
    ensures
        attempt matches LockAttempt::Queued(pending, woken) && {
            let before = old(mutex).entries();
            let after = final(mutex).entries();
            let above = priority.order(&before[0].data.priority) > 0;
            &&& final(mutex).value() == old(mutex).value()
            &&& after.len() == before.len() + 1
            &&& exists|k: int|
                {
                    &&& 1 <= k < after.len()
                    &&& (#[trigger] after[k]).key == pending.key()
                    &&& after[k].data.priority == priority
                    &&& !after[k].data.waiter.holds()
                    &&& !after[k].data.waiter.unwanted()
                    &&& after[k].data.waiter.waker is None
                    &&& forall|i: int|
                        1 <= i < k ==> {
                            &&& (#[trigger] after[i]) == before[i]
                            &&& after[i].data.priority.order(&priority) >= 0
                        }
                    &&& forall|i: int|
                        k < i < after.len() ==> {
                            &&& (#[trigger] after[i]) == before[i - 1]
                            &&& priority.order(&after[i].data.priority) >= 0
                        }
                }
            &&& after[0].key == before[0].key
            &&& after[0].data.priority == before[0].data.priority
            &&& after[0].data.waiter.holds()
            &&& above ==> {
                &&& woken == before[0].data.waiter.waker
                &&& after[0].data.waiter.unwanted()
                &&& after[0].data.waiter.waker is None
            }
            &&& !above ==> woken is None && after[0] == before[0]
        },
{
    let before = old(mutex).entries();
    let after = final(mutex).entries();
    let entry = MutexWaiter { priority, waiter: Waiter::fresh(false) };
    Waiter::law_fresh(false);
    mutex::law_one_holder(*old(mutex));
    mutex::law_one_holder(*final(mutex));
    priority::lemma_lawful_pair(priority, before[0].data.priority);
    before[0].data.waiter.lemma_flags();
    match attempt {
        LockAttempt::Queued(pending, woken) => {
            let evict = choose|evict: bool|
                {
                    &&& priority.comparable(&before[0].data.priority) ==> evict == (priority.order(
                        &before[0].data.priority,
                    ) > 0)
                    &&& #[trigger] queue::enqueued(
                        mutex::with_head_asked(before, evict),
                        after,
                        pending.key(),
                        entry,
                    )
                    &&& woken == (if evict {
                        before[0].data.waiter.waker
                    } else {
                        None
                    })
                };
            let asked = mutex::with_head_asked(before, evict);
            let k = queue::lemma_place(asked, after, pending.key(), entry);
            assert(before[0].data.waiter.holds());
            if k == 0 {
                assert(after[0].data.waiter.holds());
            }
            assert forall|i: int| 1 <= i < k implies {
                &&& (#[trigger] after[i]) == before[i]
                &&& after[i].data.priority.order(&priority) >= 0
            } by {
                assert(after[i] == asked[i]);
                mutex::law_highest_next(*final(mutex), i, k);
            }
            assert forall|i: int| k < i < after.len() implies {
                &&& (#[trigger] after[i]) == before[i - 1]
                &&& priority.order(&after[i].data.priority) >= 0
            } by {
                assert(after[i] == asked[i - 1]);
                mutex::law_highest_next(*final(mutex), k, i);
            }
            assert(after[0] == asked[0]);
            assert(after[k].key == pending.key());
        },
        LockAttempt::Acquired(_) => {},
    }
}

/// [Mutex::try_lock] acquires a free lock just as [Mutex::lock] does, and changes nothing where the
/// lock is held.
pub proof fn law_try_lock<P: Priority, T, Q: MutexQueue<P>>(
    mutex: &mut Mutex<P, T, Q>,
    priority: P,
    result: Result<MutexGuard<P, T, Q>, mutex::TryLockError>,
)
    requires
        old(mutex).wf(),
        call_ensures(Mutex::<P, T, Q>::try_lock, (mutex, priority), result),
    ensures
        result is Ok <==> old(mutex).entries().len() == 0,
        result is Err ==> *final(mutex) == *old(mutex),
        result matches Ok(guard) ==> {
            let now = final(mutex).entries()[0];
            &&& old(mutex).value() == Some(guard.value())
            &&& final(mutex).value() is None
            &&& final(mutex).entries().len() == 1
            &&& now.key == guard.key()
            &&& now.data.priority == priority
            &&& now.data.waiter.holds()
            &&& !now.data.waiter.unwanted()
            &&& now.data.waiter.waker is None
        },
{
    Waiter::law_fresh(true);
}

/// One who waits gets the guarded value exactly if it has the lock. Otherwise its waker is kept.
/// Nothing else changes.
pub proof fn law_poll_lock<P: Priority, T, Q: MutexQueue<P>>(
    mutex: &mut Mutex<P, T, Q>,
    pending: MutexPending<P, Q>,
    waker: Waker,
    result: Result<MutexGuard<P, T, Q>, MutexPending<P, Q>>,
    i: int,
)
    requires
        old(mutex).wf(),
        old(mutex).awaited_by(&pending),
        call_ensures(Mutex::<P, T, Q>::poll_lock, (mutex, pending, waker), result),
        0 <= i < old(mutex).entries().len(),
        old(mutex).entries()[i].key == pending.key(),
    ensures
        result is Ok <==> old(mutex).entries()[i].data.waiter.holds(),
        result matches Ok(guard) ==> {
            &&& guard.key() == pending.key()
            &&& old(mutex).value() == Some(guard.value())
            &&& final(mutex).value() is None
        },
        result matches Err(still) ==> {
            &&& still.key() == pending.key()
            &&& final(mutex).value() == old(mutex).value()
        },
        final(mutex).entries().len() == old(mutex).entries().len(),
        forall|j: int|
            0 <= j < old(mutex).entries().len() && j != i ==> (#[trigger] final(mutex).entries()[j]) == old(mutex).entries()[j],
        ({
            let was = old(mutex).entries()[i];
            let now = final(mutex).entries()[i];
            &&& now.key == was.key
            &&& now.data.priority == was.data.priority
            &&& now.data.waiter.flags == was.data.waiter.flags
            &&& now.data.waiter.waker == (if result is Ok {
                None
            } else {
                Some(waker)
            })
        }),
{
    mutex::law_one_holder(*old(mutex));
    queue::lemma_position(old(mutex).entries(), i);
    queue::lemma_position(old(mutex).entries(), 0);
    assert(old(mutex).entries()[i].data.waiter.holds() <==> i == 0);
}

/// A holder learns exactly whether it is asked to leave. If it isn't, its waker is kept. Nothing
/// else changes.
pub proof fn law_evicted<P: Priority, T, Q: MutexQueue<P>>(
    guard: &MutexGuard<P, T, Q>,
    mutex: &mut Mutex<P, T, Q>,
    waker: Waker,
    evicted: bool,
)
    requires
        old(mutex).wf(),
        old(mutex).held_by(guard),
        call_ensures(MutexGuard::<P, T, Q>::evicted, (guard, mutex, waker), evicted),
    ensures
        evicted == old(mutex).entries()[0].data.waiter.unwanted(),
        final(mutex).value() == old(mutex).value(),
        final(mutex).entries().len() == old(mutex).entries().len(),
        forall|j: int|
            1 <= j < old(mutex).entries().len() ==> (#[trigger] final(mutex).entries()[j]) == old(mutex).entries()[j],
        ({
            let was = old(mutex).entries()[0];
            let now = final(mutex).entries()[0];
            &&& now.key == was.key
            &&& now.data.priority == was.data.priority
            &&& now.data.waiter.flags == was.data.waiter.flags
            &&& now.data.waiter.waker == (if evicted {
                None
            } else {
                Some(waker)
            })
        }),
{
    mutex::law_one_holder(*old(mutex));
    queue::lemma_position(old(mutex).entries(), 0);
}

/// A holder who no longer waits to be asked to leave loses its waker, and nothing else changes.
pub proof fn law_ignore_evicted<P: Priority, T, Q: MutexQueue<P>>(
    guard: &MutexGuard<P, T, Q>,
    mutex: &mut Mutex<P, T, Q>,
)
    requires
        old(mutex).wf(),
        old(mutex).held_by(guard),
        call_ensures(MutexGuard::<P, T, Q>::ignore_evicted, (guard, mutex), ()),
    ensures
        final(mutex).value() == old(mutex).value(),
        final(mutex).entries().len() == old(mutex).entries().len(),
        forall|j: int|
            1 <= j < old(mutex).entries().len() ==> (#[trigger] final(mutex).entries()[j]) == old(mutex).entries()[j],
        ({
            let was = old(mutex).entries()[0];
            let now = final(mutex).entries()[0];
            &&& now.key == was.key
            &&& now.data.priority == was.data.priority
            &&& now.data.waiter.flags == was.data.waiter.flags
            &&& now.data.waiter.waker is None
        }),
{
    mutex::law_one_holder(*old(mutex));
    queue::lemma_position(old(mutex).entries(), 0);
}

/// The holder ranks above everyone who waits, and those who wait rank as their priorities do.
pub proof fn law_entries_rank<P: Priority>(a: MutexWaiter<P>, b: MutexWaiter<P>)
    requires
        priority::lawful::<P>(),
    ensures
        a.waiter.holds() && !b.waiter.holds() ==> a.order(&b) > 0 && a.order_new(&b) > 0,
        !a.waiter.holds() && b.waiter.holds() ==> a.order(&b) < 0 && a.order_new(&b) < 0,
        !a.waiter.holds() && !b.waiter.holds() ==> {
            &&& a.order(&b) == a.priority.order(&b.priority)
            &&& a.order_new(&b) == a.priority.order_new(&b.priority)
        },
{
}

} // verus!
