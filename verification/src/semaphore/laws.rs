//! What the operations of a [Semaphore] do, stated of each of them from what goes in and what comes
//! out.
use crate::priority;
use crate::priority::Priority;
use crate::queue;
use crate::queue::{QueueEntry, MAX_ENTRIES};
use crate::semaphore;
use crate::semaphore::entries;
use crate::semaphore::{
    AcquireAttempt, InsufficientPermitsError, Semaphore, SemaphorePermit, SemaphorePermitWaiter,
    SemaphoreQueue, SemaphoreWaiter, WithinTotal, MAX_PERMITS,
};
use crate::waiter::Waiter;
use core::task::Waker;
use vstd::prelude::*;

verus! {

/// Whether `some` are those of `all` for which `which` says so, each of them once, in the same
/// order.
pub open spec fn picked<A>(all: Seq<A>, which: Seq<bool>, some: Seq<A>) -> bool {
    exists|at: Seq<int>| #[trigger] picked_at(all, which, some, at)
}

/// Whether `some` are those of `all` at the places `at`, which are the places that `which` says.
pub open spec fn picked_at<A>(all: Seq<A>, which: Seq<bool>, some: Seq<A>, at: Seq<int>) -> bool {
    &&& which.len() == all.len()
    &&& at.len() == some.len()
    &&& forall|a: int|
        0 <= a < at.len() ==> {
            &&& 0 <= (#[trigger] at[a]) < all.len()
            &&& which[at[a]]
            &&& some[a] == all[at[a]]
        }
    &&& forall|a: int, b: int| 0 <= a < b < at.len() ==> (#[trigger] at[a]) < (#[trigger] at[b])
    &&& forall|i: int| 0 <= i < all.len() && #[trigger] which[i] ==> at.contains(i)
}

/// Whether `woken` are the wakers of those entries for which `which` says so, each of them once, in
/// the same order. Who has no waker has none in there.
pub open spec fn rung<P: Priority>(
    entries: Seq<QueueEntry<SemaphoreWaiter<P>>>,
    which: Seq<bool>,
    woken: Seq<Waker>,
) -> bool {
    picked(
        entries.map_values(|entry: QueueEntry<SemaphoreWaiter<P>>| entry.data.waiter.waker),
        Seq::new(
            entries.len(),
            |i: int| which[i] && entries[i].data.waiter.waker is Some,
        ),
        woken.map_values(|waker: Waker| Some(waker)),
    )
}

/// Whether `given` says who of those who wait has a turn, out of `available` permits: whoever asks
/// for no more than is left by those before, where each of these has a turn or is turned away.
/// `left` says what is left before each of them, and in the end.
pub open spec fn in_turn<P: Priority>(
    waiting: Seq<QueueEntry<SemaphoreWaiter<P>>>,
    available: int,
    given: Seq<bool>,
    left: Seq<int>,
) -> bool {
    &&& given.len() == waiting.len()
    &&& left.len() == waiting.len() + 1
    &&& left[0] == available
    &&& forall|i: int|
        0 <= i < waiting.len() && #[trigger] given[i] ==> {
            &&& waiting[i].data.count <= left[i]
            &&& left[i + 1] == left[i] - waiting[i].data.count
            &&& forall|j: int| 0 <= j < i ==> #[trigger] given[j]
                || waiting[j].data.waiter.unwanted()
        }
    &&& forall|i: int|
        0 <= i < waiting.len() && !(#[trigger] given[i]) ==> {
            &&& left[i + 1] == left[i]
            &&& waiting[i].data.count > left[i] || exists|j: int|
                0 <= j < i && !(#[trigger] given[j]) && !waiting[j].data.waiter.unwanted()
        }
}

/// Those for whom `which` does not say so.
pub open spec fn others(which: Seq<bool>) -> Seq<bool> {
    which.map_values(|b: bool| !b)
}

/// Whether `holder` is what becomes of `waiting` when it is granted what it asks for.
pub open spec fn now_holds<P: Priority>(
    waiting: SemaphoreWaiter<P>,
    holder: SemaphoreWaiter<P>,
) -> bool {
    &&& holder.priority == waiting.priority
    &&& holder.count == waiting.count
    &&& holder.within_total == waiting.within_total
    &&& holder.waiter.holds()
    &&& !holder.waiter.unwanted()
    &&& holder.waiter.waker is None
}

/// Whether `now` is `was` once it is asked to leave.
pub open spec fn now_asked<P: Priority>(was: SemaphoreWaiter<P>, now: SemaphoreWaiter<P>) -> bool {
    &&& now.priority == was.priority
    &&& now.count == was.count
    &&& now.within_total == was.within_total
    &&& now.waiter.holds() == was.waiter.holds()
    &&& now.waiter.unwanted()
    &&& now.waiter.waker is None
}

/// Whether `now` is `was`, watched by `waker`.
pub open spec fn now_watched<P: Priority>(
    was: SemaphoreWaiter<P>,
    now: SemaphoreWaiter<P>,
    waker: Option<Waker>,
) -> bool {
    &&& now.priority == was.priority
    &&& now.count == was.count
    &&& now.within_total == was.within_total
    &&& now.waiter.flags == was.waiter.flags
    &&& now.waiter.waker == waker
}

/// Whether those of `waiting` who have a turn, out of `available` permits, hold what they asked for
/// in `after`, beside `holders`, and their wakers, and no others, are in `woken`. All others go on
/// waiting as they did.
pub open spec fn granted_in_turn<P: Priority, Q: SemaphoreQueue<P>>(
    holders: Map<int, SemaphoreWaiter<P>>,
    waiting: Seq<QueueEntry<SemaphoreWaiter<P>>>,
    available: int,
    after: Semaphore<P, Q>,
    woken: Seq<Waker>,
) -> bool {
    &&& exists|given: Seq<bool>, left: Seq<int>|
        {
            &&& #[trigger] in_turn(waiting, available, given, left)
            &&& after.available() == left[waiting.len() as int]
            &&& picked(waiting, others(given), after.waiting())
            &&& rung(waiting, given, woken)
            &&& forall|i: int|
                0 <= i < waiting.len() && #[trigger] given[i] ==> {
                    &&& after.holders().contains_key(waiting[i].key)
                    &&& now_holds(waiting[i].data, after.holders()[waiting[i].key])
                }
            &&& forall|key: int| #[trigger]
                after.holders().contains_key(key) ==> {
                    ||| holders.contains_key(key)
                    ||| exists|i: int|
                        0 <= i < waiting.len() && #[trigger] given[i] && waiting[i].key == key
                }
        }
    &&& forall|key: int| #[trigger]
        holders.contains_key(key) ==> {
            &&& after.holders().contains_key(key)
            &&& after.holders()[key] == holders[key]
        }
    &&& forall|i: int|
        0 <= i < waiting.len() && after.holders().contains_key((#[trigger] waiting[i]).key)
            && waiting[i].data.waiter.waker is Some ==> woken.contains(
            waiting[i].data.waiter.waker->0,
        )
}

/// One more at the front.
proof fn lemma_picked_front<A>(
    first: A,
    chosen: bool,
    all: Seq<A>,
    which: Seq<bool>,
    some: Seq<A>,
)
    requires
        picked(all, which, some),
    ensures
        picked(
            seq![first] + all,
            seq![chosen] + which,
            if chosen {
                seq![first] + some
            } else {
                some
            },
        ),
{
    let at = choose|at: Seq<int>| #[trigger] picked_at(all, which, some, at);
    let up = Seq::new(at.len(), |a: int| at[a] + 1);
    let more = if chosen {
        seq![0int] + up
    } else {
        up
    };
    let new_all = seq![first] + all;
    let new_which = seq![chosen] + which;
    let new_some = if chosen {
        seq![first] + some
    } else {
        some
    };
    assert forall|i: int| 0 <= i < new_all.len() && #[trigger] new_which[i] implies more.contains(
        i,
    ) by {
        if i == 0 {
            assert(more[0] == 0);
        } else {
            assert(which[i - 1]);
            let a = choose|a: int| 0 <= a < at.len() && at[a] == i - 1;
            if chosen {
                assert(more[a + 1] == i);
            } else {
                assert(more[a] == i);
            }
        }
    }
    assert(picked_at(new_all, new_which, new_some, more));
}

/// One more at the end.
proof fn lemma_picked_back<A>(all: Seq<A>, which: Seq<bool>, some: Seq<A>, last: A, chosen: bool)
    requires
        picked(all, which, some),
    ensures
        picked(
            all.push(last),
            which.push(chosen),
            if chosen {
                some.push(last)
            } else {
                some
            },
        ),
{
    let at = choose|at: Seq<int>| #[trigger] picked_at(all, which, some, at);
    let more = if chosen {
        at.push(all.len() as int)
    } else {
        at
    };
    assert forall|i: int| 0 <= i < all.len() + 1 && #[trigger] which.push(
        chosen,
    )[i] implies more.contains(i) by {
        if i == all.len() {
            assert(more[at.len() as int] == i);
        } else {
            assert(which[i]);
            let a = choose|a: int| 0 <= a < at.len() && at[a] == i;
            assert(more[a] == i);
        }
    }
    assert(picked_at(
        all.push(last),
        which.push(chosen),
        if chosen {
            some.push(last)
        } else {
            some
        },
        more,
    ));
}

/// What is picked was chosen.
proof fn lemma_picked_from<A>(all: Seq<A>, which: Seq<bool>, some: Seq<A>, a: int) -> (i: int)
    requires
        picked(all, which, some),
        0 <= a < some.len(),
    ensures
        0 <= i < all.len(),
        which[i],
        all[i] == some[a],
{
    let at = choose|at: Seq<int>| #[trigger] picked_at(all, which, some, at);
    at[a]
}

/// What is chosen is picked.
proof fn lemma_picked<A>(all: Seq<A>, which: Seq<bool>, some: Seq<A>, i: int)
    requires
        picked(all, which, some),
        0 <= i < all.len(),
        which[i],
    ensures
        some.contains(all[i]),
{
    let at = choose|at: Seq<int>| #[trigger] picked_at(all, which, some, at);
    let a = choose|a: int| 0 <= a < at.len() && at[a] == i;
    assert(some[a] == all[i]);
}

/// The wakers of entries are those of each one that is watched, each once, in the same order.
pub proof fn law_wakers<P: Priority>(entries: Seq<QueueEntry<SemaphoreWaiter<P>>>)
    ensures
        rung(entries, Seq::new(entries.len(), |i: int| true), entries::wakers(entries)),
    decreases entries.len(),
{
    let all = entries.map_values(
        |entry: QueueEntry<SemaphoreWaiter<P>>| entry.data.waiter.waker,
    );
    let which = Seq::new(
        entries.len(),
        |i: int| Seq::new(entries.len(), |i: int| true)[i] && entries[i].data.waiter.waker is Some,
    );
    let some = entries::wakers(entries).map_values(|waker: Waker| Some(waker));
    if entries.len() == 0 {
        assert(picked_at(all, which, some, Seq::empty()));
    } else {
        let rest = entries.drop_last();
        let last = entries.last().data.waiter.waker;
        law_wakers(rest);
        let rest_all = rest.map_values(
            |entry: QueueEntry<SemaphoreWaiter<P>>| entry.data.waiter.waker,
        );
        let rest_which = Seq::new(
            rest.len(),
            |i: int| Seq::new(rest.len(), |i: int| true)[i] && rest[i].data.waiter.waker is Some,
        );
        let rest_some = entries::wakers(rest).map_values(|waker: Waker| Some(waker));
        lemma_picked_back(rest_all, rest_which, rest_some, last, last is Some);
        assert(all =~= rest_all.push(last));
        assert(which =~= rest_which.push(last is Some));
        assert(some =~= if last is Some {
            rest_some.push(last)
        } else {
            rest_some
        });
    }
}

/// The wakers of those who are asked to leave are those of each of them that is watched, each once,
/// in the same order.
pub proof fn law_asked_wakers<P: Priority>(
    entries: Seq<QueueEntry<SemaphoreWaiter<P>>>,
    evict: Seq<bool>,
)
    requires
        evict.len() >= entries.len(),
    ensures
        rung(entries, evict, entries::asked_wakers(entries, evict)),
    decreases entries.len(),
{
    let all = entries.map_values(
        |entry: QueueEntry<SemaphoreWaiter<P>>| entry.data.waiter.waker,
    );
    let which = Seq::new(
        entries.len(),
        |i: int| evict[i] && entries[i].data.waiter.waker is Some,
    );
    let some = entries::asked_wakers(entries, evict).map_values(|waker: Waker| Some(waker));
    if entries.len() == 0 {
        assert(picked_at(all, which, some, Seq::empty()));
    } else {
        let rest = entries.drop_last();
        let last = entries.last().data.waiter.waker;
        let chosen = evict[entries.len() - 1] && last is Some;
        law_asked_wakers(rest, evict);
        let rest_all = rest.map_values(
            |entry: QueueEntry<SemaphoreWaiter<P>>| entry.data.waiter.waker,
        );
        let rest_which = Seq::new(
            rest.len(),
            |i: int| evict[i] && rest[i].data.waiter.waker is Some,
        );
        let rest_some = entries::asked_wakers(rest, evict).map_values(
            |waker: Waker| Some(waker),
        );
        lemma_picked_back(rest_all, rest_which, rest_some, last, chosen);
        assert(all =~= rest_all.push(last));
        assert(which =~= rest_which.push(chosen));
        assert(some =~= if chosen {
            rest_some.push(last)
        } else {
            rest_some
        });
    }
}

/// To serve is to give everyone who has a turn what they ask for, and to leave the others as they
/// stand. Returns who has a turn, and what is left before each of them.
pub proof fn law_serve_in_turn<P: Priority>(
    waiting: Seq<QueueEntry<SemaphoreWaiter<P>>>,
    available: int,
) -> (scan: (Seq<bool>, Seq<int>))
    ensures
        in_turn(waiting, available, scan.0, scan.1),
        entries::serve(waiting, available).available == scan.1[waiting.len() as int],
        picked(waiting, scan.0, entries::serve(waiting, available).granted),
        picked(waiting, others(scan.0), entries::serve(waiting, available).waiting),
    decreases waiting.len(),
{
    let service = entries::serve(waiting, available);
    if waiting.len() == 0 {
        let given = Seq::<bool>::empty();
        assert(picked_at(waiting, given, service.granted, Seq::empty()));
        assert(picked_at(waiting, others(given), service.waiting, Seq::empty()));
        (given, seq![available])
    } else {
        let first = waiting[0];
        let rest = waiting.skip(1);
        assert(seq![first] + rest =~= waiting);
        if first.data.count <= available || first.data.waiter.unwanted() {
            let chosen = first.data.count <= available;
            let then = if chosen {
                available - first.data.count
            } else {
                available
            };
            let (given, left) = law_serve_in_turn(rest, then);
            let after = entries::serve(rest, then);
            lemma_picked_front(first, chosen, rest, given, after.granted);
            lemma_picked_front(first, !chosen, rest, others(given), after.waiting);
            let all_given = seq![chosen] + given;
            let all_left = seq![available] + left;
            assert(others(all_given) =~= seq![!chosen] + others(given));
            assert forall|i: int| 0 <= i < waiting.len() && #[trigger] all_given[i] implies {
                &&& waiting[i].data.count <= all_left[i]
                &&& all_left[i + 1] == all_left[i] - waiting[i].data.count
                &&& forall|j: int| 0 <= j < i ==> #[trigger] all_given[j]
                    || waiting[j].data.waiter.unwanted()
            } by {
                if i > 0 {
                    assert(given[i - 1]);
                    assert(waiting[i] == rest[i - 1]);
                    assert forall|j: int| 0 <= j < i implies #[trigger] all_given[j]
                        || waiting[j].data.waiter.unwanted() by {
                        if j > 0 {
                            assert(given[j - 1] || rest[j - 1].data.waiter.unwanted());
                        }
                    }
                }
            }
            assert forall|i: int| 0 <= i < waiting.len() && !(#[trigger] all_given[i]) implies {
                &&& all_left[i + 1] == all_left[i]
                &&& waiting[i].data.count > all_left[i] || exists|j: int|
                    0 <= j < i && !(#[trigger] all_given[j]) && !waiting[j].data.waiter.unwanted()
            } by {
                if i > 0 {
                    assert(!given[i - 1]);
                    assert(waiting[i] == rest[i - 1]);
                    if rest[i - 1].data.count <= left[i - 1] {
                        let j = choose|j: int|
                            0 <= j < i - 1 && !(#[trigger] given[j])
                                && !rest[j].data.waiter.unwanted();
                        assert(!all_given[j + 1] && !waiting[j + 1].data.waiter.unwanted());
                    }
                }
            }
            assert(in_turn(waiting, available, all_given, all_left));
            (all_given, all_left)
        } else {
            let given = Seq::new(waiting.len(), |i: int| false);
            let left = Seq::new(waiting.len() + 1, |i: int| available);
            assert(picked_at(waiting, given, service.granted, Seq::empty()));
            assert(picked_at(
                waiting,
                others(given),
                service.waiting,
                Seq::new(waiting.len(), |i: int| i),
            )) by {
                let at = Seq::new(waiting.len(), |i: int| i);
                assert forall|i: int|
                    0 <= i < waiting.len() && #[trigger] others(given)[i] implies at.contains(i) by {
                    assert(at[i] == i);
                }
            }
            assert forall|i: int| 0 <= i < waiting.len() && !(#[trigger] given[i]) implies {
                &&& left[i + 1] == left[i]
                &&& waiting[i].data.count > left[i] || exists|j: int|
                    0 <= j < i && !(#[trigger] given[j]) && !waiting[j].data.waiter.unwanted()
            } by {
                if i > 0 {
                    assert(!given[0] && !waiting[0].data.waiter.unwanted());
                }
            }
            (given, left)
        }
    }
}

/// The wakers of some of the entries are wakers of the entries.
proof fn lemma_rung<P: Priority>(
    entries: Seq<QueueEntry<SemaphoreWaiter<P>>>,
    which: Seq<bool>,
    some: Seq<QueueEntry<SemaphoreWaiter<P>>>,
    woken: Seq<Waker>,
)
    requires
        picked(entries, which, some),
        rung(some, Seq::new(some.len(), |i: int| true), woken),
    ensures
        rung(entries, which, woken),
{
    let all = entries.map_values(
        |entry: QueueEntry<SemaphoreWaiter<P>>| entry.data.waiter.waker,
    );
    let watched = Seq::new(
        entries.len(),
        |i: int| which[i] && entries[i].data.waiter.waker is Some,
    );
    let some_all = some.map_values(
        |entry: QueueEntry<SemaphoreWaiter<P>>| entry.data.waiter.waker,
    );
    let some_watched = Seq::new(
        some.len(),
        |i: int| Seq::new(some.len(), |i: int| true)[i] && some[i].data.waiter.waker is Some,
    );
    let wakers = woken.map_values(|waker: Waker| Some(waker));
    let outer = choose|at: Seq<int>| #[trigger] picked_at(entries, which, some, at);
    let inner = choose|at: Seq<int>| #[trigger] picked_at(some_all, some_watched, wakers, at);
    let at = Seq::new(inner.len(), |a: int| outer[inner[a]]);
    assert forall|a: int| 0 <= a < at.len() implies {
        &&& 0 <= (#[trigger] at[a]) < all.len()
        &&& watched[at[a]]
        &&& wakers[a] == all[at[a]]
    } by {
        assert(some_watched[inner[a]]);
        assert(which[outer[inner[a]]]);
    }
    assert forall|a: int, b: int| 0 <= a < b < at.len() implies (#[trigger] at[a]) < (
    #[trigger] at[b]) by {
        assert(inner[a] < inner[b]);
    }
    assert forall|i: int| 0 <= i < all.len() && #[trigger] watched[i] implies at.contains(i) by {
        assert(which[i]);
        let b = choose|b: int| 0 <= b < outer.len() && outer[b] == i;
        assert(some_watched[b]);
        let a = choose|a: int| 0 <= a < inner.len() && inner[a] == b;
        assert(at[a] == i);
    }
    assert(picked_at(all, watched, wakers, at));
}

/// Whoever is chosen and watched has their waker among the woken.
proof fn lemma_rung_each<P: Priority>(
    entries: Seq<QueueEntry<SemaphoreWaiter<P>>>,
    which: Seq<bool>,
    woken: Seq<Waker>,
    i: int,
)
    requires
        rung(entries, which, woken),
        0 <= i < entries.len(),
        which[i],
        entries[i].data.waiter.waker is Some,
    ensures
        woken.contains(entries[i].data.waiter.waker->0),
{
    let all = entries.map_values(
        |entry: QueueEntry<SemaphoreWaiter<P>>| entry.data.waiter.waker,
    );
    let watched = Seq::new(
        entries.len(),
        |i: int| which[i] && entries[i].data.waiter.waker is Some,
    );
    let wakers = woken.map_values(|waker: Waker| Some(waker));
    assert(watched[i]);
    lemma_picked(all, watched, wakers, i);
    let a = choose|a: int| 0 <= a < wakers.len() && wakers[a] == all[i];
    assert(woken[a] == entries[i].data.waiter.waker->0);
}

/// Serving those who wait, beside holders with other keys, grants permits in turn.
proof fn lemma_granted_in_turn<P: Priority, Q: SemaphoreQueue<P>>(
    holders: Map<int, SemaphoreWaiter<P>>,
    waiting: Seq<QueueEntry<SemaphoreWaiter<P>>>,
    available: int,
    after: Semaphore<P, Q>,
    woken: Seq<Waker>,
)
    requires
        after.served(holders, waiting, available, woken),
        queue::unique_keys(waiting),
        forall|i: int|
            0 <= i < waiting.len() ==> !holders.contains_key((#[trigger] waiting[i]).key),
    ensures
        granted_in_turn(holders, waiting, available, after, woken),
{
    let service = entries::serve(waiting, available);
    let granted = service.granted;
    let (given, left) = law_serve_in_turn(waiting, available);
    law_wakers(granted);
    lemma_rung(waiting, given, granted, woken);
    assert forall|i: int| 0 <= i < waiting.len() && #[trigger] given[i] implies {
        &&& after.holders().contains_key(waiting[i].key)
        &&& now_holds(waiting[i].data, after.holders()[waiting[i].key])
    } by {
        lemma_picked(waiting, given, granted, i);
        let a = choose|a: int| 0 <= a < granted.len() && granted[a] == waiting[i];
        assert(granted[a].key == waiting[i].key);
        entries::law_granted_hold(holders, granted, waiting[i].key);
        let b = choose|b: int|
            {
                &&& 0 <= b < granted.len()
                &&& (#[trigger] granted[b]).key == waiting[i].key
                &&& after.holders()[waiting[i].key] == granted[b].data.started()
            };
        let j = lemma_picked_from(waiting, given, granted, b);
        assert(waiting[j].key == waiting[i].key);
    }
    assert forall|key: int| #[trigger] after.holders().contains_key(key) implies {
        ||| holders.contains_key(key)
        ||| exists|i: int| 0 <= i < waiting.len() && #[trigger] given[i] && waiting[i].key == key
    } by {
        entries::law_granted_keeps_holders(holders, granted, key);
        if !holders.contains_key(key) {
            let a = queue::position(granted, key);
            assert(granted[a].key == key);
            let i = lemma_picked_from(waiting, given, granted, a);
            assert(given[i] && waiting[i].key == key);
        }
    }
    assert forall|key: int| #[trigger] holders.contains_key(key) implies {
        &&& after.holders().contains_key(key)
        &&& after.holders()[key] == holders[key]
    } by {
        entries::law_granted_keeps_holders(holders, granted, key);
        if queue::has_key(granted, key) {
            let a = queue::position(granted, key);
            assert(granted[a].key == key);
            let i = lemma_picked_from(waiting, given, granted, a);
            assert(!holders.contains_key(waiting[i].key));
        }
    }
    assert forall|i: int|
        0 <= i < waiting.len() && after.holders().contains_key(
            (#[trigger] waiting[i]).key,
        ) && waiting[i].data.waiter.waker is Some implies woken.contains(
        waiting[i].data.waiter.waker->0,
    ) by {
        let j = choose|j: int|
            0 <= j < waiting.len() && #[trigger] given[j] && waiting[j].key == waiting[i].key;
        assert(!holders.contains_key(waiting[i].key));
        assert(waiting[j].key == waiting[i].key && given[j]);
        assert(i == j);
        lemma_rung_each(waiting, given, woken, i);
    }
    assert(in_turn(waiting, available, given, left));
}

/// Those who wait have keys of their own.
proof fn lemma_keys<P: Priority, Q: SemaphoreQueue<P>>(semaphore: Semaphore<P, Q>)
    requires
        semaphore.wf(),
    ensures
        queue::unique_keys(semaphore.waiting()),
        forall|i: int|
            0 <= i < semaphore.waiting().len() ==> !semaphore.holders().contains_key(
                (#[trigger] semaphore.waiting()[i]).key,
            ),
{
    let entries = semaphore.entries();
    let h = entries::held_len(entries);
    semaphore::law_two_sides(semaphore, 0);
    entries::lemma_split(entries, h);
    entries::lemma_holders(entries);
    let w = semaphore.waiting();
    assert forall|i: int, j: int| 0 <= i < j < w.len() implies (#[trigger] w[i]).key != (
    #[trigger] w[j]).key by {
        assert(w[i] == entries[h + i] && w[j] == entries[h + j]);
    }
    assert forall|i: int| 0 <= i < w.len() implies !semaphore.holders().contains_key(
        (#[trigger] w[i]).key,
    ) by {
        assert(w[i] == entries[h + i]);
    }
}

/// Releasing gives the permits back to those who wait. Whoever has a turn, out of what was available
/// and what is released, holds then exactly what they asked for, and all of their wakers are
/// returned. Whoever has none goes on waiting, and other holders keep what they have.
pub proof fn law_release<P: Priority, Q: SemaphoreQueue<P>>(
    semaphore: &mut Semaphore<P, Q>,
    permit: SemaphorePermit<P, Q>,
    woken: Vec<Waker>,
)
    requires
        old(semaphore).wf(),
        old(semaphore).held_by(&permit),
        call_ensures(Semaphore::<P, Q>::release, (semaphore, permit), woken),
    ensures
        final(semaphore).total() == old(semaphore).total(),
        !final(semaphore).holders().contains_key(permit.key()),
        granted_in_turn(
            old(semaphore).holders().remove(permit.key()),
            old(semaphore).waiting(),
            old(semaphore).available() + old(semaphore).holders()[permit.key()].count,
            *final(semaphore),
            woken@,
        ),
{
    let holders = old(semaphore).holders().remove(permit.key());
    let waiting = old(semaphore).waiting();
    lemma_keys(*old(semaphore));
    lemma_granted_in_turn(
        holders,
        waiting,
        old(semaphore).available() + old(semaphore).holders()[permit.key()].count,
        *final(semaphore),
        woken@,
    );
    if final(semaphore).holders().contains_key(permit.key()) {
        let i = choose|i: int|
            0 <= i < waiting.len() && (#[trigger] waiting[i]).key == permit.key();
        assert(0 <= i < waiting.len() && waiting[i].key == permit.key());
    }
}

/// Adding permits makes them available to those who wait, in turn, and wakes everyone who is granted
/// theirs. It fails, and changes nothing, exactly if the total would overflow.
pub proof fn law_try_add_permits<P: Priority, Q: SemaphoreQueue<P>>(
    semaphore: &mut Semaphore<P, Q>,
    count: usize,
    result: Result<(usize, Vec<Waker>), ()>,
)
    requires
        old(semaphore).wf(),
        call_ensures(Semaphore::<P, Q>::try_add_permits, (semaphore, count), result),
    ensures
        result is Ok <==> old(semaphore).total() + count <= usize::MAX,
        result is Err ==> *final(semaphore) == *old(semaphore),
        result matches Ok(added) ==> {
            &&& added.0 == final(semaphore).available()
            &&& final(semaphore).total() == old(semaphore).total() + count
            &&& granted_in_turn(
                old(semaphore).holders(),
                old(semaphore).waiting(),
                old(semaphore).available() + count,
                *final(semaphore),
                added.1@,
            )
        },
{
    lemma_keys(*old(semaphore));
    if let Ok(added) = result {
        lemma_granted_in_turn(
            old(semaphore).holders(),
            old(semaphore).waiting(),
            old(semaphore).available() + count,
            *final(semaphore),
            added.1@,
        );
    }
}

/// [Semaphore::add_permits] does the same where the total does not overflow.
pub proof fn law_add_permits<P: Priority, Q: SemaphoreQueue<P>>(
    semaphore: &mut Semaphore<P, Q>,
    count: usize,
    added: (usize, Vec<Waker>),
)
    requires
        old(semaphore).wf(),
        old(semaphore).total() + count <= usize::MAX,
        call_ensures(Semaphore::<P, Q>::add_permits, (semaphore, count), added),
    ensures
        added.0 == final(semaphore).available(),
        final(semaphore).total() == old(semaphore).total() + count,
        granted_in_turn(
            old(semaphore).holders(),
            old(semaphore).waiting(),
            old(semaphore).available() + count,
            *final(semaphore),
            added.1@,
        ),
{
    lemma_keys(*old(semaphore));
    lemma_granted_in_turn(
        old(semaphore).holders(),
        old(semaphore).waiting(),
        old(semaphore).available() + count,
        *final(semaphore),
        added.1@,
    );
}

/// Whether `after` is `before` with a new holder under the key `key`, who has `count` of the permits
/// that were available.
pub open spec fn held_at_once<P: Priority, Q: SemaphoreQueue<P>>(
    before: Semaphore<P, Q>,
    after: Semaphore<P, Q>,
    priority: P,
    count: usize,
    within_total: bool,
    key: int,
) -> bool {
    &&& count <= before.available()
    &&& after.available() == before.available() - count
    &&& after.total() == before.total()
    &&& after.waiting() == before.waiting()
    &&& !before.holders().contains_key(key)
    &&& forall|k: int| #[trigger]
        after.holders().contains_key(k) <==> k == key || before.holders().contains_key(k)
    &&& forall|k: int| #[trigger]
        before.holders().contains_key(k) ==> after.holders()[k] == before.holders()[k]
    &&& ({
        let holder = after.holders()[key];
        &&& holder.priority == priority
        &&& holder.count == count
        &&& holder.within_total == within_total
        &&& holder.waiter.holds()
        &&& !holder.waiter.unwanted()
        &&& holder.waiter.waker is None
    })
    &&& forall|i: int|
        0 <= i < before.waiting().len() && !(
        #[trigger] before.waiting()[i]).data.waiter.unwanted() ==> {
            &&& priority.order(&before.waiting()[i].data.priority) >= 0
            &&& priority::newest_last::<P>() ==> priority.order(&before.waiting()[i].data.priority)
                > 0
        }
}

/// Whether `after` are those of `before` who wait, and one more, under the key `key` and for `count`
/// permits, behind whoever ranks above it and before whoever ranks below it.
pub open spec fn one_more_waits<P: Priority>(
    before: Seq<QueueEntry<SemaphoreWaiter<P>>>,
    after: Seq<QueueEntry<SemaphoreWaiter<P>>>,
    priority: P,
    count: usize,
    within_total: bool,
    key: int,
) -> bool {
    &&& after.len() == before.len() + 1
    &&& exists|k: int|
        {
            &&& 0 <= k < after.len()
            &&& (#[trigger] after[k]).key == key
            &&& after[k].data.priority == priority
            &&& after[k].data.count == count
            &&& after[k].data.within_total == within_total
            &&& !after[k].data.waiter.holds()
            &&& !after[k].data.waiter.unwanted()
            &&& after[k].data.waiter.waker is None
            &&& forall|i: int|
                0 <= i < k ==> {
                    &&& (#[trigger] after[i]) == before[i]
                    &&& after[i].data.priority.order(&priority) >= 0
                }
            &&& forall|i: int|
                k < i < after.len() ==> {
                    &&& (#[trigger] after[i]) == before[i - 1]
                    &&& priority.order(&after[i].data.priority) >= 0
                }
        }
}

/// Whether, in `after`, every holder of `before` who ranks below `priority` is asked to leave, with
/// all of their wakers, and no others, in `woken`. Nothing changes for the other holders.
pub open spec fn lower_warned<P: Priority, Q: SemaphoreQueue<P>>(
    before: Semaphore<P, Q>,
    after: Semaphore<P, Q>,
    priority: P,
    woken: Seq<Waker>,
) -> bool {
    &&& forall|k: int| #[trigger]
        after.holders().contains_key(k) <==> before.holders().contains_key(k)
    &&& forall|k: int| #[trigger]
        before.holders().contains_key(k) ==> {
            let holder = before.holders()[k];
            if priority.order(&holder.priority) > 0 {
                &&& now_asked(holder, after.holders()[k])
                &&& holder.waiter.waker is Some ==> woken.contains(holder.waiter.waker->0)
            } else {
                after.holders()[k] == holder
            }
        }
    &&& rung(
        before.entries(),
        Seq::new(
            before.entries().len(),
            |i: int|
                before.entries()[i].data.waiter.holds() && priority.order(
                    &before.entries()[i].data.priority,
                ) > 0,
        ),
        woken,
    )
}

/// Whether someone waits, and isn't turned away, who has to go before one with the priority
/// `priority`.
pub open spec fn held_up<P: Priority>(
    waiting: Seq<QueueEntry<SemaphoreWaiter<P>>>,
    priority: P,
) -> bool {
    exists|i: int|
        {
            &&& 0 <= i < waiting.len()
            &&& !(#[trigger] waiting[i]).data.waiter.unwanted()
            &&& waiting[i].data.priority.order(&priority) >= 0
            &&& !priority::newest_last::<P>() ==> waiting[i].data.priority.order(&priority) > 0
        }
}

/// Whether `after` is `before` with one more who waits, and every holder of lower priority asked to
/// leave. If there are enough permits, someone has to go before.
pub open spec fn queued<P: Priority, Q: SemaphoreQueue<P>>(
    before: Semaphore<P, Q>,
    after: Semaphore<P, Q>,
    priority: P,
    count: usize,
    within_total: bool,
    key: int,
    woken: Seq<Waker>,
) -> bool {
    &&& after.available() == before.available()
    &&& after.total() == before.total()
    &&& one_more_waits(before.waiting(), after.waiting(), priority, count, within_total, key)
    &&& lower_warned(before, after, priority, woken)
    &&& count <= before.available() && priority::regular::<P>() ==> held_up(
        before.waiting(),
        priority,
    )
}

/// Whether `after` and `attempt` are what comes of a request for `count` permits.
pub open spec fn answered<P: Priority, Q: SemaphoreQueue<P>>(
    before: Semaphore<P, Q>,
    after: Semaphore<P, Q>,
    priority: P,
    count: usize,
    within_total: bool,
    attempt: AcquireAttempt<P, Q>,
) -> bool {
    match attempt {
        AcquireAttempt::Acquired(permit) => held_at_once(
            before,
            after,
            priority,
            count,
            within_total,
            permit.key(),
        ),
        AcquireAttempt::Queued(pending, woken) => queued(
            before,
            after,
            priority,
            count,
            within_total,
            pending.key(),
            woken@,
        ),
    }
}

proof fn lemma_held_at_once<P: Priority, Q: SemaphoreQueue<P>>(
    before: Semaphore<P, Q>,
    after: Semaphore<P, Q>,
    priority: P,
    count: usize,
    within_total: bool,
    key: int,
    woken: Seq<Waker>,
)
    requires
        priority::lawful::<P>(),
        before.wf(),
        after.requested(&before, priority, count, within_total, key, true, woken),
    ensures
        held_at_once(before, after, priority, count, within_total, key),
{
    Waiter::law_fresh(true);
    semaphore::law_two_sides(before, key);
    assert forall|i: int|
        0 <= i < before.waiting().len() && !(
        #[trigger] before.waiting()[i]).data.waiter.unwanted() implies {
        &&& priority.order(&before.waiting()[i].data.priority) >= 0
        &&& priority::newest_last::<P>() ==> priority.order(&before.waiting()[i].data.priority) > 0
    } by {
        semaphore::law_no_overtaking(
            before,
            after,
            priority,
            count,
            within_total,
            key,
            woken,
            i,
        );
    }
}

proof fn lemma_one_more_waits<P: Priority, Q: SemaphoreQueue<P>>(
    before: Semaphore<P, Q>,
    after: Semaphore<P, Q>,
    priority: P,
    count: usize,
    within_total: bool,
    key: int,
)
    requires
        priority::lawful::<P>(),
        after.wf(),
        queue::enqueued(
            before.waiting(),
            after.waiting(),
            key,
            SemaphoreWaiter::fresh(priority, false, count, within_total),
        ),
    ensures
        one_more_waits(before.waiting(), after.waiting(), priority, count, within_total, key),
{
    let entry = SemaphoreWaiter::fresh(priority, false, count, within_total);
    let w = before.waiting();
    let waiting = after.waiting();
    entries::law_fresh(priority, false, count, within_total);
    let k = queue::lemma_place(w, waiting, key, entry);
    assert forall|i: int| 0 <= i < k implies {
        &&& (#[trigger] waiting[i]) == w[i]
        &&& waiting[i].data.priority.order(&priority) >= 0
    } by {
        semaphore::law_waiting_in_order(after, i, k);
    }
    assert forall|i: int| k < i < waiting.len() implies {
        &&& (#[trigger] waiting[i]) == w[i - 1]
        &&& priority.order(&waiting[i].data.priority) >= 0
    } by {
        semaphore::law_waiting_in_order(after, k, i);
    }
    assert(waiting[k].key == key);
}

proof fn lemma_lower_warned<P: Priority, Q: SemaphoreQueue<P>>(
    before: Semaphore<P, Q>,
    after: Semaphore<P, Q>,
    priority: P,
    evict: Seq<bool>,
    woken: Seq<Waker>,
)
    requires
        priority::lawful::<P>(),
        before.wf(),
        after.holders().dom() == before.holders().dom(),
        forall|k: int| #[trigger]
            before.holders().contains_key(k) ==> entries::asked_by(
                priority,
                before.holders()[k],
                after.holders()[k],
            ),
        entries::in_the_way(before.entries(), priority, evict),
        woken == entries::asked_wakers(before.entries(), evict),
    ensures
        lower_warned(before, after, priority, woken),
{
    let entries = before.entries();
    let which = Seq::new(
        entries.len(),
        |i: int|
            entries[i].data.waiter.holds() && priority.order(&entries[i].data.priority) > 0,
    );
    assert forall|i: int| 0 <= i < entries.len() implies evict[i] == which[i] by {
        priority::lemma_lawful_pair(priority, entries[i].data.priority);
    }
    assert(evict =~= which);
    law_asked_wakers(entries, evict);
    assert forall|h: int| #[trigger]
        after.holders().contains_key(h) <==> before.holders().contains_key(h) by {
        assert(after.holders().dom().contains(h) == before.holders().dom().contains(h));
    }
    assert forall|h: int| #[trigger] before.holders().contains_key(h) implies {
        let holder = before.holders()[h];
        if priority.order(&holder.priority) > 0 {
            &&& now_asked(holder, after.holders()[h])
            &&& holder.waiter.waker is Some ==> woken.contains(holder.waiter.waker->0)
        } else {
            after.holders()[h] == holder
        }
    } by {
        let holder = before.holders()[h];
        holder.waiter.lemma_flags();
        priority::lemma_lawful_pair(priority, holder.priority);
        semaphore::law_two_sides(before, h);
        let i = choose|i: int|
            {
                &&& 0 <= i < entries.len()
                &&& (#[trigger] entries[i]).key == h
                &&& entries[i].data == holder
            };
        if priority.order(&holder.priority) > 0 && holder.waiter.waker is Some {
            assert(entries[i].data.waiter.holds());
            lemma_rung_each(entries, which, woken, i);
        }
    }
}

proof fn lemma_queued<P: Priority, Q: SemaphoreQueue<P>>(
    before: Semaphore<P, Q>,
    after: Semaphore<P, Q>,
    priority: P,
    count: usize,
    within_total: bool,
    key: int,
    woken: Seq<Waker>,
)
    requires
        priority::lawful::<P>(),
        before.wf(),
        after.wf(),
        after.requested(&before, priority, count, within_total, key, false, woken),
    ensures
        queued(before, after, priority, count, within_total, key, woken),
{
    let entry = SemaphoreWaiter::fresh(priority, false, count, within_total);
    lemma_one_more_waits(before, after, priority, count, within_total, key);
    let evict = choose|evict: Seq<bool>|
        {
            &&& entries::in_the_way(before.entries(), priority, evict)
            &&& queue::enqueued(
                #[trigger] entries::asked(before.entries(), evict),
                after.entries(),
                key,
                entry,
            )
            &&& woken == entries::asked_wakers(before.entries(), evict)
        };
    lemma_lower_warned(before, after, priority, evict, woken);
    if count <= before.available() && priority::regular::<P>() {
        reveal(priority::plain);
        reveal(priority::newest_last);
        reveal(priority::newest_first);
        let w = before.waiting();
        let j = entries::lemma_first_in_line(w);
        priority::lemma_lawful_pair(priority, w[j].data.priority);
        assert(!w[j].data.waiter.unwanted());
    }
}

/// A request for permits is granted right away only if there are enough and nobody who waits, and
/// isn't turned away, ranks above it (or, with a priority like [FIFO](priority::FIFO), as high as
/// it). It then holds exactly what was asked for. Otherwise it waits for exactly that, behind
/// whoever ranks above it, and every holder of lower priority is asked to leave and woken.
pub proof fn law_acquire_many<P: Priority, Q: SemaphoreQueue<P>>(
    semaphore: &mut Semaphore<P, Q>,
    priority: P,
    count: usize,
    attempt: AcquireAttempt<P, Q>,
)
    requires
        priority::lawful::<P>(),
        old(semaphore).wf(),
        old(semaphore).entries().len() < MAX_ENTRIES,
        count < MAX_PERMITS,
        call_ensures(Semaphore::<P, Q>::acquire_many, (semaphore, priority, count), attempt),
    ensures
        answered(*old(semaphore), *final(semaphore), priority, count, false, attempt),
{
    lemma_answered(*old(semaphore), *final(semaphore), priority, count, false, attempt);
}

/// [Semaphore::acquire] asks for one permit in the same way.
pub proof fn law_acquire<P: Priority, Q: SemaphoreQueue<P>>(
    semaphore: &mut Semaphore<P, Q>,
    priority: P,
    attempt: AcquireAttempt<P, Q>,
)
    requires
        priority::lawful::<P>(),
        old(semaphore).wf(),
        old(semaphore).entries().len() < MAX_ENTRIES,
        call_ensures(Semaphore::<P, Q>::acquire, (semaphore, priority), attempt),
    ensures
        answered(*old(semaphore), *final(semaphore), priority, 1, false, attempt),
{
    lemma_answered(*old(semaphore), *final(semaphore), priority, 1, false, attempt);
}

/// [Semaphore::acquire_within_total] refuses a request, and changes nothing, exactly if it asks for
/// more permits than there are in all. Otherwise it asks for permits in the same way, to be turned
/// away should they get lost.
pub proof fn law_acquire_within_total<P: Priority, Q: SemaphoreQueue<P>>(
    semaphore: &mut Semaphore<P, Q>,
    priority: P,
    count: usize,
    result: Result<AcquireAttempt<P, Q>, InsufficientPermitsError>,
)
    requires
        priority::lawful::<P>(),
        old(semaphore).wf(),
        old(semaphore).entries().len() < MAX_ENTRIES,
        count < MAX_PERMITS,
        call_ensures(Semaphore::<P, Q>::acquire_within_total, (semaphore, priority, count), result),
    ensures
        result is Err <==> count > old(semaphore).total(),
        result matches Err(error) ==> {
            &&& error.known_total() == Some(old(semaphore).total() as usize)
            &&& error.wanted() == count
            &&& *final(semaphore) == *old(semaphore)
        },
        result matches Ok(attempt) ==> answered(
            *old(semaphore),
            *final(semaphore),
            priority,
            count,
            true,
            attempt,
        ),
{
    if let Ok(attempt) = result {
        lemma_answered(*old(semaphore), *final(semaphore), priority, count, true, attempt);
    }
}

proof fn lemma_answered<P: Priority, Q: SemaphoreQueue<P>>(
    before: Semaphore<P, Q>,
    after: Semaphore<P, Q>,
    priority: P,
    count: usize,
    within_total: bool,
    attempt: AcquireAttempt<P, Q>,
)
    requires
        priority::lawful::<P>(),
        before.wf(),
        after.wf(),
        after.attempted(&before, priority, count, within_total, attempt),
    ensures
        answered(before, after, priority, count, within_total, attempt),
{
    match attempt {
        AcquireAttempt::Acquired(permit) => {
            lemma_held_at_once(
                before,
                after,
                priority,
                count,
                within_total,
                permit.key(),
                Seq::empty(),
            );
        },
        AcquireAttempt::Queued(pending, woken) => {
            lemma_queued(
                before,
                after,
                priority,
                count,
                within_total,
                pending.key(),
                woken@,
            );
        },
    }
}

/// Whether `after` is `before` without the entry with the key `key`: what it held goes to those who
/// wait, in turn. If it waited, and was the first, those after it are no longer held up by it.
pub open spec fn gone<P: Priority, Q: SemaphoreQueue<P>>(
    before: Semaphore<P, Q>,
    after: Semaphore<P, Q>,
    key: int,
    woken: Seq<Waker>,
) -> bool {
    &&& after.total() == before.total()
    &&& before.holders().contains_key(key) ==> granted_in_turn(
        before.holders().remove(key),
        before.waiting(),
        before.available() + before.holders()[key].count,
        after,
        woken,
    )
    &&& forall|i: int|
        0 <= i < before.waiting().len() && (#[trigger] before.waiting()[i]).key == key ==> {
            if i == 0 && before.available() > 0 {
                granted_in_turn(
                    before.holders(),
                    before.waiting().remove(0),
                    before.available(),
                    after,
                    woken,
                )
            } else {
                &&& after.holders() == before.holders()
                &&& after.waiting() == before.waiting().remove(i)
                &&& after.available() == before.available()
                &&& woken.len() == 0
            }
        }
}

proof fn lemma_gone<P: Priority, Q: SemaphoreQueue<P>>(
    before: Semaphore<P, Q>,
    after: Semaphore<P, Q>,
    key: int,
    woken: Seq<Waker>,
)
    requires
        before.wf(),
        after.cancelled(&before, key, woken),
    ensures
        gone(before, after, key, woken),
{
    let waiting = before.waiting();
    lemma_keys(before);
    if before.holders().contains_key(key) {
        lemma_granted_in_turn(
            before.holders().remove(key),
            waiting,
            before.available() + before.holders()[key].count,
            after,
            woken,
        );
    }
    assert forall|i: int| 0 <= i < waiting.len() && (#[trigger] waiting[i]).key == key implies {
        if i == 0 && before.available() > 0 {
            granted_in_turn(
                before.holders(),
                waiting.remove(0),
                before.available(),
                after,
                woken,
            )
        } else {
            &&& after.holders() == before.holders()
            &&& after.waiting() == waiting.remove(i)
            &&& after.available() == before.available()
            &&& woken.len() == 0
        }
    } by {
        queue::lemma_position(waiting, i);
        if i == 0 && before.available() > 0 {
            let rest = waiting.remove(0);
            assert forall|a: int, b: int| 0 <= a < b < rest.len() implies (#[trigger] rest[a]).key
                != (#[trigger] rest[b]).key by {
                assert(rest[a] == waiting[a + 1] && rest[b] == waiting[b + 1]);
            }
            assert forall|a: int| 0 <= a < rest.len() implies !before.holders().contains_key(
                (#[trigger] rest[a]).key,
            ) by {
                assert(rest[a] == waiting[a + 1]);
            }
            lemma_granted_in_turn(before.holders(), rest, before.available(), after, woken);
        }
    }
}

/// One who gives up is gone. If it had been granted its permits, they go to those who wait, as if
/// released. If it was the first who waits, the others are no longer held up by it. Otherwise
/// nothing changes for them.
pub proof fn law_cancel<P: Priority, Q: SemaphoreQueue<P>>(
    semaphore: &mut Semaphore<P, Q>,
    pending: SemaphorePermitWaiter<P, Q>,
    woken: Vec<Waker>,
)
    requires
        old(semaphore).wf(),
        old(semaphore).awaited_by(&pending),
        call_ensures(Semaphore::<P, Q>::cancel, (semaphore, pending), woken),
    ensures
        gone(*old(semaphore), *final(semaphore), pending.key(), woken@),
{
    lemma_gone(*old(semaphore), *final(semaphore), pending.key(), woken@);
}

/// Whether `after` is `before`, but for the entry with the key `key` being watched by `waker`.
pub open spec fn only_watched<P: Priority, Q: SemaphoreQueue<P>>(
    before: Semaphore<P, Q>,
    after: Semaphore<P, Q>,
    key: int,
    waker: Option<Waker>,
) -> bool {
    &&& after.total() == before.total()
    &&& after.available() == before.available()
    &&& forall|k: int| #[trigger]
        after.holders().contains_key(k) <==> before.holders().contains_key(k)
    &&& forall|k: int| #[trigger]
        before.holders().contains_key(k) ==> if k == key {
            now_watched(before.holders()[k], after.holders()[k], waker)
        } else {
            after.holders()[k] == before.holders()[k]
        }
    &&& after.waiting().len() == before.waiting().len()
    &&& forall|i: int|
        0 <= i < before.waiting().len() ==> if before.waiting()[i].key == key {
            &&& (#[trigger] after.waiting()[i]).key == key
            &&& now_watched(before.waiting()[i].data, after.waiting()[i].data, waker)
        } else {
            after.waiting()[i] == before.waiting()[i]
        }
}

proof fn lemma_only_watched<P: Priority, Q: SemaphoreQueue<P>>(
    before: Semaphore<P, Q>,
    after: Semaphore<P, Q>,
    key: int,
    waker: Option<Waker>,
)
    requires
        before.wf(),
        queue::has_key(before.entries(), key),
        after.rewatched(&before, key, waker),
    ensures
        only_watched(before, after, key, waker),
{
    let waiting = before.waiting();
    lemma_keys(before);
    semaphore::law_two_sides(before, key);
    if !before.holders().contains_key(key) {
        let turn = queue::position(waiting, key);
        assert(waiting[turn].key == key);
    }
}

/// One who waits gets its permits exactly if they were granted. Otherwise its waker is kept. Nothing
/// else changes.
pub proof fn law_poll_acquire<P: Priority, Q: SemaphoreQueue<P>>(
    semaphore: &mut Semaphore<P, Q>,
    pending: SemaphorePermitWaiter<P, Q>,
    waker: Waker,
    result: Result<SemaphorePermit<P, Q>, SemaphorePermitWaiter<P, Q>>,
)
    requires
        old(semaphore).wf(),
        old(semaphore).awaited_by(&pending),
        call_ensures(Semaphore::<P, Q>::poll_acquire, (semaphore, pending, waker), result),
    ensures
        result is Ok <==> old(semaphore).holders().contains_key(pending.key()),
        result matches Ok(permit) ==> permit.key() == pending.key(),
        result matches Err(still) ==> still.key() == pending.key(),
        only_watched(
            *old(semaphore),
            *final(semaphore),
            pending.key(),
            if result is Ok {
                None
            } else {
                Some(waker)
            },
        ),
{
    lemma_only_watched(
        *old(semaphore),
        *final(semaphore),
        pending.key(),
        if result is Ok {
            None
        } else {
            Some(waker)
        },
    );
}

/// One who waits within the total gets its permits exactly if they were granted, and is refused, and
/// gone, exactly if it was turned away. The error says how many permits it asked for. Otherwise its
/// waker is kept.
pub proof fn law_poll_within_total<P: Priority, Q: SemaphoreQueue<P>>(
    semaphore: &mut Semaphore<P, Q>,
    pending: SemaphorePermitWaiter<P, Q>,
    waker: Waker,
    result: WithinTotal<P, Q>,
    i: int,
)
    requires
        old(semaphore).wf(),
        old(semaphore).awaited_by(&pending),
        call_ensures(Semaphore::<P, Q>::poll_within_total, (semaphore, pending, waker), result),
        !old(semaphore).holders().contains_key(pending.key()) ==> {
            &&& 0 <= i < old(semaphore).waiting().len()
            &&& old(semaphore).waiting()[i].key == pending.key()
        },
    ensures
        result is Acquired <==> old(semaphore).holders().contains_key(pending.key()),
        result matches WithinTotal::Acquired(permit) ==> {
            &&& permit.key() == pending.key()
            &&& only_watched(*old(semaphore), *final(semaphore), pending.key(), None)
        },
        result matches WithinTotal::Waiting(still) ==> {
            &&& !old(semaphore).waiting()[i].data.waiter.unwanted()
            &&& still.key() == pending.key()
            &&& only_watched(*old(semaphore), *final(semaphore), pending.key(), Some(waker))
        },
        result matches WithinTotal::Refused(error, woken) ==> {
            &&& old(semaphore).waiting()[i].data.waiter.unwanted()
            &&& old(semaphore).waiting()[i].data.within_total
            &&& error.known_total() is None
            &&& error.wanted() == old(semaphore).waiting()[i].data.count
            &&& gone(*old(semaphore), *final(semaphore), pending.key(), woken@)
        },
{
    let before = *old(semaphore);
    let key = pending.key();
    lemma_keys(before);
    semaphore::law_two_sides(before, key);
    if !before.holders().contains_key(key) {
        semaphore::law_entry(before, key);
        queue::lemma_position(before.waiting(), i);
    }
    match result {
        WithinTotal::Acquired(_) => {
            lemma_only_watched(before, *final(semaphore), key, None);
        },
        WithinTotal::Waiting(_) => {
            lemma_only_watched(before, *final(semaphore), key, Some(waker));
        },
        WithinTotal::Refused(_, woken) => {
            semaphore::law_turned_away_on_request(before, i);
            lemma_gone(before, *final(semaphore), key, woken@);
        },
    }
}

/// A holder learns exactly whether it is asked to leave. If it isn't, its waker is kept. Nothing
/// else changes.
pub proof fn law_evicted<P: Priority, Q: SemaphoreQueue<P>>(
    permit: &SemaphorePermit<P, Q>,
    semaphore: &mut Semaphore<P, Q>,
    waker: Waker,
    evicted: bool,
)
    requires
        old(semaphore).wf(),
        old(semaphore).held_by(permit),
        call_ensures(SemaphorePermit::<P, Q>::evicted, (permit, semaphore, waker), evicted),
    ensures
        evicted == old(semaphore).holders()[permit.key()].waiter.unwanted(),
        only_watched(
            *old(semaphore),
            *final(semaphore),
            permit.key(),
            if evicted {
                None
            } else {
                Some(waker)
            },
        ),
{
    semaphore::law_two_sides(*old(semaphore), permit.key());
    lemma_only_watched(
        *old(semaphore),
        *final(semaphore),
        permit.key(),
        if evicted {
            None
        } else {
            Some(waker)
        },
    );
}

/// A holder who no longer waits to be asked to leave loses its waker, and nothing else changes.
pub proof fn law_ignore_evicted<P: Priority, Q: SemaphoreQueue<P>>(
    permit: &SemaphorePermit<P, Q>,
    semaphore: &mut Semaphore<P, Q>,
)
    requires
        old(semaphore).wf(),
        old(semaphore).held_by(permit),
        call_ensures(SemaphorePermit::<P, Q>::ignore_evicted, (permit, semaphore), ()),
    ensures
        only_watched(*old(semaphore), *final(semaphore), permit.key(), None),
{
    semaphore::law_two_sides(*old(semaphore), permit.key());
    lemma_only_watched(*old(semaphore), *final(semaphore), permit.key(), None);
}

/// Whether `after` are those of `before` who wait, of whom exactly those are turned away that were
/// already, or that wait for more than `total` permits and want to be told so. The wakers of the
/// latter, and no others, are in `woken`. Nothing else changes.
pub open spec fn only_oversized_turned_away<P: Priority>(
    before: Seq<QueueEntry<SemaphoreWaiter<P>>>,
    after: Seq<QueueEntry<SemaphoreWaiter<P>>>,
    total: int,
    woken: Seq<Waker>,
) -> bool {
    &&& after.len() == before.len()
    &&& forall|i: int|
        0 <= i < before.len() ==> {
            let was = before[i];
            let now = #[trigger] after[i];
            &&& now.key == was.key
            &&& now.data.waiter.unwanted() ==> was.data.waiter.unwanted() || was.data.count > total
            &&& if was.data.within_total && was.data.count > total {
                &&& now_asked(was.data, now.data)
                &&& was.data.waiter.waker is Some ==> woken.contains(was.data.waiter.waker->0)
            } else {
                now == was
            }
        }
    &&& rung(
        before,
        Seq::new(
            before.len(),
            |i: int| before[i].data.within_total && before[i].data.count > total,
        ),
        woken,
    )
}

proof fn lemma_oversized<P: Priority, Q: SemaphoreQueue<P>>(
    before: Semaphore<P, Q>,
    after: Semaphore<P, Q>,
    woken: Seq<Waker>,
)
    requires
        after.reduced(&before, woken),
    ensures
        only_oversized_turned_away(before.waiting(), after.waiting(), after.total(), woken),
{
    let waiting = before.waiting();
    let total = after.total();
    let which = Seq::new(
        waiting.len(),
        |i: int| waiting[i].data.within_total && waiting[i].data.count > total,
    );
    let evict = entries::oversized(waiting, 0, total);
    assert forall|i: int| 0 <= i < waiting.len() implies evict[i] == which[i] by {}
    assert(evict =~= which);
    law_asked_wakers(waiting, evict);
    assert forall|i: int| 0 <= i < waiting.len() implies {
        let was = waiting[i];
        let now = #[trigger] after.waiting()[i];
        &&& now.key == was.key
        &&& now.data.waiter.unwanted() ==> was.data.waiter.unwanted() || was.data.count > total
        &&& if was.data.within_total && was.data.count > total {
            &&& now_asked(was.data, now.data)
            &&& was.data.waiter.waker is Some ==> woken.contains(was.data.waiter.waker->0)
        } else {
            now == was
        }
    } by {
        waiting[i].data.waiter.lemma_flags();
        if which[i] && waiting[i].data.waiter.waker is Some {
            lemma_rung_each(waiting, which, woken, i);
        }
    }
}

/// Forgetting takes away as many permits as asked for, or all that are available. Of those who wait,
/// only those are turned away, and woken, who ask for more than are left in all and want to be told
/// so.
pub proof fn law_forget_permits<P: Priority, Q: SemaphoreQueue<P>>(
    semaphore: &mut Semaphore<P, Q>,
    count: usize,
    forgotten: (usize, Vec<Waker>),
)
    requires
        old(semaphore).wf(),
        call_ensures(Semaphore::<P, Q>::forget_permits, (semaphore, count), forgotten),
    ensures
        forgotten.0 <= count,
        forgotten.0 <= old(semaphore).available(),
        forgotten.0 == count || forgotten.0 == old(semaphore).available(),
        final(semaphore).total() == old(semaphore).total() - forgotten.0,
        final(semaphore).available() == old(semaphore).available() - forgotten.0,
        final(semaphore).holders() == old(semaphore).holders(),
        forgotten.0 == 0 ==> final(semaphore).waiting() == old(semaphore).waiting()
            && forgotten.1@.len() == 0,
        forgotten.0 > 0 ==> only_oversized_turned_away(
            old(semaphore).waiting(),
            final(semaphore).waiting(),
            final(semaphore).total(),
            forgotten.1@,
        ),
{
    if forgotten.0 > 0 {
        lemma_oversized(*old(semaphore), *final(semaphore), forgotten.1@);
    }
}

/// Forgetting held permits takes them away with their holder, and turns away, and wakes, exactly
/// those who ask for more than are left in all and want to be told so.
pub proof fn law_forget<P: Priority, Q: SemaphoreQueue<P>>(
    permit: SemaphorePermit<P, Q>,
    semaphore: &mut Semaphore<P, Q>,
    woken: Vec<Waker>,
)
    requires
        old(semaphore).wf(),
        old(semaphore).held_by(&permit),
        call_ensures(SemaphorePermit::<P, Q>::forget, (permit, semaphore), woken),
    ensures
        final(semaphore).total() == old(semaphore).total() - old(semaphore).holders()[permit.key()].count,
        final(semaphore).available() == old(semaphore).available(),
        final(semaphore).holders() == old(semaphore).holders().remove(permit.key()),
        only_oversized_turned_away(
            old(semaphore).waiting(),
            final(semaphore).waiting(),
            final(semaphore).total(),
            woken@,
        ),
{
    lemma_oversized(*old(semaphore), *final(semaphore), woken@);
}

/// Splitting off permits moves exactly as many of them to a new holder with the given priority, who
/// is asked to leave exactly if someone who waits, and isn't turned away, ranks above it. It is
/// refused, and changes nothing, exactly if none would be left.
pub proof fn law_split_with_priority<P: Priority, Q: SemaphoreQueue<P>>(
    permit: &SemaphorePermit<P, Q>,
    semaphore: &mut Semaphore<P, Q>,
    count: usize,
    priority: P,
    result: Result<SemaphorePermit<P, Q>, InsufficientPermitsError>,
)
    requires
        priority::lawful::<P>(),
        old(semaphore).wf(),
        old(semaphore).held_by(permit),
        old(semaphore).entries().len() < MAX_ENTRIES,
        count > 0,
        call_ensures(
            SemaphorePermit::<P, Q>::split_with_priority,
            (permit, semaphore, count, priority),
            result,
        ),
    ensures
        result is Ok <==> count < old(semaphore).holders()[permit.key()].count,
        result matches Err(error) ==> {
            &&& error.known_total() == Some(old(semaphore).holders()[permit.key()].count)
            &&& error.wanted() == count
            &&& *final(semaphore) == *old(semaphore)
        },
        result matches Ok(other) ==> {
            &&& split_in_two(*old(semaphore), *final(semaphore), permit.key(), other.key(), count)
            &&& final(semaphore).holders()[other.key()].priority == priority
            &&& final(semaphore).holders()[other.key()].waiter.unwanted() <==> exists|i: int|
                {
                    &&& 0 <= i < old(semaphore).waiting().len()
                    &&& !(#[trigger] old(semaphore).waiting()[i]).data.waiter.unwanted()
                    &&& old(semaphore).waiting()[i].data.priority.order(&priority) > 0
                }
        },
{
    if let Ok(other) = result {
        lemma_split_in_two(
            *old(semaphore),
            *final(semaphore),
            *permit,
            other,
            count,
            priority,
            false,
        );
        let waiting = old(semaphore).waiting();
        assert forall|i: int| 0 <= i < waiting.len() implies (
        #[trigger] waiting[i]).data.priority.comparable(&priority) by {
            priority::lemma_lawful_pair(waiting[i].data.priority, priority);
        }
    }
}

/// Whether `after` is `before`, but for `count` of the permits of the holder with the key `own`,
/// which are those of a new holder with the key `new` instead.
pub open spec fn split_in_two<P: Priority, Q: SemaphoreQueue<P>>(
    before: Semaphore<P, Q>,
    after: Semaphore<P, Q>,
    own: int,
    new: int,
    count: usize,
) -> bool {
    &&& after.total() == before.total()
    &&& after.available() == before.available()
    &&& after.waiting() == before.waiting()
    &&& new != own
    &&& !before.holders().contains_key(new)
    &&& forall|k: int| #[trigger]
        after.holders().contains_key(k) <==> k == new || before.holders().contains_key(k)
    &&& forall|k: int| #[trigger]
        before.holders().contains_key(k) && k != own ==> after.holders()[k] == before.holders()[k]
    &&& after.holders()[own].priority == before.holders()[own].priority
    &&& after.holders()[own].waiter == before.holders()[own].waiter
    &&& after.holders()[own].within_total == before.holders()[own].within_total
    &&& after.holders()[own].count + count == before.holders()[own].count
    &&& after.holders()[new].count == count
    &&& after.holders()[new].waiter.holds()
    &&& after.holders()[new].waiter.waker is None
}

proof fn lemma_split_in_two<P: Priority, Q: SemaphoreQueue<P>>(
    before: Semaphore<P, Q>,
    after: Semaphore<P, Q>,
    permit: SemaphorePermit<P, Q>,
    other: SemaphorePermit<P, Q>,
    count: usize,
    priority: P,
    inherited: bool,
)
    requires
        before.wf(),
        before.held_by(&permit),
        after.split_off(&before, &permit, count, priority, inherited, Ok(other)),
    ensures
        split_in_two(before, after, permit.key(), other.key(), count),
        after.holders()[other.key()].priority == priority,
{
    Waiter::law_fresh(true);
    Waiter::fresh(true).lemma_flags();
    semaphore::law_two_sides(before, other.key());
}

/// Splitting off permits moves exactly as many of them to a new holder with a copy of the priority,
/// who is asked to leave if the one that it came from is. It is refused, and changes nothing,
/// exactly if none would be left.
pub proof fn law_split<P: Priority + Clone, Q: SemaphoreQueue<P>>(
    permit: &SemaphorePermit<P, Q>,
    semaphore: &mut Semaphore<P, Q>,
    count: usize,
    result: Result<SemaphorePermit<P, Q>, InsufficientPermitsError>,
)
    requires
        old(semaphore).wf(),
        old(semaphore).held_by(permit),
        old(semaphore).entries().len() < MAX_ENTRIES,
        count > 0,
        call_ensures(SemaphorePermit::<P, Q>::split, (permit, semaphore, count), result),
    ensures
        result is Ok <==> count < old(semaphore).holders()[permit.key()].count,
        result matches Err(error) ==> {
            &&& error.known_total() == Some(old(semaphore).holders()[permit.key()].count)
            &&& error.wanted() == count
            &&& *final(semaphore) == *old(semaphore)
        },
        result matches Ok(other) ==> {
            &&& split_in_two(*old(semaphore), *final(semaphore), permit.key(), other.key(), count)
            &&& call_ensures(
                P::clone,
                (&old(semaphore).holders()[permit.key()].priority,),
                final(semaphore).holders()[other.key()].priority,
            )
            &&& old(semaphore).holders()[permit.key()].waiter.unwanted() ==> final(semaphore).holders()[other.key()].waiter.unwanted()
        },
{
    let before = *old(semaphore);
    let own = before.holders()[permit.key()];
    let priority = choose|priority: P|
        {
            &&& #[trigger] call_ensures(P::clone, (&own.priority,), priority)
            &&& final(semaphore).split_off(
                &before,
                permit,
                count,
                priority,
                own.waiter.unwanted(),
                result,
            )
        };
    if let Ok(other) = result {
        lemma_split_in_two(
            before,
            *final(semaphore),
            *permit,
            other,
            count,
            priority,
            own.waiter.unwanted(),
        );
    }
}

/// Merging adds the permits of one holder to those of another. Nothing else changes.
pub proof fn law_merge<P: Priority, Q: SemaphoreQueue<P>>(
    permit: &SemaphorePermit<P, Q>,
    semaphore: &mut Semaphore<P, Q>,
    other: SemaphorePermit<P, Q>,
)
    requires
        old(semaphore).wf(),
        old(semaphore).held_by(permit),
        old(semaphore).held_by(&other),
        permit.key() != other.key(),
        old(semaphore).holders()[permit.key()].count + old(semaphore).holders()[other.key()].count <= MAX_PERMITS,
        call_ensures(SemaphorePermit::<P, Q>::merge, (permit, semaphore, other), ()),
    ensures
        final(semaphore).total() == old(semaphore).total(),
        final(semaphore).available() == old(semaphore).available(),
        final(semaphore).waiting() == old(semaphore).waiting(),
        forall|k: int| #[trigger]
            final(semaphore).holders().contains_key(k) <==> k != other.key() && old(semaphore).holders().contains_key(k),
        forall|k: int| #[trigger]
            final(semaphore).holders().contains_key(k) && k != permit.key() ==> final(semaphore).holders()[k] == old(semaphore).holders()[k],
        ({
            let was = old(semaphore).holders()[permit.key()];
            let now = final(semaphore).holders()[permit.key()];
            &&& now.priority == was.priority
            &&& now.waiter == was.waiter
            &&& now.within_total == was.within_total
            &&& now.count == was.count + old(semaphore).holders()[other.key()].count
        }),
{
}

} // verus!
