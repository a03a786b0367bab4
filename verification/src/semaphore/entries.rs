//! Contains [SemaphoreWaiter], the entry type of a semaphore's queue, and what its entries amount
//! to: who holds permits, who waits for them, and whose turn it is.
use crate::priority;
use crate::priority::Priority;
use crate::queue;
use crate::queue::QueueEntry;
use crate::waiter::Waiter;
use core::cmp::Ordering;
use core::task::Waker;
use vstd::prelude::*;

verus! {

/// The entry type that [Semaphore](crate::semaphore::Semaphore) keeps in its queue.
#[derive(Debug)]
pub struct SemaphoreWaiter<P: Priority> {
    pub priority: P,
    pub waiter: Waiter,
    /// The permits that are held or waited for.
    pub count: usize,
    /// Whether the waiter is to be turned away once the semaphore has fewer permits in all than it
    /// waits for.
    pub within_total: bool,
}

impl<P: Priority> SemaphoreWaiter<P> {
    /// An entry that nobody watches yet.
    pub open spec fn fresh(priority: P, has_lock: bool, count: usize, within_total: bool) -> Self {
        SemaphoreWaiter { priority, waiter: Waiter::fresh(has_lock), count, within_total }
    }

    /// The entry once it is granted its permits.
    pub open spec fn started(self) -> Self {
        SemaphoreWaiter { waiter: self.waiter.started(), ..self }
    }

    /// The entry once it is asked to leave.
    pub open spec fn evicted(self) -> Self {
        SemaphoreWaiter { waiter: self.waiter.evicted(), ..self }
    }

    /// The entry with another waker.
    pub open spec fn watched(self, waker: Option<Waker>) -> Self {
        SemaphoreWaiter { waiter: Waiter { flags: self.waiter.flags, waker }, ..self }
    }

    /// The entry with another count of permits.
    pub open spec fn with_count(self, count: usize) -> Self {
        SemaphoreWaiter { count, ..self }
    }

    /// Which of two waiters of the same priority goes first: the one that asks for fewer permits.
    pub open spec fn order_by_count(&self, old: &Self) -> int {
        if self.count < old.count {
            1
        } else if self.count == old.count {
            0
        } else {
            -1
        }
    }

    pub(crate) fn new(priority: P, has_lock: bool, count: usize, within_total: bool) -> (entry: Self)
        ensures
            entry == Self::fresh(priority, has_lock, count, within_total),
            entry.waiter.holds() == has_lock,
            !entry.waiter.unwanted(),
    {
        Self { priority, waiter: Waiter::new(has_lock), count, within_total }
    }

    /// The permits that are held or waited for.
    pub fn count(&self) -> (count: usize)
        ensures
            count == self.count,
    {
        self.count
    }

    /// The permits that are held or waited for, and whether the waiter is to be turned away once
    /// there are fewer in all.
    pub fn count_and_flag(&self) -> (both: (usize, bool))
        ensures
            both == (self.count, self.within_total),
    {
        (self.count, self.within_total)
    }
}

/// Has the same priority as `P`, except that entries which hold permits always have higher priority
/// than those which wait.
///
/// Additionally, a new waiter is placed so that among those of the same priority the lowest count
/// comes first, to minimize waiting (this applies after the inner priority has compared, so
/// [FIFO](priority::FIFO) and [LIFO](priority::LIFO) prevent it).
impl<P: Priority> Priority for SemaphoreWaiter<P> {
    open spec fn comparable(&self, other: &Self) -> bool {
        self.waiter.holds() != other.waiter.holds() || self.priority.comparable(&other.priority)
    }

    open spec fn order(&self, other: &Self) -> int {
        if self.waiter.holds() && !other.waiter.holds() {
            1
        } else if !self.waiter.holds() && other.waiter.holds() {
            -1
        } else {
            self.priority.order(&other.priority)
        }
    }

    open spec fn order_new(&self, old: &Self) -> int {
        if self.waiter.holds() && !old.waiter.holds() {
            1
        } else if !self.waiter.holds() && old.waiter.holds() {
            -1
        } else if !self.waiter.holds() && self.priority.order_new(&old.priority) == 0 {
            self.order_by_count(old)
        } else {
            self.priority.order_new(&old.priority)
        }
    }

    fn compare(&self, other: &Self) -> (outcome: Ordering) {
        match (self.waiter.has_lock(), other.waiter.has_lock()) {
            (true, false) => Ordering::Greater,
            (false, true) => Ordering::Less,
            // The count is of no interest here: it doesn't change while an entry waits, and once
            // it holds permits its count doesn't matter.
            _ => self.priority.compare(&other.priority),
        }
    }

    fn compare_new(&self, old: &Self) -> (outcome: Ordering) {
        match (self.waiter.has_lock(), old.waiter.has_lock()) {
            (true, false) => Ordering::Greater,
            (false, true) => Ordering::Less,
            (is_held, _) => {
                let outcome = self.priority.compare_new(&old.priority);
                match outcome {
                    Ordering::Equal => {
                        if is_held {
                            Ordering::Equal
                        } else if self.count() < old.count() {
                            Ordering::Greater
                        } else if self.count() == old.count() {
                            Ordering::Equal
                        } else {
                            Ordering::Less
                        }
                    },
                    _ => outcome,
                }
            },
        }
    }
}

/// Ranking holders above waiters keeps a priority lawful, and the place of a new entry among those
/// of the same priority where it was.
pub proof fn law_semaphore_waiter<P: Priority>()
    requires
        priority::lawful::<P>(),
    ensures
        priority::lawful::<SemaphoreWaiter<P>>(),
        priority::newest_last::<P>() ==> priority::newest_last::<SemaphoreWaiter<P>>(),
        priority::newest_first::<P>() ==> priority::newest_first::<SemaphoreWaiter<P>>(),
{
    reveal(priority::lawful);
    reveal(priority::newest_last);
    reveal(priority::newest_first);
    assert forall|a: SemaphoreWaiter<P>, b: SemaphoreWaiter<P>, c: SemaphoreWaiter<P>|
        #[trigger] a.order(&b) >= 0 && #[trigger] b.order(&c) >= 0 implies a.order(&c) >= 0 by {
        if a.waiter.holds() == b.waiter.holds() && b.waiter.holds() == c.waiter.holds() {
            priority::lemma_lawful_chain(a.priority, b.priority, c.priority);
        }
    }
}

/// A new entry asks for exactly what was requested, with the priority that it was requested with.
pub proof fn law_fresh<P: Priority>(priority: P, has_lock: bool, count: usize, within_total: bool)
    ensures
        ({
            let entry = SemaphoreWaiter::fresh(priority, has_lock, count, within_total);
            &&& entry.priority == priority
            &&& entry.count == count
            &&& entry.within_total == within_total
            &&& entry.waiter.holds() == has_lock
            &&& !entry.waiter.unwanted()
            &&& entry.waiter.waker is None
        }),
{
    Waiter::law_fresh(has_lock);
}

/// What becomes of an entry changes neither its priority nor what it asked for, except that its
/// count can be changed.
pub proof fn law_entry_keeps<P: Priority>(
    entry: SemaphoreWaiter<P>,
    waker: Option<Waker>,
    count: usize,
)
    ensures
        entry.started().priority == entry.priority,
        entry.started().count == entry.count,
        entry.started().within_total == entry.within_total,
        entry.started().waiter.holds() && !entry.started().waiter.unwanted(),
        entry.started().waiter.waker is None,
        entry.evicted().priority == entry.priority,
        entry.evicted().count == entry.count,
        entry.evicted().within_total == entry.within_total,
        entry.evicted().waiter.holds() == entry.waiter.holds(),
        entry.evicted().waiter.unwanted(),
        entry.evicted().waiter.waker is None,
        entry.watched(waker).priority == entry.priority,
        entry.watched(waker).count == entry.count,
        entry.watched(waker).within_total == entry.within_total,
        entry.watched(waker).waiter.flags == entry.waiter.flags,
        entry.watched(waker).waiter.waker == waker,
        entry.with_count(count).priority == entry.priority,
        entry.with_count(count).count == count,
        entry.with_count(count).within_total == entry.within_total,
        entry.with_count(count).waiter == entry.waiter,
{
    entry.waiter.lemma_flags();
}

/// Whether the first `h` entries hold permits, and no other.
pub open spec fn split_at<P: Priority>(
    entries: Seq<QueueEntry<SemaphoreWaiter<P>>>,
    h: int,
) -> bool {
    &&& 0 <= h <= entries.len()
    &&& forall|i: int|
        0 <= i < entries.len() ==> ((#[trigger] entries[i]).data.waiter.holds() <==> i < h)
}

/// How many entries hold permits, where these come first.
pub open spec fn held_len<P: Priority>(entries: Seq<QueueEntry<SemaphoreWaiter<P>>>) -> int {
    choose|h: int| split_at(entries, h)
}

/// Those who wait, in the order of their turns.
pub open spec fn waiting<P: Priority>(entries: Seq<QueueEntry<SemaphoreWaiter<P>>>) -> Seq<
    QueueEntry<SemaphoreWaiter<P>>,
> {
    entries.skip(held_len(entries))
}

/// Those who hold permits, by their keys.
pub open spec fn holders<P: Priority>(entries: Seq<QueueEntry<SemaphoreWaiter<P>>>) -> Map<
    int,
    SemaphoreWaiter<P>,
> {
    Map::new(
        |key: int|
            queue::has_key(entries, key) && entries[queue::position(
                entries,
                key,
            )].data.waiter.holds(),
        |key: int| entries[queue::position(entries, key)].data,
    )
}

/// The permits that an entry holds.
pub open spec fn held_count<P: Priority>(data: SemaphoreWaiter<P>) -> int {
    if data.waiter.holds() {
        data.count as int
    } else {
        0
    }
}

/// The permits that are held in all.
pub open spec fn issued<P: Priority>(entries: Seq<QueueEntry<SemaphoreWaiter<P>>>) -> int
    decreases entries.len(),
{
    if entries.len() == 0 {
        0
    } else {
        issued(entries.drop_last()) + held_count(entries.last().data)
    }
}

/// Whether, of two who wait with the same priority, the one that asks for fewer permits comes
/// first.
pub open spec fn by_count<P: Priority>(entries: Seq<QueueEntry<SemaphoreWaiter<P>>>) -> bool {
    forall|i: int, j: int|
        {
            &&& 0 <= i < j < entries.len()
            &&& !(#[trigger] entries[i]).data.waiter.holds()
            &&& !(#[trigger] entries[j]).data.waiter.holds()
            &&& entries[i].data.priority.order(&entries[j].data.priority) == 0
        } ==> entries[i].data.count <= entries[j].data.count
}

/// Whether the entries stand in order of priority, and those of the same priority, where it says
/// nothing of new ones, by count.
pub open spec fn in_order<P: Priority>(entries: Seq<QueueEntry<SemaphoreWaiter<P>>>) -> bool {
    priority::lawful::<P>() ==> {
        &&& queue::sorted(entries)
        &&& priority::plain::<P>() ==> by_count(entries)
    }
}

/// Whether entries differ in nothing that their order rests on.
pub open spec fn same_ranks<P: Priority>(
    before: Seq<QueueEntry<SemaphoreWaiter<P>>>,
    after: Seq<QueueEntry<SemaphoreWaiter<P>>>,
) -> bool {
    &&& before.len() == after.len()
    &&& forall|i: int|
        0 <= i < before.len() ==> {
            &&& (#[trigger] after[i]).key == before[i].key
            &&& after[i].data.priority == before[i].data.priority
            &&& after[i].data.waiter.holds() == before[i].data.waiter.holds()
            &&& after[i].data.waiter.holds() || after[i].data.count == before[i].data.count
        }
}

/// What comes of serving those who wait.
pub struct Service<P: Priority> {
    /// Those who are granted their permits.
    pub granted: Seq<QueueEntry<SemaphoreWaiter<P>>>,
    /// Those who go on waiting.
    pub waiting: Seq<QueueEntry<SemaphoreWaiter<P>>>,
    /// The permits that are left.
    pub available: int,
}

/// Serves those who wait, in the order in which they stand, out of `available` permits. The first
/// for whom there aren't enough ends it, so that nobody overtakes another, unless that one is turned
/// away anyhow.
pub open spec fn serve<P: Priority>(
    waiting: Seq<QueueEntry<SemaphoreWaiter<P>>>,
    available: int,
) -> Service<P>
    decreases waiting.len(),
{
    if waiting.len() == 0 {
        Service { granted: Seq::empty(), waiting, available }
    } else if waiting[0].data.count <= available {
        let rest = serve(waiting.skip(1), available - waiting[0].data.count);
        Service { granted: seq![waiting[0]] + rest.granted, ..rest }
    } else if waiting[0].data.waiter.unwanted() {
        let rest = serve(waiting.skip(1), available);
        Service { waiting: seq![waiting[0]] + rest.waiting, ..rest }
    } else {
        Service { granted: Seq::empty(), waiting, available }
    }
}

/// The holders, once those in `granted` were granted their permits.
pub open spec fn with_granted<P: Priority>(
    holders: Map<int, SemaphoreWaiter<P>>,
    granted: Seq<QueueEntry<SemaphoreWaiter<P>>>,
) -> Map<int, SemaphoreWaiter<P>>
    decreases granted.len(),
{
    if granted.len() == 0 {
        holders
    } else {
        with_granted(holders, granted.drop_last()).insert(
            granted.last().key,
            granted.last().data.started(),
        )
    }
}

/// The wakers of those who are watched.
pub open spec fn wakers<P: Priority>(entries: Seq<QueueEntry<SemaphoreWaiter<P>>>) -> Seq<Waker>
    decreases entries.len(),
{
    if entries.len() == 0 {
        Seq::empty()
    } else {
        match entries.last().data.waiter.waker {
            Some(waker) => wakers(entries.drop_last()).push(waker),
            None => wakers(entries.drop_last()),
        }
    }
}

/// The entries, where each one is asked to leave for which `evict` says so.
pub open spec fn asked<P: Priority>(
    entries: Seq<QueueEntry<SemaphoreWaiter<P>>>,
    evict: Seq<bool>,
) -> Seq<QueueEntry<SemaphoreWaiter<P>>> {
    Seq::new(
        entries.len(),
        |i: int|
            if evict[i] {
                QueueEntry { key: entries[i].key, data: entries[i].data.evicted() }
            } else {
                entries[i]
            },
    )
}

/// The wakers of those who are asked to leave.
pub open spec fn asked_wakers<P: Priority>(
    entries: Seq<QueueEntry<SemaphoreWaiter<P>>>,
    evict: Seq<bool>,
) -> Seq<Waker>
    decreases entries.len(),
{
    if entries.len() == 0 {
        Seq::empty()
    } else {
        let rest = asked_wakers(entries.drop_last(), evict);
        match entries.last().data.waiter.waker {
            Some(waker) if evict[entries.len() - 1] => rest.push(waker),
            _ => rest,
        }
    }
}

/// Whether `evict` says, for each entry, if a requester with the priority `priority` has it asked
/// to leave: the holders of lower priority are, and nobody else.
pub open spec fn in_the_way<P: Priority>(
    entries: Seq<QueueEntry<SemaphoreWaiter<P>>>,
    priority: P,
    evict: Seq<bool>,
) -> bool {
    &&& evict.len() == entries.len()
    &&& forall|i: int|
        #![trigger evict[i]]
        0 <= i < entries.len() ==> {
            &&& evict[i] ==> entries[i].data.waiter.holds()
            &&& entries[i].data.waiter.holds() && priority.comparable(&entries[i].data.priority)
                ==> evict[i] == (priority.order(&entries[i].data.priority) > 0)
        }
}

/// For each entry, whether it has to be turned away, because it stands at `from` or behind, and
/// waits for more permits than the semaphore has in all.
pub open spec fn oversized<P: Priority>(
    entries: Seq<QueueEntry<SemaphoreWaiter<P>>>,
    from: int,
    total: int,
) -> Seq<bool> {
    Seq::new(
        entries.len(),
        |i: int| from <= i && entries[i].data.within_total && entries[i].data.count > total,
    )
}

/// Whether no entry has, or waits for, more than `most` permits.
pub open spec fn at_most<P: Priority>(
    entries: Seq<QueueEntry<SemaphoreWaiter<P>>>,
    most: int,
) -> bool {
    forall|i: int| 0 <= i < entries.len() ==> (#[trigger] entries[i]).data.count <= most
}

/// Whether, if any permits are available, there aren't enough for the first who waits, unless that
/// one is turned away anyhow. Where none are available, this says nothing, not even of one who asks
/// for none.
pub open spec fn stalled<P: Priority>(
    waiting: Seq<QueueEntry<SemaphoreWaiter<P>>>,
    available: int,
) -> bool {
    waiting.len() > 0 && !waiting[0].data.waiter.unwanted() && available > 0
        ==> waiting[0].data.count > available
}

/// Whether everyone is turned away who waits for more than `total` permits and wants to be told so.
pub open spec fn turned_away<P: Priority>(
    waiting: Seq<QueueEntry<SemaphoreWaiter<P>>>,
    total: int,
) -> bool {
    forall|i: int|
        0 <= i < waiting.len() && (#[trigger] waiting[i]).data.within_total
            && waiting[i].data.count > total ==> waiting[i].data.waiter.unwanted()
}

/// Whether nobody is turned away who didn't want to be told.
pub open spec fn on_request<P: Priority>(
    waiting: Seq<QueueEntry<SemaphoreWaiter<P>>>,
) -> bool {
    forall|i: int|
        0 <= i < waiting.len() && (#[trigger] waiting[i]).data.waiter.unwanted()
            ==> waiting[i].data.within_total
}

/// Whether every holder is asked to leave who has a lower priority than someone who waits and isn't
/// turned away.
pub open spec fn warned<P: Priority>(
    holders: Map<int, SemaphoreWaiter<P>>,
    waiting: Seq<QueueEntry<SemaphoreWaiter<P>>>,
) -> bool {
    forall|key: int, i: int|
        {
            &&& #[trigger] holders.contains_key(key)
            &&& 0 <= i < waiting.len()
            &&& !(#[trigger] waiting[i]).data.waiter.unwanted()
            &&& waiting[i].data.priority.order(&holders[key].priority) > 0
        } ==> holders[key].waiter.unwanted()
}

/// Whether `asked` says if someone who waits, and isn't turned away, has a higher priority than
/// `priority`.
pub open spec fn outranked<P: Priority>(
    waiting: Seq<QueueEntry<SemaphoreWaiter<P>>>,
    priority: P,
    asked: bool,
) -> bool {
    &&& asked ==> exists|i: int|
        {
            &&& 0 <= i < waiting.len()
            &&& !(#[trigger] waiting[i]).data.waiter.unwanted()
            &&& waiting[i].data.priority.comparable(&priority)
                ==> waiting[i].data.priority.order(&priority) > 0
        }
    &&& !asked ==> forall|i: int|
        {
            &&& 0 <= i < waiting.len()
            &&& !(#[trigger] waiting[i]).data.waiter.unwanted()
            &&& waiting[i].data.priority.comparable(&priority)
        } ==> waiting[i].data.priority.order(&priority) <= 0
}

/// The first who waits and isn't turned away.
pub open spec fn first_in_line<P: Priority>(
    waiting: Seq<QueueEntry<SemaphoreWaiter<P>>>,
) -> Option<SemaphoreWaiter<P>>
    decreases waiting.len(),
{
    if waiting.len() == 0 {
        None
    } else if waiting[0].data.waiter.unwanted() {
        first_in_line(waiting.skip(1))
    } else {
        Some(waiting[0].data)
    }
}

/// Whether a requester with the priority `priority` may turn a holder from `before` into `after`:
/// it is asked to leave if it has the lower priority, and left alone otherwise.
pub open spec fn asked_by<P: Priority>(
    priority: P,
    before: SemaphoreWaiter<P>,
    after: SemaphoreWaiter<P>,
) -> bool {
    &&& after == before || after == before.evicted()
    &&& priority.comparable(&before.priority) ==> after == (if priority.order(&before.priority)
        > 0 {
        before.evicted()
    } else {
        before
    })
}

/// What `entries` ask for in all.
pub open spec fn sum_of_counts<P: Priority>(entries: Seq<QueueEntry<SemaphoreWaiter<P>>>) -> int
    decreases entries.len(),
{
    if entries.len() == 0 {
        0
    } else {
        entries[0].data.count + sum_of_counts(entries.skip(1))
    }
}

/// How many entries hold permits can be told in one way only.
pub(crate) proof fn lemma_split<P: Priority>(entries: Seq<QueueEntry<SemaphoreWaiter<P>>>, h: int)
    requires
        split_at(entries, h),
    ensures
        held_len(entries) == h,
        waiting(entries) == entries.skip(h),
{
    let g = held_len(entries);
    if g < h {
        assert(entries[g].data.waiter.holds());
    } else if h < g {
        assert(entries[h].data.waiter.holds());
    }
}

/// Who holds permits, entry by entry.
pub(crate) proof fn lemma_holders<P: Priority>(entries: Seq<QueueEntry<SemaphoreWaiter<P>>>)
    requires
        queue::unique_keys(entries),
    ensures
        forall|i: int|
            0 <= i < entries.len() ==> {
                &&& holders(entries).contains_key((#[trigger] entries[i]).key)
                    <==> entries[i].data.waiter.holds()
                &&& entries[i].data.waiter.holds() ==> holders(entries)[entries[i].key]
                    == entries[i].data
            },
{
    assert forall|i: int| 0 <= i < entries.len() implies {
        &&& holders(entries).contains_key((#[trigger] entries[i]).key)
            <==> entries[i].data.waiter.holds()
        &&& entries[i].data.waiter.holds() ==> holders(entries)[entries[i].key] == entries[i].data
    } by {
        queue::lemma_position(entries, i);
    }
}

/// A map that has each holder, and nobody else, is the map of the holders.
proof fn lemma_holders_are<P: Priority>(
    entries: Seq<QueueEntry<SemaphoreWaiter<P>>>,
    map: Map<int, SemaphoreWaiter<P>>,
)
    requires
        queue::unique_keys(entries),
        forall|i: int|
            0 <= i < entries.len() && (#[trigger] entries[i]).data.waiter.holds() ==> {
                &&& map.contains_key(entries[i].key)
                &&& map[entries[i].key] == entries[i].data
            },
        forall|key: int| #[trigger]
            map.contains_key(key) ==> exists|i: int|
                {
                    &&& 0 <= i < entries.len()
                    &&& (#[trigger] entries[i]).data.waiter.holds()
                    &&& entries[i].key == key
                },
    ensures
        holders(entries) == map,
{
    lemma_holders(entries);
    assert forall|key: int| #[trigger] map.contains_key(key) implies holders(
        entries,
    ).contains_key(key) && holders(entries)[key] == map[key] by {
        let i = choose|i: int|
            {
                &&& 0 <= i < entries.len()
                &&& (#[trigger] entries[i]).data.waiter.holds()
                &&& entries[i].key == key
            };
        assert(holders(entries).contains_key(entries[i].key));
    }
    assert forall|key: int| #[trigger] holders(entries).contains_key(key) implies map.contains_key(
        key,
    ) by {
        let i = queue::position(entries, key);
        assert(entries[i].key == key);
    }
    assert(holders(entries) =~= map);
}

/// One more entry adds to what is held in all just what it holds.
proof fn lemma_issued_insert<P: Priority>(
    entries: Seq<QueueEntry<SemaphoreWaiter<P>>>,
    k: int,
    entry: QueueEntry<SemaphoreWaiter<P>>,
)
    requires
        0 <= k <= entries.len(),
    ensures
        issued(entries.insert(k, entry)) == issued(entries) + held_count(entry.data),
    decreases entries.len(),
{
    let after = entries.insert(k, entry);
    if k == entries.len() {
        assert(after.drop_last() =~= entries);
    } else {
        assert(after.drop_last() =~= entries.drop_last().insert(k, entry));
        assert(after.last() == entries.last());
        lemma_issued_insert(entries.drop_last(), k, entry);
    }
}

/// An entry that is taken out takes with it what it holds.
proof fn lemma_issued_remove<P: Priority>(entries: Seq<QueueEntry<SemaphoreWaiter<P>>>, i: int)
    requires
        0 <= i < entries.len(),
    ensures
        issued(entries.remove(i)) == issued(entries) - held_count(entries[i].data),
{
    lemma_issued_insert(entries.remove(i), i, entries[i]);
    assert(entries.remove(i).insert(i, entries[i]) =~= entries);
}

/// Entries that hold the same, one by one, hold the same in all.
proof fn lemma_issued_same<P: Priority>(
    before: Seq<QueueEntry<SemaphoreWaiter<P>>>,
    after: Seq<QueueEntry<SemaphoreWaiter<P>>>,
)
    requires
        before.len() == after.len(),
        forall|i: int|
            0 <= i < before.len() ==> held_count((#[trigger] after[i]).data) == held_count(
                before[i].data,
            ),
    ensures
        issued(after) == issued(before),
    decreases before.len(),
{
    if before.len() > 0 {
        lemma_issued_same(before.drop_last(), after.drop_last());
    }
}

/// What is held in all is not negative.
pub(crate) proof fn lemma_issued_natural<P: Priority>(entries: Seq<QueueEntry<SemaphoreWaiter<P>>>)
    ensures
        issued(entries) >= 0,
    decreases entries.len(),
{
    if entries.len() > 0 {
        lemma_issued_natural(entries.drop_last());
    }
}

/// No entry holds more than all do, nor do two of them.
pub(crate) proof fn lemma_issued_covers<P: Priority>(
    entries: Seq<QueueEntry<SemaphoreWaiter<P>>>,
    i: int,
    j: int,
)
    requires
        0 <= i < entries.len(),
        0 <= j < entries.len(),
    ensures
        held_count(entries[i].data) <= issued(entries),
        i != j ==> held_count(entries[i].data) + held_count(entries[j].data) <= issued(entries),
{
    lemma_issued_remove(entries, i);
    lemma_issued_natural(entries.remove(i));
    if i != j {
        let rest = entries.remove(i);
        let b = if j < i {
            j
        } else {
            j - 1
        };
        assert(rest[b] == entries[j]);
        lemma_issued_remove(rest, b);
        lemma_issued_natural(rest.remove(b));
    }
}

/// What one more holder changes.
proof fn lemma_insert_holder<P: Priority>(
    entries: Seq<QueueEntry<SemaphoreWaiter<P>>>,
    h: int,
    k: int,
    entry: QueueEntry<SemaphoreWaiter<P>>,
)
    requires
        queue::unique_keys(entries),
        split_at(entries, h),
        0 <= k <= h,
        entry.data.waiter.holds(),
        !queue::has_key(entries, entry.key),
    ensures
        queue::unique_keys(entries.insert(k, entry)),
        split_at(entries.insert(k, entry), h + 1),
        waiting(entries.insert(k, entry)) == waiting(entries),
        holders(entries.insert(k, entry)) == holders(entries).insert(entry.key, entry.data),
        !holders(entries).contains_key(entry.key),
        issued(entries.insert(k, entry)) == issued(entries) + entry.data.count,
{
    let after = entries.insert(k, entry);
    queue::lemma_insert_key(entries, k, entry);
    lemma_issued_insert(entries, k, entry);
    lemma_holders(entries);
    assert forall|i: int| 0 <= i < after.len() implies ((
    #[trigger] after[i]).data.waiter.holds() <==> i < h + 1) by {
        if i < k {
            assert(after[i] == entries[i]);
        } else if i > k {
            assert(after[i] == entries[i - 1]);
        }
    }
    lemma_split(entries, h);
    lemma_split(after, h + 1);
    assert(after.skip(h + 1) =~= entries.skip(h));
    let map = holders(entries).insert(entry.key, entry.data);
    assert forall|i: int| 0 <= i < after.len() && (
    #[trigger] after[i]).data.waiter.holds() implies {
        &&& map.contains_key(after[i].key)
        &&& map[after[i].key] == after[i].data
    } by {
        if i < k {
            assert(after[i] == entries[i]);
            assert(entries[i].key != entry.key);
        } else if i > k {
            assert(after[i] == entries[i - 1]);
            assert(entries[i - 1].key != entry.key);
        }
    }
    assert forall|key: int| #[trigger] map.contains_key(key) implies exists|i: int|
        {
            &&& 0 <= i < after.len()
            &&& (#[trigger] after[i]).data.waiter.holds()
            &&& after[i].key == key
        } by {
        if key == entry.key {
            assert(after[k] == entry);
        } else {
            let i = queue::position(entries, key);
            assert(entries[i].key == key);
            if i < k {
                assert(after[i] == entries[i]);
            } else {
                assert(after[i + 1] == entries[i]);
            }
        }
    }
    lemma_holders_are(after, map);
}

/// What one more who waits changes.
proof fn lemma_insert_waiting<P: Priority>(
    entries: Seq<QueueEntry<SemaphoreWaiter<P>>>,
    h: int,
    k: int,
    entry: QueueEntry<SemaphoreWaiter<P>>,
)
    requires
        queue::unique_keys(entries),
        split_at(entries, h),
        h <= k <= entries.len(),
        !entry.data.waiter.holds(),
        !queue::has_key(entries, entry.key),
    ensures
        queue::unique_keys(entries.insert(k, entry)),
        split_at(entries.insert(k, entry), h),
        waiting(entries.insert(k, entry)) == waiting(entries).insert(k - h, entry),
        holders(entries.insert(k, entry)) == holders(entries),
        issued(entries.insert(k, entry)) == issued(entries),
{
    let after = entries.insert(k, entry);
    queue::lemma_insert_key(entries, k, entry);
    lemma_issued_insert(entries, k, entry);
    lemma_holders(entries);
    assert forall|i: int| 0 <= i < after.len() implies ((
    #[trigger] after[i]).data.waiter.holds() <==> i < h) by {
        if i < k {
            assert(after[i] == entries[i]);
        } else if i > k {
            assert(after[i] == entries[i - 1]);
        }
    }
    lemma_split(entries, h);
    lemma_split(after, h);
    assert(after.skip(h) =~= entries.skip(h).insert(k - h, entry));
    let map = holders(entries);
    assert forall|i: int| 0 <= i < after.len() && (
    #[trigger] after[i]).data.waiter.holds() implies {
        &&& map.contains_key(after[i].key)
        &&& map[after[i].key] == after[i].data
    } by {
        assert(after[i] == entries[i]);
    }
    assert forall|key: int| #[trigger] map.contains_key(key) implies exists|i: int|
        {
            &&& 0 <= i < after.len()
            &&& (#[trigger] after[i]).data.waiter.holds()
            &&& after[i].key == key
        } by {
        let i = queue::position(entries, key);
        assert(entries[i].key == key);
        assert(after[i] == entries[i]);
    }
    lemma_holders_are(after, map);
}

/// What it changes that an entry is taken out.
pub(crate) proof fn lemma_remove<P: Priority>(
    entries: Seq<QueueEntry<SemaphoreWaiter<P>>>,
    h: int,
    i: int,
)
    requires
        queue::unique_keys(entries),
        split_at(entries, h),
        0 <= i < entries.len(),
    ensures
        queue::unique_keys(entries.remove(i)),
        !queue::has_key(entries.remove(i), entries[i].key),
        split_at(
            entries.remove(i),
            if i < h {
                h - 1
            } else {
                h
            },
        ),
        i < h ==> waiting(entries.remove(i)) == waiting(entries),
        i >= h ==> waiting(entries.remove(i)) == waiting(entries).remove(i - h),
        holders(entries.remove(i)) == holders(entries).remove(entries[i].key),
        i >= h ==> holders(entries.remove(i)) == holders(entries),
        issued(entries.remove(i)) == issued(entries) - held_count(entries[i].data),
{
    let after = entries.remove(i);
    let entry = entries[i];
    let g = if i < h {
        h - 1
    } else {
        h
    };
    lemma_issued_remove(entries, i);
    lemma_holders(entries);
    assert forall|a: int| 0 <= a < after.len() implies (#[trigger] after[a]) == entries[if a < i {
        a
    } else {
        a + 1
    }] by {}
    assert(queue::unique_keys(after)) by {
        assert forall|a: int, b: int| 0 <= a < b < after.len() implies (#[trigger] after[a]).key
            != (#[trigger] after[b]).key by {}
    }
    assert(!queue::has_key(after, entry.key)) by {
        assert forall|a: int| 0 <= a < after.len() implies (#[trigger] after[a]).key
            != entry.key by {}
    }
    assert(split_at(after, g));
    lemma_split(entries, h);
    lemma_split(after, g);
    if i < h {
        assert(after.skip(g) =~= entries.skip(h));
    } else {
        assert(after.skip(g) =~= entries.skip(h).remove(i - h));
    }
    let map = holders(entries).remove(entry.key);
    assert forall|a: int| 0 <= a < after.len() && (
    #[trigger] after[a]).data.waiter.holds() implies {
        &&& map.contains_key(after[a].key)
        &&& map[after[a].key] == after[a].data
    } by {}
    assert forall|key: int| #[trigger] map.contains_key(key) implies exists|a: int|
        {
            &&& 0 <= a < after.len()
            &&& (#[trigger] after[a]).data.waiter.holds()
            &&& after[a].key == key
        } by {
        let a = queue::position(entries, key);
        assert(entries[a].key == key);
        if a < i {
            assert(after[a] == entries[a]);
        } else {
            assert(after[a - 1] == entries[a]);
        }
    }
    lemma_holders_are(after, map);
    if i >= h {
        assert(!holders(entries).contains_key(entries[i].key));
        assert(map =~= holders(entries));
    }
}

/// What an entry that was enqueued changes.
pub(crate) proof fn lemma_enqueued<P: Priority>(
    entries: Seq<QueueEntry<SemaphoreWaiter<P>>>,
    after: Seq<QueueEntry<SemaphoreWaiter<P>>>,
    h: int,
    key: int,
    data: SemaphoreWaiter<P>,
)
    requires
        queue::unique_keys(entries),
        split_at(entries, h),
        queue::enqueued(entries, after, key, data),
    ensures
        queue::unique_keys(after),
        queue::has_key(after, key),
        data.waiter.holds() ==> {
            &&& split_at(after, h + 1)
            &&& waiting(after) == waiting(entries)
            &&& holders(after) == holders(entries).insert(key, data)
            &&& !holders(entries).contains_key(key)
            &&& issued(after) == issued(entries) + data.count
        },
        !data.waiter.holds() ==> {
            &&& split_at(after, h)
            &&& queue::enqueued(waiting(entries), waiting(after), key, data)
            &&& holders(after) == holders(entries)
            &&& !holders(after).contains_key(key)
            &&& issued(after) == issued(entries)
        },
{
    let entry = QueueEntry { key, data };
    let k = queue::lemma_place(entries, after, key, data);
    assert(after[k] == entry);
    if data.waiter.holds() {
        assert(k <= h) by {
            if k > h {
                assert(!entries[k - 1].data.waiter.holds());
            }
        }
        lemma_insert_holder(entries, h, k, entry);
    } else {
        assert(k >= h) by {
            if k < h {
                assert(entries[k].data.waiter.holds());
                assert(k > 0 ==> entries[k - 1].data.waiter.holds());
            }
        }
        lemma_insert_waiting(entries, h, k, entry);
        lemma_holders(after);
        lemma_split(entries, h);
        let w = waiting(entries);
        assert(k - h > 0 ==> w[k - h - 1] == entries[k - 1]);
        assert(k < entries.len() ==> w[k - h] == entries[k]);
        assert(k == h && k > 0 ==> entries[k - 1].data.waiter.holds());
        assert(queue::place_for_new(w, k - h, data));
        assert(!queue::has_key(w, key)) by {
            assert forall|i: int| 0 <= i < w.len() implies (#[trigger] w[i]).key != key by {
                assert(w[i] == entries[h + i]);
            }
        }
    }
}

/// A new entry that isn't too large leaves none that is.
pub(crate) proof fn lemma_enqueued_at_most<P: Priority>(
    entries: Seq<QueueEntry<SemaphoreWaiter<P>>>,
    after: Seq<QueueEntry<SemaphoreWaiter<P>>>,
    key: int,
    data: SemaphoreWaiter<P>,
    most: int,
)
    requires
        at_most(entries, most),
        data.count <= most,
        queue::enqueued(entries, after, key, data),
    ensures
        at_most(after, most),
{
    let k = queue::lemma_place(entries, after, key, data);
    assert forall|i: int| 0 <= i < after.len() implies (#[trigger] after[i]).data.count <= most by {
        if i < k {
            assert(after[i] == entries[i]);
        } else if i > k {
            assert(after[i] == entries[i - 1]);
        }
    }
}

/// One who no longer waits can stand anywhere, as far as counts go.
proof fn lemma_moved_by_count<P: Priority>(
    entries: Seq<QueueEntry<SemaphoreWaiter<P>>>,
    i: int,
    k: int,
    entry: QueueEntry<SemaphoreWaiter<P>>,
)
    requires
        by_count(entries),
        0 <= k <= i < entries.len(),
        entry.data.waiter.holds(),
    ensures
        by_count(entries.remove(i).insert(k, entry)),
{
    let after = entries.remove(i).insert(k, entry);
    assert forall|a: int, b: int|
        {
            &&& 0 <= a < b < after.len()
            &&& !(#[trigger] after[a]).data.waiter.holds()
            &&& !(#[trigger] after[b]).data.waiter.holds()
            &&& after[a].data.priority.order(&after[b].data.priority) == 0
        } implies after[a].data.count <= after[b].data.count by {
        let c = if k < a <= i {
            a - 1
        } else {
            a
        };
        let d = if k < b <= i {
            b - 1
        } else {
            b
        };
        assert(after[a] == entries[c]);
        assert(after[b] == entries[d]);
    }
}

/// What it changes that one who waits is granted its permits, and stands where
/// it belongs from then on.
pub(crate) proof fn lemma_started<P: Priority>(
    entries: Seq<QueueEntry<SemaphoreWaiter<P>>>,
    after: Seq<QueueEntry<SemaphoreWaiter<P>>>,
    h: int,
    i: int,
)
    requires
        queue::unique_keys(entries),
        split_at(entries, h),
        h <= i < entries.len(),
        queue::updated(entries, after, entries[i].key, entries[i].data.started(), true),
    ensures
        queue::unique_keys(after),
        split_at(after, h + 1),
        after.len() == entries.len(),
        after.skip(h + 1) == entries.skip(h).remove(i - h),
        holders(after) == holders(entries).insert(entries[i].key, entries[i].data.started()),
        issued(after) == issued(entries) + entries[i].data.count,
        in_order(entries) ==> in_order(after),
        forall|most: int| #[trigger] at_most(entries, most) ==> at_most(after, most),
{
    let key = entries[i].key;
    let data = entries[i].data.started();
    let entry = QueueEntry { key, data };
    let rest = entries.remove(i);
    queue::lemma_position(entries, i);
    entries[i].data.waiter.lemma_flags();
    let changed = entries.update(i, entry);
    assert(changed.remove(i) =~= rest);
    assert(changed =~= rest.insert(i, entry));
    let k = if queue::fits(changed, i) && after == changed {
        i
    } else {
        choose|k: int|
            {
                &&& #[trigger] queue::place_for_moved(changed.remove(i), k, changed[i].data)
                &&& after == changed.remove(i).insert(k, changed[i])
            }
    };
    assert(after == rest.insert(k, entry));
    lemma_remove(entries, h, i);
    assert(k <= h) by {
        if k > h {
            assert(!rest[k - 1].data.waiter.holds());
            if queue::fits(changed, i) && after == changed {
                assert(changed[k - 1] == rest[k - 1]);
            }
        }
    }
    lemma_insert_holder(rest, h, k, entry);
    assert(!holders(entries).contains_key(key)) by {
        lemma_holders(entries);
    }
    assert(holders(after) =~= holders(entries).insert(key, data));
    assert forall|most: int| #[trigger] at_most(entries, most) implies at_most(after, most) by {
        assert forall|a: int| 0 <= a < after.len() implies (#[trigger] after[a]).data.count
            <= most by {
            let c = if k < a <= i {
                a - 1
            } else {
                a
            };
            assert(a == k || after[a] == entries[c]);
            assert(entries[i].data.count <= most);
        }
    }
    lemma_split(entries, h);
    lemma_split(rest, h);
    lemma_split(after, h + 1);
    if in_order(entries) && priority::lawful::<P>() {
        law_semaphore_waiter::<P>();
        queue::law_update_sorted(entries, after, key, data, true);
        if priority::plain::<P>() {
            lemma_moved_by_count(entries, i, k, entry);
        }
    }
}

/// What stands between two entries of the same priority waits as they do, with the same priority.
proof fn lemma_between<P: Priority>(
    a: SemaphoreWaiter<P>,
    b: SemaphoreWaiter<P>,
    c: SemaphoreWaiter<P>,
)
    requires
        priority::lawful::<P>(),
        !a.waiter.holds(),
        !c.waiter.holds(),
        a.order(&b) >= 0,
        b.order(&c) >= 0,
        a.priority.order(&c.priority) == 0,
    ensures
        !b.waiter.holds(),
        a.priority.order(&b.priority) == 0,
        b.priority.order(&c.priority) == 0,
{
    if a.priority.order(&b.priority) > 0 || b.priority.order(&c.priority) > 0 {
        priority::lemma_lawful_chain(a.priority, b.priority, c.priority);
    }
}

/// A new entry that was enqueued keeps the order.
pub(crate) proof fn lemma_enqueued_in_order<P: Priority>(
    entries: Seq<QueueEntry<SemaphoreWaiter<P>>>,
    after: Seq<QueueEntry<SemaphoreWaiter<P>>>,
    key: int,
    data: SemaphoreWaiter<P>,
)
    requires
        in_order(entries),
        queue::enqueued(entries, after, key, data),
    ensures
        in_order(after),
{
    if priority::lawful::<P>() {
        law_semaphore_waiter::<P>();
        queue::law_enqueue_sorted(entries, after, key, data);
        if priority::plain::<P>() {
            reveal(priority::plain);
            let entry = QueueEntry { key, data };
            let k = queue::lemma_place(entries, after, key, data);
            assert(after[k] == entry);
            if k > 0 {
                assert(after[k - 1] == entries[k - 1]);
                priority::lemma_lawful_pair(data, entries[k - 1].data);
            }
            if k < entries.len() {
                assert(after[k + 1] == entries[k]);
                priority::lemma_lawful_pair(data, entries[k].data);
            }
            assert forall|i: int| 0 <= i < k && !(#[trigger] entries[i]).data.waiter.holds()
                && entries[i].data.priority.order(&data.priority) == 0
                && !data.waiter.holds() implies entries[i].data.count <= data.count by {
                let last = entries[k - 1].data;
                assert(after[i] == entries[i]);
                if i < k - 1 {
                    assert(after[i].data.order(&after[k - 1].data) >= 0);
                    assert(after[k - 1].data.order(&after[k].data) >= 0);
                    lemma_between(entries[i].data, last, data);
                    assert(entries[i].data.count <= entries[k - 1].data.count);
                }
                priority::lemma_lawful_pair(data, last);
                priority::lemma_lawful_pair(data.priority, last.priority);
            }
            assert forall|i: int| k <= i < entries.len() && !(#[trigger] entries[i]).data.waiter.holds()
                && data.priority.order(&entries[i].data.priority) == 0
                && !data.waiter.holds() implies data.count <= entries[i].data.count by {
                let first = entries[k].data;
                assert(after[i + 1] == entries[i]);
                assert(after[k].data.order(&after[k + 1].data) >= 0);
                if i > k {
                    assert(after[k + 1].data.order(&after[i + 1].data) >= 0);
                    lemma_between(data, first, entries[i].data);
                    assert(entries[k].data.count <= entries[i].data.count);
                }
                if data.order_new(&first) < 0 {
                    assert(entries[k - 1].data.order(&entries[k].data) >= 0);
                    let last = entries[k - 1].data;
                    priority::lemma_lawful_pair(data.priority, last.priority);
                    priority::lemma_lawful_pair(last.priority, first.priority);
                    if last.priority.order(&first.priority) > 0 {
                        priority::lemma_lawful_chain(data.priority, last.priority, first.priority);
                    }
                    assert(entries[k - 1].data.count <= entries[k].data.count);
                }
            }
            assert forall|a: int, b: int|
                {
                    &&& 0 <= a < b < after.len()
                    &&& !(#[trigger] after[a]).data.waiter.holds()
                    &&& !(#[trigger] after[b]).data.waiter.holds()
                    &&& after[a].data.priority.order(&after[b].data.priority) == 0
                } implies after[a].data.count <= after[b].data.count by {
                let c = if a < k {
                    a
                } else {
                    a - 1
                };
                let d = if b < k {
                    b
                } else {
                    b - 1
                };
                assert(a == k || after[a] == entries[c]);
                assert(b == k || after[b] == entries[d]);
            }
        }
    }
}

/// Taking an entry out keeps the order.
pub(crate) proof fn lemma_removed_in_order<P: Priority>(
    entries: Seq<QueueEntry<SemaphoreWaiter<P>>>,
    i: int,
)
    requires
        in_order(entries),
        0 <= i < entries.len(),
    ensures
        in_order(entries.remove(i)),
{
    if priority::lawful::<P>() {
        queue::law_dequeue_sorted(entries, i);
        if priority::plain::<P>() {
            let after = entries.remove(i);
            assert forall|a: int, b: int|
                {
                    &&& 0 <= a < b < after.len()
                    &&& !(#[trigger] after[a]).data.waiter.holds()
                    &&& !(#[trigger] after[b]).data.waiter.holds()
                    &&& after[a].data.priority.order(&after[b].data.priority) == 0
                } implies after[a].data.count <= after[b].data.count by {
                let c = if a < i {
                    a
                } else {
                    a + 1
                };
                let d = if b < i {
                    b
                } else {
                    b + 1
                };
                assert(after[a] == entries[c]);
                assert(after[b] == entries[d]);
            }
        }
    }
}

/// Such entries stand in order as well, and as many of them hold permits.
pub(crate) proof fn lemma_same_ranks<P: Priority>(
    before: Seq<QueueEntry<SemaphoreWaiter<P>>>,
    after: Seq<QueueEntry<SemaphoreWaiter<P>>>,
)
    requires
        same_ranks(before, after),
    ensures
        in_order(before) ==> in_order(after),
        queue::unique_keys(before) ==> queue::unique_keys(after),
        forall|h: int| #[trigger] split_at(before, h) ==> split_at(after, h),
{
    if in_order(before) && priority::lawful::<P>() {
        assert forall|i: int, j: int| 0 <= i < j < after.len() implies (
        #[trigger] after[i]).data.order(&(#[trigger] after[j]).data) >= 0 by {
            assert(before[i].data.order(&before[j].data) >= 0);
        }
        if priority::plain::<P>() {
            assert forall|i: int, j: int|
                {
                    &&& 0 <= i < j < after.len()
                    &&& !(#[trigger] after[i]).data.waiter.holds()
                    &&& !(#[trigger] after[j]).data.waiter.holds()
                    &&& after[i].data.priority.order(&after[j].data.priority) == 0
                } implies after[i].data.count <= after[j].data.count by {
                assert(before[i].data.count <= before[j].data.count);
            }
        }
    }
    if queue::unique_keys(before) {
        assert forall|i: int, j: int| 0 <= i < j < after.len() implies (#[trigger] after[i]).key
            != (#[trigger] after[j]).key by {
            assert(before[i].key != before[j].key);
        }
    }
    assert forall|h: int| #[trigger] split_at(before, h) implies split_at(after, h) by {
        assert forall|i: int| 0 <= i < after.len() implies ((
        #[trigger] after[i]).data.waiter.holds() <==> i < h) by {
            assert(before[i].data.waiter.holds() <==> i < h);
        }
    }
}

/// Serving leaves nobody waiting whose turn it is and for whom there are enough permits.
pub(crate) proof fn lemma_served_stalled<P: Priority>(
    waiting: Seq<QueueEntry<SemaphoreWaiter<P>>>,
    available: int,
)
    ensures
        stalled(serve(waiting, available).waiting, serve(waiting, available).available),
    decreases waiting.len(),
{
    if waiting.len() == 0 {
    } else if waiting[0].data.count <= available {
        lemma_served_stalled(waiting.skip(1), available - waiting[0].data.count);
    }
}

/// Serving leaves nobody waiting in vain.
pub(crate) proof fn lemma_served_turned_away<P: Priority>(
    waiting: Seq<QueueEntry<SemaphoreWaiter<P>>>,
    available: int,
    total: int,
)
    requires
        turned_away(waiting, total),
    ensures
        turned_away(serve(waiting, available).waiting, total),
    decreases waiting.len(),
{
    if waiting.len() > 0 {
        let rest = waiting.skip(1);
        assert forall|i: int|
            0 <= i < rest.len() && (#[trigger] rest[i]).data.within_total && rest[i].data.count
                > total implies rest[i].data.waiter.unwanted() by {
            assert(rest[i] == waiting[i + 1]);
        }
        if waiting[0].data.count <= available {
            lemma_served_turned_away(rest, available - waiting[0].data.count, total);
        } else if waiting[0].data.waiter.unwanted() {
            lemma_served_turned_away(rest, available, total);
            let left = serve(waiting, available).waiting;
            assert forall|i: int|
                0 <= i < left.len() && (#[trigger] left[i]).data.within_total && left[i].data.count
                    > total implies left[i].data.waiter.unwanted() by {
                if i > 0 {
                    assert(left[i] == serve(rest, available).waiting[i - 1]);
                }
            }
        }
    }
}

/// Whom nobody is asked to leave among, nobody is woken.
pub(crate) proof fn lemma_asked_nobody<P: Priority>(
    entries: Seq<QueueEntry<SemaphoreWaiter<P>>>,
    evict: Seq<bool>,
)
    requires
        forall|i: int| 0 <= i < entries.len() ==> !(#[trigger] evict[i]),
    ensures
        asked_wakers(entries, evict) == Seq::<Waker>::empty(),
    decreases entries.len(),
{
    if entries.len() > 0 {
        lemma_asked_nobody(entries.drop_last(), evict);
    }
}

/// The wakers depend on no more of `evict` than there are entries.
pub(crate) proof fn lemma_asked_prefix<P: Priority>(
    entries: Seq<QueueEntry<SemaphoreWaiter<P>>>,
    a: Seq<bool>,
    b: Seq<bool>,
)
    requires
        forall|i: int| 0 <= i < entries.len() ==> (#[trigger] a[i]) == b[i],
    ensures
        asked_wakers(entries, a) == asked_wakers(entries, b),
    decreases entries.len(),
{
    if entries.len() > 0 {
        lemma_asked_prefix(entries.drop_last(), a, b);
    }
}

/// Asking some to leave changes neither who holds permits, nor how many, nor the order.
pub(crate) proof fn lemma_asked<P: Priority>(
    entries: Seq<QueueEntry<SemaphoreWaiter<P>>>,
    evict: Seq<bool>,
)
    requires
        evict.len() == entries.len(),
    ensures
        same_ranks(entries, asked(entries, evict)),
        issued(asked(entries, evict)) == issued(entries),
        forall|most: int| #[trigger]
            at_most(entries, most) ==> at_most(asked(entries, evict), most),
{
    let after = asked(entries, evict);
    assert forall|i: int| 0 <= i < entries.len() implies {
        &&& (#[trigger] after[i]).key == entries[i].key
        &&& after[i].data.priority == entries[i].data.priority
        &&& after[i].data.waiter.holds() == entries[i].data.waiter.holds()
        &&& after[i].data.count == entries[i].data.count
    } by {
        entries[i].data.waiter.lemma_flags();
    }
    lemma_issued_same(entries, after);
    assert forall|most: int| #[trigger] at_most(entries, most) implies at_most(after, most) by {
        assert forall|i: int| 0 <= i < after.len() implies (#[trigger] after[i]).data.count
            <= most by {
            assert(entries[i].data.count <= most);
        }
    }
}

/// Those among whom nobody is asked to leave can be passed over.
proof fn lemma_asked_skip<P: Priority>(
    entries: Seq<QueueEntry<SemaphoreWaiter<P>>>,
    evict: Seq<bool>,
    h: int,
)
    requires
        0 <= h <= entries.len() <= evict.len(),
        forall|i: int| 0 <= i < h ==> !(#[trigger] evict[i]),
    ensures
        asked_wakers(entries, evict) == asked_wakers(entries.skip(h), evict.skip(h)),
    decreases entries.len(),
{
    if entries.len() == h {
        lemma_asked_nobody(entries, evict);
        assert(entries.skip(h) =~= Seq::empty());
    } else {
        lemma_asked_skip(entries.drop_last(), evict, h);
        assert(entries.skip(h).drop_last() =~= entries.drop_last().skip(h));
        assert(entries.skip(h).last() == entries.last());
        assert(evict.skip(h)[entries.skip(h).len() - 1] == evict[entries.len() - 1]);
    }
}

/// Where no holder is asked to leave, only those who wait are concerned.
pub(crate) proof fn lemma_asked_waiting<P: Priority>(
    entries: Seq<QueueEntry<SemaphoreWaiter<P>>>,
    evict: Seq<bool>,
    h: int,
)
    requires
        queue::unique_keys(entries),
        split_at(entries, h),
        evict.len() == entries.len(),
        forall|i: int| 0 <= i < h ==> !(#[trigger] evict[i]),
    ensures
        holders(asked(entries, evict)) == holders(entries),
        waiting(asked(entries, evict)) == asked(waiting(entries), evict.skip(h)),
        asked_wakers(entries, evict) == asked_wakers(waiting(entries), evict.skip(h)),
{
    let after = asked(entries, evict);
    lemma_asked(entries, evict);
    lemma_same_ranks(entries, after);
    lemma_split(entries, h);
    lemma_split(after, h);
    assert(after.skip(h) =~= asked(entries.skip(h), evict.skip(h)));
    lemma_holders(entries);
    assert forall|i: int| 0 <= i < after.len() && (#[trigger] after[i]).data.waiter.holds() implies {
        &&& holders(entries).contains_key(after[i].key)
        &&& holders(entries)[after[i].key] == after[i].data
    } by {
        assert(after[i] == entries[i]);
    }
    assert forall|key: int| #[trigger] holders(entries).contains_key(key) implies exists|i: int|
        {
            &&& 0 <= i < after.len()
            &&& (#[trigger] after[i]).data.waiter.holds()
            &&& after[i].key == key
        } by {
        let i = queue::position(entries, key);
        assert(entries[i].key == key);
        assert(after[i] == entries[i]);
    }
    lemma_holders_are(after, holders(entries));
    lemma_asked_skip(entries, evict, h);
}

/// Where a requester has holders asked to leave, those who wait are not concerned.
pub(crate) proof fn lemma_asked_holders<P: Priority>(
    entries: Seq<QueueEntry<SemaphoreWaiter<P>>>,
    evict: Seq<bool>,
    h: int,
    priority: P,
)
    requires
        queue::unique_keys(entries),
        split_at(entries, h),
        in_the_way(entries, priority, evict),
    ensures
        waiting(asked(entries, evict)) == waiting(entries),
        holders(asked(entries, evict)).dom() == holders(entries).dom(),
        forall|key: int| #[trigger]
            holders(entries).contains_key(key) ==> asked_by(
                priority,
                holders(entries)[key],
                holders(asked(entries, evict))[key],
            ),
{
    let after = asked(entries, evict);
    lemma_asked(entries, evict);
    lemma_same_ranks(entries, after);
    lemma_split(entries, h);
    lemma_split(after, h);
    assert forall|i: int| h <= i < entries.len() implies #[trigger] after[i] == entries[i] by {
        assert(!evict[i]);
    }
    assert(after.skip(h) =~= entries.skip(h));
    lemma_holders(entries);
    lemma_holders(after);
    assert forall|key: int| #[trigger] holders(entries).contains_key(key) implies {
        &&& holders(after).contains_key(key)
        &&& asked_by(priority, holders(entries)[key], holders(after)[key])
    } by {
        let i = queue::position(entries, key);
        assert(entries[i].key == key && after[i].key == key);
        assert(evict[i] || !evict[i]);
    }
    assert forall|key: int| #[trigger] holders(after).contains_key(key) implies holders(
        entries,
    ).contains_key(key) by {
        let i = queue::position(after, key);
        assert(after[i].key == key && entries[i].key == key);
    }
    assert(holders(after).dom() =~= holders(entries).dom());
}

/// The first in line is one of those who wait.
pub(crate) proof fn lemma_first_in_line<P: Priority>(
    waiting: Seq<QueueEntry<SemaphoreWaiter<P>>>,
) -> (j: int)
    requires
        first_in_line(waiting) is Some,
    ensures
        0 <= j < waiting.len(),
        waiting[j].data == first_in_line(waiting)->0,
        forall|i: int| 0 <= i < j ==> (#[trigger] waiting[i]).data.waiter.unwanted(),
        !waiting[j].data.waiter.unwanted(),
    decreases waiting.len(),
{
    if waiting[0].data.waiter.unwanted() {
        let j = lemma_first_in_line(waiting.skip(1));
        assert(waiting.skip(1)[j] == waiting[j + 1]);
        assert forall|i: int| 0 <= i < j + 1 implies (
        #[trigger] waiting[i]).data.waiter.unwanted() by {
            if i > 0 {
                assert(waiting.skip(1)[i - 1] == waiting[i]);
            }
        }
        j + 1
    } else {
        0
    }
}

/// One who is queued, for want of permits or because another is first in line, leaves nobody waiting
/// whose turn it is and for whom there are enough permits.
pub(crate) proof fn lemma_queued_stalled<P: Priority>(
    before: Seq<QueueEntry<SemaphoreWaiter<P>>>,
    after: Seq<QueueEntry<SemaphoreWaiter<P>>>,
    key: int,
    data: SemaphoreWaiter<P>,
    available: int,
)
    requires
        priority::regular::<P>(),
        split_at(before, 0),
        queue::sorted(before),
        stalled(before, available),
        queue::enqueued(before, after, key, data),
        !data.waiter.holds(),
        data.count <= available ==> first_in_line(before) is Some && data.priority.order_new(
            &first_in_line(before)->0.priority,
        ) < 0,
    ensures
        stalled(after, available),
{
    let entry = QueueEntry { key, data };
    let k = queue::lemma_place(before, after, key, data);
    if k > 0 {
        assert(after[0] == before[0]);
    } else {
        assert(after[0] == entry);
        if data.count <= available {
            let j = lemma_first_in_line(before);
            let head = before[0].data;
            let first = before[j].data;
            law_semaphore_waiter::<P>();
            reveal(priority::plain);
            reveal(priority::newest_last);
            reveal(priority::newest_first);
            priority::lemma_lawful_pair(data, head);
            priority::lemma_lawful_pair(data.priority, first.priority);
            assert(data.order_new(&head) >= 0);
            if j > 0 {
                assert(before[0].data.order(&before[j].data) >= 0);
                priority::lemma_lawful_chain(data, head, first);
            }
        }
    }
}

/// Where the entries stand in order, so do those who wait.
pub(crate) proof fn lemma_waiting_sorted<P: Priority>(
    entries: Seq<QueueEntry<SemaphoreWaiter<P>>>,
    h: int,
)
    requires
        split_at(entries, h),
        queue::sorted(entries),
    ensures
        split_at(waiting(entries), 0),
        queue::sorted(waiting(entries)),
{
    let w = waiting(entries);
    lemma_split(entries, h);
    assert forall|i: int| 0 <= i < w.len() implies !(#[trigger] w[i]).data.waiter.holds() by {
        assert(w[i] == entries[h + i]);
    }
    assert forall|i: int, j: int| 0 <= i < j < w.len() implies (#[trigger] w[i]).data.order(
        &(#[trigger] w[j]).data,
    ) >= 0 by {
        assert(w[i] == entries[h + i]);
        assert(w[j] == entries[h + j]);
    }
}

/// What it changes that the data of an entry changes, but not its rank.
pub(crate) proof fn lemma_changed<P: Priority>(
    entries: Seq<QueueEntry<SemaphoreWaiter<P>>>,
    h: int,
    i: int,
    data: SemaphoreWaiter<P>,
)
    requires
        queue::unique_keys(entries),
        split_at(entries, h),
        0 <= i < entries.len(),
        data.priority == entries[i].data.priority,
        data.waiter.holds() == entries[i].data.waiter.holds(),
        data.waiter.holds() || data.count == entries[i].data.count,
    ensures
        ({
            let entry = QueueEntry { key: entries[i].key, data };
            let after = entries.update(i, entry);
            &&& same_ranks(entries, after)
            &&& i < h ==> {
                &&& waiting(after) == waiting(entries)
                &&& holders(after) == holders(entries).insert(entry.key, data)
            }
            &&& i >= h ==> {
                &&& waiting(after) == waiting(entries).update(i - h, entry)
                &&& holders(after) == holders(entries)
            }
            &&& issued(after) == issued(entries) - held_count(entries[i].data) + held_count(data)
        }),
{
    let entry = QueueEntry { key: entries[i].key, data };
    let after = entries.update(i, entry);
    lemma_same_ranks(entries, after);
    lemma_split(entries, h);
    lemma_split(after, h);
    lemma_issued_remove(entries, i);
    lemma_issued_insert(entries.remove(i), i, entry);
    assert(entries.remove(i).insert(i, entry) =~= after);
    if i < h {
        assert(after.skip(h) =~= entries.skip(h));
    } else {
        assert(after.skip(h) =~= entries.skip(h).update(i - h, entry));
    }
    lemma_holders(entries);
    let map = if i < h {
        holders(entries).insert(entry.key, data)
    } else {
        holders(entries)
    };
    assert forall|j: int| 0 <= j < after.len() && (#[trigger] after[j]).data.waiter.holds() implies {
        &&& map.contains_key(after[j].key)
        &&& map[after[j].key] == after[j].data
    } by {
        if j != i {
            assert(after[j] == entries[j]);
            assert(entries[j].key != entries[i].key);
        }
    }
    assert forall|key: int| #[trigger] map.contains_key(key) implies exists|j: int|
        {
            &&& 0 <= j < after.len()
            &&& (#[trigger] after[j]).data.waiter.holds()
            &&& after[j].key == key
        } by {
        if key == entry.key && i < h {
            assert(after[i].key == key);
        } else {
            let j = queue::position(entries, key);
            assert(entries[j].key == key);
            assert(after[j].key == key);
            assert(after[j].data.waiter.holds());
        }
    }
    lemma_holders_are(after, map);
}

/// One who waits stands as far behind the holders as its turn says.
pub(crate) proof fn lemma_turn<P: Priority>(
    entries: Seq<QueueEntry<SemaphoreWaiter<P>>>,
    h: int,
    key: int,
)
    requires
        queue::unique_keys(entries),
        split_at(entries, h),
        queue::has_key(entries, key),
    ensures
        holders(entries).contains_key(key) <==> queue::position(entries, key) < h,
        holders(entries).contains_key(key) ==> holders(entries)[key] == entries[queue::position(
            entries,
            key,
        )].data,
        !holders(entries).contains_key(key) ==> {
            &&& queue::has_key(waiting(entries), key)
            &&& queue::position(waiting(entries), key) == queue::position(entries, key) - h
            &&& waiting(entries)[queue::position(entries, key) - h]
                == entries[queue::position(entries, key)]
        },
        queue::unique_keys(waiting(entries)),
{
    let w = waiting(entries);
    let i = queue::position(entries, key);
    assert(entries[i].key == key);
    lemma_split(entries, h);
    lemma_holders(entries);
    assert(queue::unique_keys(w)) by {
        assert forall|a: int, b: int| 0 <= a < b < w.len() implies (#[trigger] w[a]).key != (
        #[trigger] w[b]).key by {
            assert(w[a] == entries[h + a]);
            assert(w[b] == entries[h + b]);
        }
    }
    if i >= h {
        assert(w[i - h] == entries[i]);
        queue::lemma_position(w, i - h);
    }
}

/// Turning away those who wait for more than there is leaves nobody waiting in vain, nor anybody
/// whose turn it is and for whom there are enough permits.
pub(crate) proof fn lemma_oversized<P: Priority>(
    waiting: Seq<QueueEntry<SemaphoreWaiter<P>>>,
    total: int,
    available: int,
    less: int,
)
    requires
        less <= available,
    ensures
        turned_away(asked(waiting, oversized(waiting, 0, total)), total),
        stalled(waiting, available) ==> stalled(
            asked(waiting, oversized(waiting, 0, total)),
            less,
        ),
        on_request(waiting) ==> on_request(asked(waiting, oversized(waiting, 0, total))),
        forall|holders: Map<int, SemaphoreWaiter<P>>| #[trigger]
            warned(holders, waiting) ==> warned(
                holders,
                asked(waiting, oversized(waiting, 0, total)),
            ),
{
    let evict = oversized(waiting, 0, total);
    let after = asked(waiting, evict);
    assert forall|i: int| 0 <= i < after.len() implies {
        &&& (#[trigger] after[i]).data.count == waiting[i].data.count
        &&& after[i].data.priority == waiting[i].data.priority
        &&& after[i].data.within_total == waiting[i].data.within_total
        &&& after[i].data.waiter.unwanted() == (waiting[i].data.waiter.unwanted() || evict[i])
    } by {
        waiting[i].data.waiter.lemma_flags();
    }
    assert forall|holders: Map<int, SemaphoreWaiter<P>>| #[trigger]
        warned(holders, waiting) implies warned(holders, after) by {
        assert forall|key: int, i: int|
            {
                &&& #[trigger] holders.contains_key(key)
                &&& 0 <= i < after.len()
                &&& !(#[trigger] after[i]).data.waiter.unwanted()
                &&& after[i].data.priority.order(&holders[key].priority) > 0
            } implies holders[key].waiter.unwanted() by {
            assert(!waiting[i].data.waiter.unwanted());
        }
    }
}

/// What is held in all is the sum of what each holder has.
pub proof fn law_issued<P: Priority>(entries: Seq<QueueEntry<SemaphoreWaiter<P>>>, start: int)
    ensures
        start + issued(entries) == entries.fold_left(
            start,
            |sum: int, entry: QueueEntry<SemaphoreWaiter<P>>|
                if entry.data.waiter.holds() {
                    sum + entry.data.count
                } else {
                    sum
                },
        ),
    decreases entries.len(),
{
    reveal(Seq::fold_left);
    if entries.len() > 0 {
        law_issued(entries.drop_last(), start);
    }
}

/// Holders rank above those who wait, and among each other as their priorities do. So do those who
/// wait, and where a new one has the same priority, the one that asks for fewer permits ranks above
/// the other.
pub proof fn law_entries_rank<P: Priority>(a: SemaphoreWaiter<P>, b: SemaphoreWaiter<P>)
    ensures
        a.waiter.holds() && !b.waiter.holds() ==> a.order(&b) > 0 && a.order_new(&b) > 0,
        !a.waiter.holds() && b.waiter.holds() ==> a.order(&b) < 0 && a.order_new(&b) < 0,
        a.waiter.holds() == b.waiter.holds() ==> a.order(&b) == a.priority.order(&b.priority),
        a.waiter.holds() == b.waiter.holds() && (a.waiter.holds() || a.priority.order_new(
            &b.priority,
        ) != 0) ==> a.order_new(&b) == a.priority.order_new(&b.priority),
        !a.waiter.holds() && !b.waiter.holds() && a.priority.order_new(&b.priority) == 0 ==> {
            &&& a.order_new(&b) > 0 <==> a.count < b.count
            &&& a.order_new(&b) < 0 <==> a.count > b.count
        },
{
}

/// Serving hands out exactly the permits that those who are granted theirs ask for, and no more than
/// there are.
pub proof fn law_serve_conserves<P: Priority>(
    waiting: Seq<QueueEntry<SemaphoreWaiter<P>>>,
    available: int,
)
    requires
        available >= 0,
    ensures
        serve(waiting, available).available >= 0,
        serve(waiting, available).available + sum_of_counts(serve(waiting, available).granted)
            == available,
    decreases waiting.len(),
{
    if waiting.len() == 0 {
    } else if waiting[0].data.count <= available {
        let rest = serve(waiting.skip(1), available - waiting[0].data.count);
        law_serve_conserves(waiting.skip(1), available - waiting[0].data.count);
        assert((seq![waiting[0]] + rest.granted).skip(1) =~= rest.granted);
    } else if waiting[0].data.waiter.unwanted() {
        law_serve_conserves(waiting.skip(1), available);
    }
}

/// Serving loses nobody: whoever waits is either granted their permits or goes on waiting, and
/// nobody else appears.
pub proof fn law_serve_loses_nobody<P: Priority>(
    waiting: Seq<QueueEntry<SemaphoreWaiter<P>>>,
    available: int,
)
    ensures
        waiting.to_multiset() == serve(waiting, available).granted.to_multiset().add(
            serve(waiting, available).waiting.to_multiset(),
        ),
    decreases waiting.len(),
{
    broadcast use vstd::seq_lib::group_to_multiset_ensures;

    let service = serve(waiting, available);
    if waiting.len() > 0 {
        let head = seq![waiting[0]];
        let rest = waiting.skip(1);
        assert(waiting =~= head + rest);
        vstd::seq_lib::lemma_multiset_commutative(head, rest);
        if waiting[0].data.count <= available {
            let service = serve(rest, available - waiting[0].data.count);
            law_serve_loses_nobody(rest, available - waiting[0].data.count);
            vstd::seq_lib::lemma_multiset_commutative(head, service.granted);
        } else if waiting[0].data.waiter.unwanted() {
            let service = serve(rest, available);
            law_serve_loses_nobody(rest, available);
            vstd::seq_lib::lemma_multiset_commutative(head, service.waiting);
        }
    }
    assert(waiting.to_multiset() =~= service.granted.to_multiset().add(
        service.waiting.to_multiset(),
    ));
}

/// Serving leaves no more permits than there were.
proof fn lemma_serve_spends<P: Priority>(
    waiting: Seq<QueueEntry<SemaphoreWaiter<P>>>,
    available: int,
)
    ensures
        serve(waiting, available).available <= available,
    decreases waiting.len(),
{
    if waiting.len() == 0 {
    } else if waiting[0].data.count <= available {
        lemma_serve_spends(waiting.skip(1), available - waiting[0].data.count);
    } else if waiting[0].data.waiter.unwanted() {
        lemma_serve_spends(waiting.skip(1), available);
    }
}

/// Serving is done at once: to serve those who are left out of what is left changes nothing.
pub proof fn law_serve_again<P: Priority>(
    waiting: Seq<QueueEntry<SemaphoreWaiter<P>>>,
    available: int,
)
    ensures
        ({
            let service = serve(waiting, available);
            serve(service.waiting, service.available) == (Service {
                granted: Seq::empty(),
                ..service
            })
        }),
    decreases waiting.len(),
{
    let service = serve(waiting, available);
    if waiting.len() == 0 {
    } else if waiting[0].data.count <= available {
        law_serve_again(waiting.skip(1), available - waiting[0].data.count);
    } else if waiting[0].data.waiter.unwanted() {
        let rest = serve(waiting.skip(1), available);
        law_serve_again(waiting.skip(1), available);
        lemma_serve_spends(waiting.skip(1), available);
        assert(service.waiting.skip(1) =~= rest.waiting);
        assert(service.waiting[0] == waiting[0]);
    }
}

proof fn lemma_counts_natural<P: Priority>(entries: Seq<QueueEntry<SemaphoreWaiter<P>>>)
    ensures
        sum_of_counts(entries) >= 0,
    decreases entries.len(),
{
    if entries.len() > 0 {
        lemma_counts_natural(entries.skip(1));
    }
}

/// If there are enough permits for all, everybody is granted theirs.
pub proof fn law_serve_all<P: Priority>(
    waiting: Seq<QueueEntry<SemaphoreWaiter<P>>>,
    available: int,
)
    requires
        sum_of_counts(waiting) <= available,
    ensures
        serve(waiting, available).granted == waiting,
        serve(waiting, available).waiting.len() == 0,
        serve(waiting, available).available == available - sum_of_counts(waiting),
    decreases waiting.len(),
{
    if waiting.len() > 0 {
        lemma_counts_natural(waiting.skip(1));
        law_serve_all(waiting.skip(1), available - waiting[0].data.count);
        assert(seq![waiting[0]] + waiting.skip(1) =~= waiting);
    }
}

/// Who goes on waiting has waited before.
proof fn lemma_served_from<P: Priority>(
    waiting: Seq<QueueEntry<SemaphoreWaiter<P>>>,
    available: int,
    j: int,
) -> (i: int)
    requires
        0 <= j < serve(waiting, available).waiting.len(),
    ensures
        0 <= i < waiting.len(),
        waiting[i] == serve(waiting, available).waiting[j],
    decreases waiting.len(),
{
    let rest = waiting.skip(1);
    if waiting[0].data.count <= available {
        let i = lemma_served_from(rest, available - waiting[0].data.count, j);
        assert(rest[i] == waiting[i + 1]);
        i + 1
    } else if waiting[0].data.waiter.unwanted() && j > 0 {
        let i = lemma_served_from(rest, available, j - 1);
        assert(rest[i] == waiting[i + 1]);
        i + 1
    } else {
        j
    }
}

/// Permits are issued by order of priority: whoever is granted theirs ranks below nobody who goes on
/// waiting, except those who are turned away.
pub proof fn law_serve_by_priority<P: Priority>(
    waiting: Seq<QueueEntry<SemaphoreWaiter<P>>>,
    available: int,
    i: int,
    j: int,
)
    requires
        split_at(waiting, 0),
        queue::sorted(waiting),
        0 <= i < serve(waiting, available).granted.len(),
        0 <= j < serve(waiting, available).waiting.len(),
        !serve(waiting, available).waiting[j].data.waiter.unwanted(),
    ensures
        serve(waiting, available).granted[i].data.priority.order(
            &serve(waiting, available).waiting[j].data.priority,
        ) >= 0,
    decreases waiting.len(),
{
    let service = serve(waiting, available);
    let rest = waiting.skip(1);
    assert forall|a: int| 0 <= a < rest.len() implies !(#[trigger] rest[a]).data.waiter.holds() by {
        assert(rest[a] == waiting[a + 1]);
    }
    assert forall|a: int, b: int| 0 <= a < b < rest.len() implies (#[trigger] rest[a]).data.order(
        &(#[trigger] rest[b]).data,
    ) >= 0 by {
        assert(rest[a] == waiting[a + 1] && rest[b] == waiting[b + 1]);
    }
    if waiting[0].data.count <= available {
        let left = available - waiting[0].data.count;
        if i == 0 {
            let b = lemma_served_from(rest, left, j);
            assert(waiting[b + 1] == rest[b]);
            assert(waiting[0].data.order(&waiting[b + 1].data) >= 0);
        } else {
            assert(service.granted[i] == serve(rest, left).granted[i - 1]);
            law_serve_by_priority(rest, left, i - 1, j);
        }
    } else if waiting[0].data.waiter.unwanted() {
        assert(j > 0);
        assert(service.waiting[j] == serve(rest, available).waiting[j - 1]);
        law_serve_by_priority(rest, available, i, j - 1);
    }
}

/// Granting permits takes them from nobody who has some.
pub proof fn law_granted_keeps_holders<P: Priority>(
    holders: Map<int, SemaphoreWaiter<P>>,
    granted: Seq<QueueEntry<SemaphoreWaiter<P>>>,
    key: int,
)
    ensures
        with_granted(holders, granted).contains_key(key) <==> holders.contains_key(key)
            || queue::has_key(granted, key),
        !queue::has_key(granted, key) && holders.contains_key(key) ==> with_granted(
            holders,
            granted,
        )[key] == holders[key],
    decreases granted.len(),
{
    if granted.len() > 0 {
        let first = granted.drop_last();
        law_granted_keeps_holders(holders, first, key);
        if queue::has_key(first, key) {
            let i = queue::position(first, key);
            assert(first[i].key == key && granted[i] == first[i]);
        }
        if queue::has_key(granted, key) && granted.last().key != key {
            let i = queue::position(granted, key);
            assert(granted[i].key == key && granted[i] == first[i]);
        }
        if granted.last().key == key {
            assert(granted[granted.len() - 1].key == key);
        }
    }
}

/// Whoever is granted permits holds them.
proof fn lemma_granted<P: Priority>(
    holders: Map<int, SemaphoreWaiter<P>>,
    granted: Seq<QueueEntry<SemaphoreWaiter<P>>>,
    key: int,
) -> (i: int)
    requires
        queue::has_key(granted, key),
    ensures
        0 <= i < granted.len(),
        granted[i].key == key,
        with_granted(holders, granted).contains_key(key),
        with_granted(holders, granted)[key] == granted[i].data.started(),
    decreases granted.len(),
{
    if granted.last().key == key {
        granted.len() - 1
    } else {
        let i = queue::position(granted, key);
        assert(granted[i].key == key);
        assert(granted.drop_last()[i] == granted[i]);
        let j = lemma_granted(holders, granted.drop_last(), key);
        assert(granted.drop_last()[j] == granted[j]);
        j
    }
}

/// Serving turns nobody away, and leaves every holder asked to leave who has to be.
pub(crate) proof fn lemma_served_warned<P: Priority>(
    holders: Map<int, SemaphoreWaiter<P>>,
    waiting: Seq<QueueEntry<SemaphoreWaiter<P>>>,
    available: int,
)
    ensures
        on_request(waiting) ==> on_request(serve(waiting, available).waiting),
        priority::lawful::<P>() && split_at(waiting, 0) && queue::sorted(waiting) && warned(
            holders,
            waiting,
        ) ==> warned(
            with_granted(holders, serve(waiting, available).granted),
            serve(waiting, available).waiting,
        ),
{
    let service = serve(waiting, available);
    let after = with_granted(holders, service.granted);
    if on_request(waiting) {
        assert forall|j: int|
            0 <= j < service.waiting.len() && (
            #[trigger] service.waiting[j]).data.waiter.unwanted() implies service.waiting[j].data.within_total by {
            let i = lemma_served_from(waiting, available, j);
        }
    }
    if priority::lawful::<P>() && split_at(waiting, 0) && queue::sorted(waiting) && warned(
        holders,
        waiting,
    ) {
        assert forall|key: int, j: int|
            {
                &&& #[trigger] after.contains_key(key)
                &&& 0 <= j < service.waiting.len()
                &&& !(#[trigger] service.waiting[j]).data.waiter.unwanted()
                &&& service.waiting[j].data.priority.order(&after[key].priority) > 0
            } implies after[key].waiter.unwanted() by {
            law_granted_keeps_holders(holders, service.granted, key);
            if queue::has_key(service.granted, key) {
                let i = lemma_granted(holders, service.granted, key);
                law_serve_by_priority(waiting, available, i, j);
                priority::lemma_lawful_pair(
                    service.waiting[j].data.priority,
                    service.granted[i].data.priority,
                );
            } else {
                let i = lemma_served_from(waiting, available, j);
                assert(holders.contains_key(key));
                assert(!waiting[i].data.waiter.unwanted());
            }
        }
    }
}

/// Whoever is granted permits holds what they asked for, and isn't asked to leave yet.
pub proof fn law_granted_hold<P: Priority>(
    holders: Map<int, SemaphoreWaiter<P>>,
    granted: Seq<QueueEntry<SemaphoreWaiter<P>>>,
    key: int,
)
    requires
        queue::has_key(granted, key),
    ensures
        with_granted(holders, granted).contains_key(key),
        ({
            let holder = with_granted(holders, granted)[key];
            &&& holder.waiter.holds()
            &&& !holder.waiter.unwanted()
            &&& exists|i: int|
                {
                    &&& 0 <= i < granted.len()
                    &&& (#[trigger] granted[i]).key == key
                    &&& holder == granted[i].data.started()
                }
        }),
{
    let i = lemma_granted(holders, granted, key);
    granted[i].data.waiter.lemma_flags();
}

} // verus!
