//! Contains the [PriorityQueue] trait, the provided queues being
//! [ArenaQueue](arena::ArenaQueue) and [BoxQueue](boxed::BoxQueue).
use crate::priority;
use crate::priority::Priority;
use vstd::prelude::*;

pub mod arena;
pub mod boxed;

verus! {

/// The most entries a queue is ever asked to hold. No machine has the memory for so many.
pub const MAX_ENTRIES: usize = usize::MAX / 4;

/// An entry of a queue: its data, and the key by which handles refer to it.
pub struct QueueEntry<P> {
    pub key: int,
    pub data: P,
}

/// Whether one of the entries has the key `key`.
pub open spec fn has_key<P>(entries: Seq<QueueEntry<P>>, key: int) -> bool {
    exists|i: int| 0 <= i < entries.len() && (#[trigger] entries[i]).key == key
}

/// Where the entry with the key `key` stands.
pub open spec fn position<P>(entries: Seq<QueueEntry<P>>, key: int) -> int {
    choose|i: int| 0 <= i < entries.len() && (#[trigger] entries[i]).key == key
}

/// Whether no two entries have the same key.
pub open spec fn unique_keys<P>(entries: Seq<QueueEntry<P>>) -> bool {
    forall|i: int, j: int|
        0 <= i < j < entries.len() ==> (#[trigger] entries[i]).key != (#[trigger] entries[j]).key
}

/// Whether the entries stand in order of priority, the highest first.
pub open spec fn sorted<P: Priority>(entries: Seq<QueueEntry<P>>) -> bool {
    forall|i: int, j: int|
        0 <= i < j < entries.len() ==> (#[trigger] entries[i]).data.order(
            &(#[trigger] entries[j]).data,
        ) >= 0
}

/// Whether `k` is a place for a new entry with data `data`: the entry before that place, if any,
/// does not rank below the new one, and the entry at that place, if any, does not rank above it,
/// or the new one is the equal of the entry before.
pub open spec fn place_for_new<P: Priority>(
    entries: Seq<QueueEntry<P>>,
    k: int,
    data: P,
) -> bool {
    &&& 0 <= k <= entries.len()
    &&& k > 0 && data.comparable(&entries[k - 1].data) ==> data.order_new(&entries[k - 1].data)
        <= 0
    &&& k < entries.len() && data.comparable(&entries[k].data) ==> {
        ||| data.order_new(&entries[k].data) >= 0
        ||| k > 0 && (data.comparable(&entries[k - 1].data) ==> data.order_new(
            &entries[k - 1].data,
        ) == 0)
    }
}

/// Whether `k` is the first place, from `from` on, where the entry with data `data` is not to stand
/// behind the entry that is there: all entries up to that place come before it.
pub open spec fn first_place<P: Priority>(
    entries: Seq<QueueEntry<P>>,
    from: int,
    k: int,
    data: P,
) -> bool {
    &&& from <= k <= entries.len()
    &&& forall|i: int|
        from <= i < k && data.comparable(&(#[trigger] entries[i]).data) ==> data.order_new(
            &entries[i].data,
        ) < 0
    &&& k < entries.len() && data.comparable(&entries[k].data) ==> data.order_new(
        &entries[k].data,
    ) >= 0
}

/// Whether `new` is `old` with one more entry, whose key no other has, at a place for it.
pub open spec fn enqueued<P: Priority>(
    old_entries: Seq<QueueEntry<P>>,
    new_entries: Seq<QueueEntry<P>>,
    key: int,
    data: P,
) -> bool {
    &&& !has_key(old_entries, key)
    &&& exists|k: int|
        {
            &&& #[trigger] place_for_new(old_entries, k, data)
            &&& new_entries == old_entries.insert(k, QueueEntry { key, data })
        }
}

/// Whether `k` is the place for an entry that was taken out of the queue to stand elsewhere: the
/// first one, at the head or, if it ranks below the head, behind it.
pub open spec fn place_for_moved<P: Priority>(
    entries: Seq<QueueEntry<P>>,
    k: int,
    data: P,
) -> bool {
    ||| first_place(entries, 0, k, data)
    ||| {
        &&& entries.len() > 0
        &&& data.comparable(&entries[0].data) ==> data.order(&entries[0].data) < 0
        &&& first_place(entries, 1, k, data)
    }
}

/// Whether the entry at `i` ranks above neither neighbour that stands before it, nor below the one
/// that stands after it.
pub open spec fn fits<P: Priority>(entries: Seq<QueueEntry<P>>, i: int) -> bool {
    let data = entries[i].data;
    &&& i > 0 && data.comparable(&entries[i - 1].data) ==> data.order(&entries[i - 1].data) <= 0
    &&& i + 1 < entries.len() && data.comparable(&entries[i + 1].data) ==> data.order(
        &entries[i + 1].data,
    ) >= 0
}

/// Whether the entry at `i` ranks above the one before it, or below the one after it.
pub open spec fn misplaced<P: Priority>(entries: Seq<QueueEntry<P>>, i: int) -> bool {
    let data = entries[i].data;
    ||| i > 0 && (data.comparable(&entries[i - 1].data) ==> data.order(&entries[i - 1].data) > 0)
    ||| i + 1 < entries.len() && (data.comparable(&entries[i + 1].data) ==> data.order(
        &entries[i + 1].data,
    ) < 0)
}

/// Whether the entry at `i` has no claim to stay: it is misplaced, or it is the first one and does
/// not rank above the one after it.
pub open spec fn may_move<P: Priority>(entries: Seq<QueueEntry<P>>, i: int) -> bool {
    let data = entries[i].data;
    ||| misplaced(entries, i)
    ||| i == 0 && 1 < entries.len() && (data.comparable(&entries[1].data) ==> data.order(
        &entries[1].data,
    ) <= 0)
}

/// Whether `new` is `entries` with the entry at `i` where it belongs: where it stood, if it fits
/// there, or moved to a place for it.
pub open spec fn repositioned<P: Priority>(
    entries: Seq<QueueEntry<P>>,
    new_entries: Seq<QueueEntry<P>>,
    i: int,
) -> bool {
    ||| fits(entries, i) && new_entries == entries
    ||| may_move(entries, i) && exists|k: int|
        {
            &&& #[trigger] place_for_moved(entries.remove(i), k, entries[i].data)
            &&& new_entries == entries.remove(i).insert(k, entries[i])
        }
}

/// Whether `new` is `old` after the data of the entry with the key `key` became `data`, and, if
/// its priority may have changed, the entry went where it belongs.
pub open spec fn updated<P: Priority>(
    old_entries: Seq<QueueEntry<P>>,
    new_entries: Seq<QueueEntry<P>>,
    key: int,
    data: P,
    changed: bool,
) -> bool {
    let i = position(old_entries, key);
    let entries = old_entries.update(i, QueueEntry { key, data });
    if changed {
        repositioned(entries, new_entries, i)
    } else {
        new_entries == entries
    }
}

/// Whether `new` is `old` with the data `data` in the entry with the key `key`, unless the entry is
/// misplaced then.
pub open spec fn kept_unless_misplaced<P: Priority>(
    old_entries: Seq<QueueEntry<P>>,
    new_entries: Seq<QueueEntry<P>>,
    key: int,
    data: P,
) -> bool {
    let i = position(old_entries, key);
    let entries = old_entries.update(i, QueueEntry { key, data });
    new_entries == entries || misplaced(entries, i)
}

/// The "handle" of an entry in a [PriorityQueue].
pub trait PriorityQueueHandle<D: Priority>: Sized {
    /// The key of the entry.
    spec fn key(&self) -> int;
}

/// A handle that lets an entry be looked up and updated, but not removed.
pub trait SharedQueueHandle<D: Priority, H: PriorityQueueHandle<D>>: Sized {
    /// The key of the entry.
    spec fn shared_key(&self) -> int;

    /// The handle itself.
    fn as_ref(&self) -> (handle: &H)
        ensures
            handle.key() == self.shared_key(),
    ;
}

/// A queue which orders its entries by priority, the highest first.
///
/// An enqueued entry gets a handle, by which it can be looked up, even after it was moved, until
/// the handle is given back to [dequeue](PriorityQueue::dequeue). Handles that come from elsewhere
/// mean nothing.
pub trait PriorityQueue<P: Priority>: Sized {
    type Handle: PriorityQueueHandle<P>;

    type SharedHandle: SharedQueueHandle<P, Self::Handle>;

    /// The entries, in the order in which they stand.
    spec fn entries(&self) -> Seq<QueueEntry<P>>;

    /// The invariant of the queue.
    spec fn wf(&self) -> bool;

    /// No two entries have the same key.
    proof fn lemma_unique_keys(&self)
        requires
            self.wf(),
        ensures
            unique_keys(self.entries()),
    ;

    /// A queue without entries.
    fn empty() -> (queue: Self)
        ensures
            queue.wf(),
            queue.entries() == Seq::<QueueEntry<P>>::empty(),
    ;

    /// Enqueue an entry with the provided data. Returns the handle of the entry, which no other
    /// entry has.
    fn enqueue(&mut self, data: P) -> (handle: Self::Handle)
        requires
            old(self).wf(),
            old(self).entries().len() < MAX_ENTRIES,
        ensures
            final(self).wf(),
            enqueued(old(self).entries(), final(self).entries(), handle.key(), data),
    ;

    /// Dequeue an entry by its handle. Returns the data of the entry before it and the handle of
    /// the entry after it.
    fn dequeue(&mut self, handle: Self::Handle) -> (neighbours: (
        Option<&P>,
        Option<Self::SharedHandle>,
    ))
        requires
            old(self).wf(),
            has_key(old(self).entries(), handle.key()),
        ensures
            final(self).wf(),
            final(self).entries() == old(self).entries().remove(
                position(old(self).entries(), handle.key()),
            ),
            ({
                let entries = old(self).entries();
                let i = position(entries, handle.key());
                &&& match neighbours.0 {
                    Some(prev) => i > 0 && *prev == entries[i - 1].data,
                    None => i == 0,
                }
                &&& match neighbours.1 {
                    Some(next) => i + 1 < entries.len() && next.shared_key() == entries[i + 1].key,
                    None => i + 1 == entries.len(),
                }
            }),
    ;

    /// Get the data of an entry by its handle.
    fn get_by_handle(&self, handle: &Self::Handle) -> (data: &P)
        requires
            self.wf(),
            has_key(self.entries(), handle.key()),
        ensures
            *data == self.entries()[position(self.entries(), handle.key())].data,
    ;

    /// The data of the entries, from the one with the provided handle (or from the first one) to
    /// the last.
    fn iter_at(&self, handle: Option<&Self::Handle>) -> (items: Vec<&P>)
        requires
            self.wf(),
            handle is Some ==> has_key(self.entries(), handle->0.key()),
        ensures
            ({
                let start = match handle {
                    Some(h) => position(self.entries(), h.key()),
                    None => 0,
                };
                &&& items@.len() == self.entries().len() - start
                &&& forall|i: int|
                    0 <= i < items@.len() ==> *(#[trigger] items@[i]) == self.entries()[start
                        + i].data
            }),
    ;

    /// The data of the entries.
    fn iter(&self) -> (items: Vec<&P>)
        requires
            self.wf(),
        ensures
            items@.len() == self.entries().len(),
            forall|i: int|
                0 <= i < items@.len() ==> *(#[trigger] items@[i]) == self.entries()[i].data,
    {
        self.iter_at(None)
    }

    /// Returns true if the queue is empty.
    fn is_empty(&self) -> (empty: bool)
        requires
            self.wf(),
        ensures
            empty == (self.entries().len() == 0),
    {
        self.head().is_none()
    }

    /// Update the data of an entry by its handle. `update` returns whether the priority of the
    /// entry may have changed, so that the queue has to consider moving it, and what this function
    /// is to return.
    fn update_node<R, F: FnOnce(&mut P) -> (bool, R)>(
        &mut self,
        handle: &Self::Handle,
        update: F,
    ) -> (result: R)
        requires
            old(self).wf(),
            has_key(old(self).entries(), handle.key()),
            forall|data: &mut P|
                *data == old(self).entries()[position(old(self).entries(), handle.key())].data
                    ==> call_requires(update, (data,)),
        ensures
            final(self).wf(),
            exists|data: &mut P, changed: bool|
                {
                    &&& *data == old(self).entries()[position(
                        old(self).entries(),
                        handle.key(),
                    )].data
                    &&& #[trigger] call_ensures(update, (data,), (changed, result))
                    &&& updated(
                        old(self).entries(),
                        final(self).entries(),
                        handle.key(),
                        *final(data),
                        changed,
                    )
                },
    ;

    /// Get the data of the first entry.
    fn head(&self) -> (data: Option<&P>)
        requires
            self.wf(),
        ensures
            match data {
                Some(d) => self.entries().len() > 0 && *d == self.entries()[0].data,
                None => self.entries().len() == 0,
            },
    {
        match self.head_handle() {
            Some(handle) => {
                proof {
                    self.lemma_unique_keys();
                }
                Some(self.get_by_handle(handle.as_ref()))
            },
            None => None,
        }
    }

    /// Get a handle of the first entry.
    fn head_handle(&self) -> (handle: Option<Self::SharedHandle>)
        requires
            self.wf(),
        ensures
            match handle {
                Some(h) => self.entries().len() > 0 && h.shared_key() == self.entries()[0].key,
                None => self.entries().len() == 0,
            },
    ;

    /// Get a handle of the entry after the one with the provided handle (or None if that is the
    /// last).
    fn get_next_handle(&self, handle: &Self::Handle) -> (next: Option<Self::SharedHandle>)
        requires
            self.wf(),
            has_key(self.entries(), handle.key()),
        ensures
            ({
                let i = position(self.entries(), handle.key());
                match next {
                    Some(h) => i + 1 < self.entries().len() && h.shared_key() == self.entries()[i
                        + 1].key,
                    None => i + 1 == self.entries().len(),
                }
            }),
    ;
}

/// An entry stands where its key is.
pub proof fn lemma_position<P>(entries: Seq<QueueEntry<P>>, i: int)
    requires
        unique_keys(entries),
        0 <= i < entries.len(),
    ensures
        has_key(entries, entries[i].key),
        position(entries, entries[i].key) == i,
{
    let p = position(entries, entries[i].key);
    assert(0 <= p < entries.len() && entries[p].key == entries[i].key);
}

/// A new key can be inserted anywhere.
pub proof fn lemma_insert_key<P>(entries: Seq<QueueEntry<P>>, k: int, entry: QueueEntry<P>)
    requires
        unique_keys(entries),
        0 <= k <= entries.len(),
        !has_key(entries, entry.key),
    ensures
        unique_keys(entries.insert(k, entry)),
        position(entries.insert(k, entry), entry.key) == k,
{
    let after = entries.insert(k, entry);
    assert forall|i: int, j: int| 0 <= i < j < after.len() implies (#[trigger] after[i]).key != (
    #[trigger] after[j]).key by {
        let a = if i < k {
            i
        } else {
            i - 1
        };
        let b = if j < k {
            j
        } else {
            j - 1
        };
        assert(i == k || after[i] == entries[a]);
        assert(j == k || after[j] == entries[b]);
    }
    assert(after[k] == entry);
    lemma_position(after, k);
}

/// The place of an entry that was enqueued.
pub proof fn lemma_place<P: Priority>(
    old_entries: Seq<QueueEntry<P>>,
    new_entries: Seq<QueueEntry<P>>,
    key: int,
    data: P,
) -> (k: int)
    requires
        enqueued(old_entries, new_entries, key, data),
    ensures
        place_for_new(old_entries, k, data),
        new_entries == old_entries.insert(k, QueueEntry { key, data }),
        new_entries[k] == (QueueEntry { key, data }),
{
    choose|k: int|
        {
            &&& #[trigger] place_for_new(old_entries, k, data)
            &&& new_entries == old_entries.insert(k, QueueEntry { key, data })
        }
}

/// A new entry has its data under a key that no other has, and the others stand before and behind
/// it as they did.
pub proof fn law_enqueue<P: Priority>(
    old_entries: Seq<QueueEntry<P>>,
    new_entries: Seq<QueueEntry<P>>,
    key: int,
    data: P,
)
    requires
        enqueued(old_entries, new_entries, key, data),
    ensures
        new_entries.len() == old_entries.len() + 1,
        forall|i: int| 0 <= i < old_entries.len() ==> (#[trigger] old_entries[i]).key != key,
        exists|k: int|
            {
                &&& 0 <= k < new_entries.len()
                &&& (#[trigger] new_entries[k]).key == key
                &&& new_entries[k].data == data
                &&& forall|i: int| 0 <= i < k ==> (#[trigger] new_entries[i]) == old_entries[i]
                &&& forall|i: int|
                    k < i < new_entries.len() ==> (#[trigger] new_entries[i]) == old_entries[i - 1]
            },
{
    let k = lemma_place(old_entries, new_entries, key, data);
    assert(new_entries[k].key == key);
}

/// An update changes the data of one entry, and at most the place of that one: the others stand as
/// they did. It stays where it is if its priority is said to be unchanged, or if it stands behind
/// the head and fits there. Where it goes, whatever stands before it comes before it, and what it
/// stands before does not.
pub proof fn law_update<P: Priority>(
    old_entries: Seq<QueueEntry<P>>,
    new_entries: Seq<QueueEntry<P>>,
    i: int,
    data: P,
    changed: bool,
)
    requires
        unique_keys(old_entries),
        0 <= i < old_entries.len(),
        updated(old_entries, new_entries, old_entries[i].key, data, changed),
    ensures
        exists|k: int|
            {
                &&& 0 <= k < new_entries.len()
                &&& (#[trigger] new_entries[k]).key == old_entries[i].key
                &&& new_entries[k].data == data
                &&& new_entries.remove(k) == old_entries.remove(i)
                &&& !changed ==> k == i
                &&& i > 0 && data.comparable(&old_entries[i - 1].data) && data.order(
                    &old_entries[i - 1].data,
                ) <= 0 && (i + 1 < old_entries.len() ==> data.comparable(&old_entries[i + 1].data)
                    && data.order(&old_entries[i + 1].data) >= 0) ==> k == i
                &&& k != i ==> {
                    &&& forall|j: int|
                        1 <= j < k && data.comparable(&(#[trigger] new_entries[j]).data)
                            ==> data.order_new(&new_entries[j].data) < 0
                    &&& k > 0 && data.comparable(&new_entries[0].data) ==> data.order_new(
                        &new_entries[0].data,
                    ) < 0 || data.order(&new_entries[0].data) < 0
                    &&& k + 1 < new_entries.len() && data.comparable(&new_entries[k + 1].data)
                        ==> data.order_new(&new_entries[k + 1].data) >= 0
                }
            },
{
    let entry = QueueEntry { key: old_entries[i].key, data };
    let entries = old_entries.update(i, entry);
    let rest = old_entries.remove(i);
    lemma_position(old_entries, i);
    assert(entries.remove(i) =~= rest);
    assert(entries.remove(i) =~= old_entries.remove(i));
    if changed && !(fits(entries, i) && new_entries == entries) {
        let k = choose|k: int|
            {
                &&& #[trigger] place_for_moved(entries.remove(i), k, entries[i].data)
                &&& new_entries == entries.remove(i).insert(k, entries[i])
            };
        assert(new_entries[k] == entry);
        assert(new_entries.remove(k) =~= rest);
        assert forall|j: int|
            1 <= j < k && data.comparable(
                &(#[trigger] new_entries[j]).data,
            ) implies data.order_new(&new_entries[j].data) < 0 by {
            assert(new_entries[j] == rest[j]);
        }
        assert(k > 0 ==> new_entries[0] == rest[0]);
        assert(k + 1 < new_entries.len() ==> new_entries[k + 1] == rest[k]);
    } else {
        assert(new_entries[i] == entry);
    }
}

/// Where an entry is kept unless misplaced, it stays where it is if it ranks neither above the one
/// before it nor below the one after it.
pub proof fn law_kept<P: Priority>(
    old_entries: Seq<QueueEntry<P>>,
    new_entries: Seq<QueueEntry<P>>,
    i: int,
    data: P,
)
    requires
        unique_keys(old_entries),
        0 <= i < old_entries.len(),
        kept_unless_misplaced(old_entries, new_entries, old_entries[i].key, data),
        i > 0 ==> data.comparable(&old_entries[i - 1].data) && data.order(
            &old_entries[i - 1].data,
        ) <= 0,
        i + 1 < old_entries.len() ==> data.comparable(&old_entries[i + 1].data) && data.order(
            &old_entries[i + 1].data,
        ) >= 0,
    ensures
        new_entries == old_entries.update(i, QueueEntry { key: old_entries[i].key, data }),
{
    lemma_position(old_entries, i);
}

/// An entry can be found by its key, and only by that.
pub proof fn law_key<P>(entries: Seq<QueueEntry<P>>, key: int)
    requires
        unique_keys(entries),
    ensures
        has_key(entries, key) ==> {
            &&& 0 <= position(entries, key) < entries.len()
            &&& entries[position(entries, key)].key == key
        },
        forall|i: int|
            0 <= i < entries.len() && (#[trigger] entries[i]).key == key ==> has_key(entries, key)
                && position(entries, key) == i,
{
    assert forall|i: int| 0 <= i < entries.len() && (#[trigger] entries[i]).key == key implies has_key(entries, key)
        && position(entries, key) == i by {
        lemma_position(entries, i);
    }
}

/// Removing an entry by the key that it was enqueued with leaves the queue as it was before.
pub proof fn law_dequeue_undoes_enqueue<P: Priority>(
    old_entries: Seq<QueueEntry<P>>,
    new_entries: Seq<QueueEntry<P>>,
    key: int,
    data: P,
)
    requires
        unique_keys(old_entries),
        enqueued(old_entries, new_entries, key, data),
    ensures
        has_key(new_entries, key),
        new_entries[position(new_entries, key)].data == data,
        new_entries.remove(position(new_entries, key)) == old_entries,
{
    let k = lemma_place(old_entries, new_entries, key, data);
    lemma_insert_key(old_entries, k, QueueEntry { key, data });
    assert(new_entries[k] == QueueEntry { key, data });
    assert(new_entries.remove(k) =~= old_entries);
}

/// An entry between two parts of a queue, each in order, is in order where it ranks below none of
/// the first part and above none of the second.
proof fn lemma_insert_sorted<P: Priority>(entries: Seq<QueueEntry<P>>, k: int, entry: QueueEntry<P>)
    requires
        priority::lawful::<P>(),
        sorted(entries),
        0 <= k <= entries.len(),
        k > 0 ==> entry.data.order(&entries[k - 1].data) <= 0,
        k < entries.len() ==> {
            ||| entry.data.order(&entries[k].data) >= 0
            ||| k > 0 && entry.data.order(&entries[k - 1].data) == 0
        },
    ensures
        sorted(entries.insert(k, entry)),
{
    let after = entries.insert(k, entry);
    let data = entry.data;
    assert forall|i: int| 0 <= i < k implies (#[trigger] entries[i]).data.order(&data) >= 0 by {
        let last = entries[k - 1].data;
        priority::lemma_lawful_pair(data, last);
        if i < k - 1 {
            assert(entries[i].data.order(&entries[k - 1].data) >= 0);
            priority::lemma_lawful_chain(entries[i].data, last, data);
        }
    }
    assert forall|i: int| k <= i < entries.len() implies data.order(
        &(#[trigger] entries[i]).data,
    ) >= 0 by {
        let first = entries[k].data;
        if data.order(&first) < 0 {
            let last = entries[k - 1].data;
            assert(entries[k - 1].data.order(&entries[k].data) >= 0);
            priority::lemma_lawful_chain(data, last, first);
        }
        if i > k {
            assert(entries[k].data.order(&entries[i].data) >= 0);
            priority::lemma_lawful_chain(data, first, entries[i].data);
        }
    }
    assert forall|i: int, j: int| 0 <= i < j < after.len() implies (#[trigger] after[i]).data.order(
        &(#[trigger] after[j]).data,
    ) >= 0 by {
        let a = if i < k {
            i
        } else {
            i - 1
        };
        let b = if j < k {
            j
        } else {
            j - 1
        };
        assert(i == k || after[i] == entries[a]);
        assert(j == k || after[j] == entries[b]);
    }
}

/// A queue in order stays so when an entry is enqueued: it is placed after the entries of higher
/// priority and before those of lower priority.
pub proof fn law_enqueue_sorted<P: Priority>(
    old_entries: Seq<QueueEntry<P>>,
    new_entries: Seq<QueueEntry<P>>,
    key: int,
    data: P,
)
    requires
        priority::lawful::<P>(),
        sorted(old_entries),
        enqueued(old_entries, new_entries, key, data),
    ensures
        sorted(new_entries),
{
    let k = lemma_place(old_entries, new_entries, key, data);
    if k > 0 {
        priority::lemma_lawful_pair(data, old_entries[k - 1].data);
    }
    if k < old_entries.len() {
        priority::lemma_lawful_pair(data, old_entries[k].data);
    }
    lemma_insert_sorted(old_entries, k, QueueEntry { key, data });
}

/// A queue in order stays so when an entry is removed.
pub proof fn law_dequeue_sorted<P: Priority>(entries: Seq<QueueEntry<P>>, i: int)
    requires
        sorted(entries),
        0 <= i < entries.len(),
    ensures
        sorted(entries.remove(i)),
{
    let after = entries.remove(i);
    assert forall|a: int, b: int| 0 <= a < b < after.len() implies (#[trigger] after[a]).data.order(
        &(#[trigger] after[b]).data,
    ) >= 0 by {
        let c = if a < i {
            a
        } else {
            a + 1
        };
        let d = if b < i {
            b
        } else {
            b + 1
        };
        assert(after[a] == entries[c]);
        assert(after[b] == entries[d]);
    }
}

/// A queue in order stays so when an entry is updated, provided that where the priority is said to
/// be unchanged, it is.
pub proof fn law_update_sorted<P: Priority>(
    old_entries: Seq<QueueEntry<P>>,
    new_entries: Seq<QueueEntry<P>>,
    key: int,
    data: P,
    changed: bool,
)
    requires
        priority::lawful::<P>(),
        sorted(old_entries),
        has_key(old_entries, key),
        updated(old_entries, new_entries, key, data, changed),
        !changed ==> data.order(&old_entries[position(old_entries, key)].data) == 0,
    ensures
        sorted(new_entries),
{
    let i = position(old_entries, key);
    let was = old_entries[i].data;
    let entry = QueueEntry { key, data };
    let entries = old_entries.update(i, entry);
    let rest = old_entries.remove(i);
    assert(0 <= i < old_entries.len());
    assert(entries.remove(i) =~= rest);
    assert(entries =~= rest.insert(i, entry));
    law_dequeue_sorted(old_entries, i);
    if changed && !(fits(entries, i) && new_entries == entries) {
        let k = choose|k: int|
            {
                &&& #[trigger] place_for_moved(entries.remove(i), k, entries[i].data)
                &&& new_entries == entries.remove(i).insert(k, entries[i])
            };
        if k > 0 {
            priority::lemma_lawful_pair(data, rest[k - 1].data);
        }
        if k < rest.len() {
            priority::lemma_lawful_pair(data, rest[k].data);
        }
        lemma_insert_sorted(rest, k, entry);
    } else {
        priority::lemma_lawful_pair(was, data);
        if i > 0 {
            let prev = old_entries[i - 1].data;
            assert(rest[i - 1] == old_entries[i - 1]);
            assert(old_entries[i - 1].data.order(&old_entries[i].data) >= 0);
            priority::lemma_lawful_pair(data, prev);
            if !changed {
                priority::lemma_lawful_chain(prev, was, data);
            }
        }
        if i < rest.len() {
            let next = old_entries[i + 1].data;
            assert(rest[i] == old_entries[i + 1]);
            assert(old_entries[i].data.order(&old_entries[i + 1].data) >= 0);
            priority::lemma_lawful_pair(data, next);
            if !changed {
                priority::lemma_lawful_chain(data, was, next);
            }
        }
        lemma_insert_sorted(rest, i, entry);
    }
}

/// With a priority like [FIFO](priority::FIFO), a new entry stands after every entry of the same
/// priority.
pub proof fn law_newest_last<P: Priority>(
    old_entries: Seq<QueueEntry<P>>,
    new_entries: Seq<QueueEntry<P>>,
    key: int,
    data: P,
    i: int,
)
    requires
        priority::lawful::<P>(),
        priority::newest_last::<P>(),
        unique_keys(old_entries),
        sorted(old_entries),
        enqueued(old_entries, new_entries, key, data),
        0 <= i < new_entries.len(),
        new_entries[i].key != key,
        new_entries[i].data.order(&data) == 0,
    ensures
        i < position(new_entries, key),
{
    reveal(priority::newest_last);
    law_enqueue_sorted(old_entries, new_entries, key, data);
    let k = lemma_place(old_entries, new_entries, key, data);
    lemma_insert_key(old_entries, k, QueueEntry { key, data });
    assert(new_entries[k].key == key);
    if i > k {
        priority::lemma_lawful_pair(data, new_entries[i].data);
        priority::lemma_lawful_pair(data, old_entries[k].data);
        if k > 0 {
            priority::lemma_lawful_pair(data, old_entries[k - 1].data);
            assert(data.order_new(&old_entries[k - 1].data) != 0);
        }
        assert(data.order_new(&old_entries[k].data) > 0);
        assert(data.order(&old_entries[k].data) > 0);
        assert(old_entries[k] == new_entries[k + 1]);
        if i > k + 1 {
            assert(new_entries[k + 1].data.order(&new_entries[i].data) >= 0);
            priority::lemma_lawful_chain(data, new_entries[k + 1].data, new_entries[i].data);
        }
    }
}

/// With a priority like [LIFO](priority::LIFO), a new entry stands before every entry of the same
/// priority.
pub proof fn law_newest_first<P: Priority>(
    old_entries: Seq<QueueEntry<P>>,
    new_entries: Seq<QueueEntry<P>>,
    key: int,
    data: P,
    i: int,
)
    requires
        priority::lawful::<P>(),
        priority::newest_first::<P>(),
        unique_keys(old_entries),
        sorted(old_entries),
        enqueued(old_entries, new_entries, key, data),
        0 <= i < new_entries.len(),
        new_entries[i].key != key,
        new_entries[i].data.order(&data) == 0,
    ensures
        position(new_entries, key) < i,
{
    reveal(priority::newest_first);
    law_enqueue_sorted(old_entries, new_entries, key, data);
    let k = lemma_place(old_entries, new_entries, key, data);
    lemma_insert_key(old_entries, k, QueueEntry { key, data });
    assert(new_entries[k].key == key);
    if i < k {
        priority::lemma_lawful_pair(data, new_entries[i].data);
        priority::lemma_lawful_pair(data, old_entries[k - 1].data);
        assert(data.order_new(&old_entries[k - 1].data) < 0);
        assert(data.order(&old_entries[k - 1].data) < 0);
        assert(old_entries[k - 1] == new_entries[k - 1]);
        if i < k - 1 {
            assert(new_entries[i].data.order(&new_entries[k - 1].data) >= 0);
            priority::lemma_lawful_chain(
                new_entries[i].data,
                new_entries[k - 1].data,
                data,
            );
        }
    }
}

} // verus!
