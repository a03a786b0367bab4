//! Provides [ArenaQueue], a [PriorityQueue] where entries are placed in an "arena".
//!
//! Instead of having many separate allocations like [BoxQueue](super::boxed::BoxQueue), this
//! places all entries in a single, sequential block of memory.
use crate::priority::{rank, rank_new, Priority};
use crate::queue;
use crate::queue::{
    PriorityQueue, PriorityQueueHandle, QueueEntry, SharedQueueHandle, MAX_ENTRIES,
};
use core::marker::PhantomData;
use vstd::prelude::*;

verus! {

/// The value used in the last node of the queue, in place of the slot of the next one.
pub const SENTINEL: usize = usize::MAX - 1;

/// The value used in nodes that hold no entry.
pub const UNALLOCATED: usize = usize::MAX;

/// Helper trait used for [ArenaQueue] to support both single and dual link lists.
///
/// This isn't intended to be used externally.
pub trait ArenaQueueNode: Sized {
    type Data: Priority;

    /// Whether the node knows the one before it.
    const HAS_PREV: bool;

    spec fn spec_next(&self) -> usize;

    spec fn spec_prev(&self) -> usize;

    spec fn spec_data(&self) -> Option<Self::Data>;

    /// A node that holds no entry.
    fn unallocated() -> (node: Self)
        ensures
            node.spec_next() == UNALLOCATED,
            node.spec_data() is None,
    ;

    /// The slot of the next node.
    fn next(&self) -> (slot: usize)
        ensures
            slot == self.spec_next(),
    ;

    fn set_next(&mut self, val: usize)
        ensures
            final(self).spec_next() == val,
            final(self).spec_prev() == old(self).spec_prev(),
            final(self).spec_data() == old(self).spec_data(),
    ;

    /// The slot of the previous node, or the sentinel if nodes don't know it.
    fn prev(&self) -> (slot: usize)
        ensures
            slot == self.spec_prev(),
            !Self::HAS_PREV ==> slot == SENTINEL,
    ;

    /// Sets the slot of the previous node, if nodes know it.
    fn set_prev(&mut self, val: usize)
        ensures
            Self::HAS_PREV ==> final(self).spec_prev() == val,
            final(self).spec_next() == old(self).spec_next(),
            final(self).spec_data() == old(self).spec_data(),
    ;

    fn data(&self) -> (data: &Self::Data)
        requires
            self.spec_data() is Some,
        ensures
            *data == self.spec_data()->0,
    ;

    fn data_mut(&mut self) -> (data: &mut Option<Self::Data>)
        ensures
            *data == old(self).spec_data(),
            final(self).spec_data() == *final(data),
            final(self).spec_next() == old(self).spec_next(),
            final(self).spec_prev() == old(self).spec_prev(),
    ;
}

/// A single linked (next only) arena queue.
pub type SingleLinkArenaQueue<P> = ArenaQueue<SingleLinkArenaQueueNode<P>>;

/// A dual linked [ArenaQueue].
pub type DualLinkArenaQueue<P> = ArenaQueue<DualLinkArenaQueueNode<P>>;

/// A node for an [ArenaQueue] which links only to the next node.
pub struct SingleLinkArenaQueueNode<D: Priority> {
    next: usize,
    data: Option<D>,
}

impl<D: Priority> ArenaQueueNode for SingleLinkArenaQueueNode<D> {
    type Data = D;

    const HAS_PREV: bool = false;

    closed spec fn spec_next(&self) -> usize {
        self.next
    }

    closed spec fn spec_prev(&self) -> usize {
        SENTINEL
    }

    closed spec fn spec_data(&self) -> Option<D> {
        self.data
    }

    fn unallocated() -> (node: Self) {
        Self { next: UNALLOCATED, data: None }
    }

    fn next(&self) -> (slot: usize) {
        self.next
    }

    fn set_next(&mut self, val: usize) {
        self.next = val;
    }

    fn prev(&self) -> (slot: usize) {
        SENTINEL
    }

    fn set_prev(&mut self, _val: usize) {
    }

    fn data(&self) -> (data: &D) {
        self.data.as_ref().unwrap()
    }

    fn data_mut(&mut self) -> (data: &mut Option<D>) {
        &mut self.data
    }
}

/// A node for an [ArenaQueue] which links to both the previous and next nodes.
pub struct DualLinkArenaQueueNode<P: Priority> {
    next: usize,
    prev: usize,
    data: Option<P>,
}

impl<P: Priority> ArenaQueueNode for DualLinkArenaQueueNode<P> {
    type Data = P;

    const HAS_PREV: bool = true;

    closed spec fn spec_next(&self) -> usize {
        self.next
    }

    closed spec fn spec_prev(&self) -> usize {
        self.prev
    }

    closed spec fn spec_data(&self) -> Option<P> {
        self.data
    }

    fn unallocated() -> (node: Self) {
        Self { next: UNALLOCATED, prev: SENTINEL, data: None }
    }

    fn next(&self) -> (slot: usize) {
        self.next
    }

    fn set_next(&mut self, val: usize) {
        self.next = val;
    }

    fn prev(&self) -> (slot: usize) {
        self.prev
    }

    fn set_prev(&mut self, val: usize) {
        self.prev = val;
    }

    fn data(&self) -> (data: &P) {
        self.data.as_ref().unwrap()
    }

    fn data_mut(&mut self) -> (data: &mut Option<P>) {
        &mut self.data
    }
}

/// An opaque handle to an [ArenaQueue] entry.
pub struct ArenaQueueHandle<N: ArenaQueueNode> {
    offset: usize,
    data: PhantomData<N>,
}

impl<N: ArenaQueueNode> ArenaQueueHandle<N> {
    fn new(offset: usize) -> (handle: Self)
        ensures
            handle.offset == offset,
    {
        Self { offset, data: PhantomData }
    }
}

impl<N: ArenaQueueNode> PriorityQueueHandle<N::Data> for ArenaQueueHandle<N> {
    closed spec fn key(&self) -> int {
        self.offset as int
    }
}

/// An opaque "shared" handle to an [ArenaQueue] entry.
pub struct SharedArenaQueueHandle<N: ArenaQueueNode>(ArenaQueueHandle<N>);

impl<N: ArenaQueueNode> SharedArenaQueueHandle<N> {
    fn maybe_new(offset: usize) -> (handle: Option<Self>)
        ensures
            match handle {
                Some(h) => offset != SENTINEL && h.0.offset == offset,
                None => offset == SENTINEL,
            },
    {
        if offset != SENTINEL {
            Some(Self(ArenaQueueHandle::new(offset)))
        } else {
            None
        }
    }
}

impl<N: ArenaQueueNode> SharedQueueHandle<N::Data, ArenaQueueHandle<N>> for SharedArenaQueueHandle<
    N,
> {
    closed spec fn shared_key(&self) -> int {
        self.0.offset as int
    }

    fn as_ref(&self) -> (handle: &ArenaQueueHandle<N>) {
        &self.0
    }
}

/// An arena queue: instead of having each node as a separate allocation, a block of memory is
/// allocated for all of the nodes.
///
/// The block never shrinks, but grows to accommodate more slots as needed: the amount of slots is
/// always a power of two and is doubled when capacity is exceeded.
pub struct ArenaQueue<N: ArenaQueueNode> {
    /// The slots.
    nodes: Vec<N>,
    /// The count of slots used.
    used: usize,
    /// A slot that may be free. Where it isn't, a free slot is searched from there.
    good: usize,
    /// The slot of the first node.
    head: usize,
    /// The slots in use, in the order in which their nodes are linked.
    order: Ghost<Seq<usize>>,
}

/// Whether `n` is a power of two.
pub open spec fn is_power_of_two(n: nat) -> bool
    decreases n,
{
    n == 1 || (n > 1 && n % 2 == 0 && is_power_of_two(n / 2))
}

/// A sequence without duplicates that holds every number below `n` has at least `n` elements.
proof fn lemma_pigeonhole(s: Seq<usize>, n: nat)
    requires
        s.no_duplicates(),
        n <= usize::MAX,
        forall|i: usize| i < n ==> #[trigger] s.contains(i),
    ensures
        s.len() >= n,
    decreases n,
{
    if n > 0 {
        let last = (n - 1) as usize;
        assert(s.contains(last));
        let at = choose|i: int| 0 <= i < s.len() && s[i] == last;
        let rest = s.remove(at);
        assert forall|i: usize| i < n - 1 implies #[trigger] rest.contains(i) by {
            assert(s.contains(i));
            let j = choose|j: int| 0 <= j < s.len() && s[j] == i;
            if j < at {
                assert(rest[j] == i);
            } else {
                assert(rest[j - 1] == i);
            }
        }
        lemma_pigeonhole(rest, (n - 1) as nat);
    }
}

/// Inserting an element that a sequence does not hold.
proof fn lemma_insert_slot(s: Seq<usize>, k: int, x: usize)
    requires
        s.no_duplicates(),
        0 <= k <= s.len(),
        !s.contains(x),
    ensures
        s.insert(k, x).no_duplicates(),
        forall|y: usize| #[trigger] s.insert(k, x).contains(y) <==> y == x || s.contains(y),
{
    let t = s.insert(k, x);
    assert forall|i: int, j: int| 0 <= i < t.len() && 0 <= j < t.len() && i != j implies t[i]
        != t[j] by {
        let a = if i < k {
            i
        } else {
            i - 1
        };
        let b = if j < k {
            j
        } else {
            j - 1
        };
        assert(i == k || t[i] == s[a]);
        assert(j == k || t[j] == s[b]);
    }
    assert forall|y: usize| #[trigger] t.contains(y) <==> y == x || s.contains(y) by {
        if s.contains(y) {
            let i = choose|i: int| 0 <= i < s.len() && s[i] == y;
            assert(t[if i < k {
                i
            } else {
                i + 1
            }] == y);
        }
        assert(t[k] == x);
    }
}

/// Removing an element of a sequence without duplicates.
proof fn lemma_remove_slot(s: Seq<usize>, k: int)
    requires
        s.no_duplicates(),
        0 <= k < s.len(),
    ensures
        s.remove(k).no_duplicates(),
        forall|y: usize| #[trigger] s.remove(k).contains(y) <==> y != s[k] && s.contains(y),
{
    let t = s.remove(k);
    assert forall|i: int, j: int| 0 <= i < t.len() && 0 <= j < t.len() && i != j implies t[i]
        != t[j] by {
        let a = if i < k {
            i
        } else {
            i + 1
        };
        let b = if j < k {
            j
        } else {
            j + 1
        };
        assert(t[i] == s[a]);
        assert(t[j] == s[b]);
    }
    assert forall|y: usize| #[trigger] t.contains(y) <==> y != s[k] && s.contains(y) by {
        if t.contains(y) {
            let i = choose|i: int| 0 <= i < t.len() && t[i] == y;
            assert(s[if i < k {
                i
            } else {
                i + 1
            }] == y);
        }
        if y != s[k] && s.contains(y) {
            let i = choose|i: int| 0 <= i < s.len() && s[i] == y;
            assert(t[if i < k {
                i
            } else {
                i - 1
            }] == y);
        }
    }
}

impl<N: ArenaQueueNode> ArenaQueue<N> {
    /// The amount of slots.
    pub closed spec fn slots(&self) -> nat {
        self.nodes@.len()
    }

    /// There is a slot for each entry, and the amount of slots is a power of two (or zero, before
    /// the first entry comes).
    pub proof fn law_slots(&self)
        requires
            self.wf(),
        ensures
            self.entries().len() <= self.slots(),
            self.slots() == 0 || is_power_of_two(self.slots()),
    {
    }

    /// The slot of the node before the one at `i`.
    spec fn before(&self, i: int) -> usize {
        if i > 0 {
            self.order@[i - 1]
        } else {
            SENTINEL
        }
    }

    /// The slot of the node at `i`, or the sentinel behind the last one.
    spec fn at(&self, i: int) -> usize {
        if i < self.order@.len() {
            self.order@[i]
        } else {
            SENTINEL
        }
    }

    /// Whether the node at `i` is linked to the ones before and after it.
    spec fn linked(&self, i: int) -> bool {
        let node = self.nodes@[self.order@[i] as int];
        &&& node.spec_next() == self.at(i + 1)
        &&& N::HAS_PREV ==> node.spec_prev() == self.before(i)
    }

    /// Whether the slots in use are linked in order, all other slots but `loose` are free, and
    /// `loose` is in use without being linked.
    spec fn shape(&self, loose: Option<usize>) -> bool {
        &&& self.nodes@.len() <= usize::MAX / 2
        &&& self.nodes@.len() == 0 || is_power_of_two(self.nodes@.len())
        &&& self.nodes@.len() > 0 ==> self.good < self.nodes@.len()
        &&& self.used == self.order@.len() + (if loose is Some {
            1int
        } else {
            0int
        })
        &&& self.used <= self.nodes@.len()
        &&& self.order@.no_duplicates()
        &&& self.head == self.at(0)
        &&& forall|i: int|
            0 <= i < self.order@.len() ==> {
                &&& #[trigger] self.order@[i] < self.nodes@.len()
                &&& self.nodes@[self.order@[i] as int].spec_data() is Some
            }
        &&& forall|i: int| 0 <= i < self.order@.len() ==> #[trigger] self.linked(i)
        &&& forall|s: int|
            0 <= s < self.nodes@.len() && !self.order@.contains(s as usize) && loose != Some(
                s as usize,
            ) ==> {
                &&& (#[trigger] self.nodes@[s]).spec_next() == UNALLOCATED
                &&& self.nodes@[s].spec_data() is None
            }
        &&& loose matches Some(x) ==> {
            &&& x < self.nodes@.len()
            &&& !self.order@.contains(x)
            &&& self.nodes@[x as int].spec_data() is Some
        }
    }

    /// The entry at `i`.
    spec fn entry(&self, i: int) -> QueueEntry<N::Data> {
        QueueEntry {
            key: self.order@[i] as int,
            data: self.nodes@[self.order@[i] as int].spec_data()->0,
        }
    }

    spec fn listed(&self) -> Seq<QueueEntry<N::Data>> {
        Seq::new(self.order@.len(), |i: int| self.entry(i))
    }

    /// Grows the block of nodes.
    fn expand(&mut self)
        requires
            old(self).shape(None),
            old(self).nodes@.len() < MAX_ENTRIES,
            old(self).used == old(self).nodes@.len(),
        ensures
            final(self).shape(None),
            final(self).order@ == old(self).order@,
            final(self).listed() == old(self).listed(),
            final(self).used < final(self).nodes@.len(),
            final(self).nodes@.len() == (if old(self).nodes@.len() == 0 {
                4
            } else {
                2 * old(self).nodes@.len()
            }),
    {
        let old_size: usize = self.nodes.len();
        let new_size: usize = if old_size == 0 {
            4
        } else {
            old_size * 2
        };
        let ghost before = *self;
        while self.nodes.len() < new_size
            invariant
                old_size == before.nodes@.len(),
                old_size <= self.nodes@.len() <= new_size,
                self.used == before.used,
                self.good == before.good,
                self.head == before.head,
                self.order@ == before.order@,
                forall|s: int|
                    0 <= s < old_size ==> #[trigger] self.nodes@[s] == before.nodes@[s],
                forall|s: int|
                    old_size <= s < self.nodes@.len() ==> (#[trigger] self.nodes@[s]).spec_next()
                        == UNALLOCATED && self.nodes@[s].spec_data() is None,
            decreases new_size - self.nodes@.len(),
        {
            self.nodes.push(N::unallocated());
        }
        self.good = old_size;
        proof {
            reveal_with_fuel(is_power_of_two, 4);
            assert(is_power_of_two(4));
            if old_size > 0 {
                assert(new_size as nat / 2 == old_size as nat);
                assert(is_power_of_two(new_size as nat));
            }
            assert(self.listed() =~= before.listed());
            assert forall|i: int| 0 <= i < self.order@.len() implies #[trigger] self.linked(i) by {
                assert(before.linked(i));
            }
        }
    }

    /// Whether `other` has the same slots, with the same data in them.
    spec fn same_data(&self, other: &Self) -> bool {
        &&& self.nodes@.len() == other.nodes@.len()
        &&& forall|s: int|
            0 <= s < self.nodes@.len() ==> (#[trigger] self.nodes@[s]).spec_data()
                == other.nodes@[s].spec_data()
    }

    /// Whether `after` is `before` with the links of the nodes around `k` set for `offset` to stand
    /// at `k`.
    spec fn links_set(before: Self, after: Self, offset: usize, k: int) -> bool {
        &&& after.same_data(&before)
        &&& forall|s: int|
            0 <= s < before.nodes@.len() ==> (#[trigger] after.nodes@[s]).spec_next() == (if s
                == offset {
                before.at(k)
            } else if k > 0 && s == before.order@[k - 1] {
                offset
            } else {
                before.nodes@[s].spec_next()
            })
        &&& N::HAS_PREV ==> forall|s: int|
            0 <= s < before.nodes@.len() ==> (#[trigger] after.nodes@[s]).spec_prev() == (if s
                == offset {
                before.before(k)
            } else if k < before.order@.len() && s == before.order@[k] {
                offset
            } else {
                before.nodes@[s].spec_prev()
            })
        &&& after.head == (if k == 0 {
            offset
        } else {
            before.head
        })
        &&& after.order@ == before.order@.insert(k, offset)
        &&& after.used == before.used
        &&& after.good == before.good
    }

    proof fn lemma_link(before: Self, after: Self, offset: usize, k: int)
        requires
            before.shape(Some(offset)),
            0 <= k <= before.order@.len(),
            Self::links_set(before, after, offset, k),
        ensures
            after.shape(None),
            after.listed() == before.listed().insert(
                k,
                QueueEntry {
                    key: offset as int,
                    data: before.nodes@[offset as int].spec_data()->0,
                },
            ),
    {
        let len = before.order@.len();
        lemma_insert_slot(before.order@, k, offset);
        assert forall|i: int| 0 <= i < after.order@.len() implies {
            &&& #[trigger] after.order@[i] < after.nodes@.len()
            &&& after.nodes@[after.order@[i] as int].spec_data() is Some
        } by {
            if i < k {
                assert(after.order@[i] == before.order@[i]);
            } else if i > k {
                assert(after.order@[i] == before.order@[i - 1]);
            }
        }
        assert forall|i: int| 0 <= i < after.order@.len() implies #[trigger] after.linked(i) by {
            if i < k {
                assert(before.linked(i));
                assert(after.order@[i] == before.order@[i]);
                if i + 1 < k {
                    assert(after.order@[i + 1] == before.order@[i + 1]);
                }
                if i > 0 {
                    assert(after.order@[i - 1] == before.order@[i - 1]);
                }
            } else if i > k {
                assert(before.linked(i - 1));
                assert(after.order@[i] == before.order@[i - 1]);
                if i < len {
                    assert(after.order@[i + 1] == before.order@[i]);
                }
                if i - 1 > k {
                    assert(after.order@[i - 1] == before.order@[i - 2]);
                }
            }
        }
        assert(after.listed() =~= before.listed().insert(
            k,
            QueueEntry {
                key: offset as int,
                data: before.nodes@[offset as int].spec_data()->0,
            },
        ));
    }

    /// Links the loose node `offset` behind the node `prev`, or as the first one.
    fn link(&mut self, offset: usize, prev: Option<usize>, Ghost(k): Ghost<int>)
        requires
            old(self).shape(Some(offset)),
            0 <= k <= old(self).order@.len(),
            match prev {
                Some(p) => k > 0 && p == old(self).order@[k - 1],
                None => k == 0,
            },
        ensures
            final(self).shape(None),
            final(self).order@ == old(self).order@.insert(k, offset),
            final(self).same_data(old(self)),
            final(self).listed() == old(self).listed().insert(
                k,
                QueueEntry {
                    key: offset as int,
                    data: old(self).nodes@[offset as int].spec_data()->0,
                },
            ),
    {
        let ghost before = *self;
        proof {
            if k > 0 {
                assert(before.linked(k - 1));
            }
        }
        let next: usize = match prev {
            Some(p) => self.nodes[p].next(),
            None => self.head,
        };
        assert(next == before.at(k));
        self.nodes[offset].set_next(next);
        self.nodes[offset].set_prev(
            match prev {
                Some(p) => p,
                None => SENTINEL,
            },
        );
        if next != SENTINEL {
            self.nodes[next].set_prev(offset);
        }
        match prev {
            Some(p) => {
                self.nodes[p].set_next(offset);
            },
            None => {
                self.head = offset;
            },
        }
        self.order = Ghost(before.order@.insert(k, offset));
        proof {
            Self::lemma_link(before, *self, offset, k);
        }
    }

    /// Whether `after` is `before` with the links of the nodes around `i` set for the node at `i`
    /// to stand there no more.
    spec fn links_cut(before: Self, after: Self, i: int) -> bool {
        let offset = before.order@[i];
        &&& after.same_data(&before)
        &&& forall|s: int|
            0 <= s < before.nodes@.len() ==> (#[trigger] after.nodes@[s]).spec_next() == (if i > 0
                && s == before.order@[i - 1] {
                before.at(i + 1)
            } else {
                before.nodes@[s].spec_next()
            })
        &&& N::HAS_PREV ==> forall|s: int|
            0 <= s < before.nodes@.len() ==> (#[trigger] after.nodes@[s]).spec_prev() == (if i + 1
                < before.order@.len() && s == before.order@[i + 1] {
                before.before(i)
            } else {
                before.nodes@[s].spec_prev()
            })
        &&& after.head == (if i == 0 {
            before.at(1)
        } else {
            before.head
        })
        &&& after.order@ == before.order@.remove(i)
        &&& after.used == before.used
        &&& after.good == before.good
    }

    proof fn lemma_unlink(before: Self, after: Self, i: int)
        requires
            before.shape(None),
            0 <= i < before.order@.len(),
            Self::links_cut(before, after, i),
        ensures
            after.shape(Some(before.order@[i])),
            after.listed() == before.listed().remove(i),
    {
        let len = before.order@.len();
        lemma_remove_slot(before.order@, i);
        assert forall|j: int| 0 <= j < after.order@.len() implies {
            &&& #[trigger] after.order@[j] < after.nodes@.len()
            &&& after.nodes@[after.order@[j] as int].spec_data() is Some
        } by {
            if j < i {
                assert(after.order@[j] == before.order@[j]);
            } else {
                assert(after.order@[j] == before.order@[j + 1]);
            }
        }
        assert forall|j: int| 0 <= j < after.order@.len() implies #[trigger] after.linked(j) by {
            if j < i {
                assert(before.linked(j));
                assert(after.order@[j] == before.order@[j]);
                if j + 1 < i {
                    assert(after.order@[j + 1] == before.order@[j + 1]);
                } else if i + 1 < len {
                    assert(after.order@[j + 1] == before.order@[i + 1]);
                }
                if j > 0 {
                    assert(after.order@[j - 1] == before.order@[j - 1]);
                }
            } else {
                assert(before.linked(j + 1));
                assert(after.order@[j] == before.order@[j + 1]);
                if j + 2 < len {
                    assert(after.order@[j + 1] == before.order@[j + 2]);
                }
                if j > i {
                    assert(after.order@[j - 1] == before.order@[j]);
                } else if j > 0 {
                    assert(after.order@[j - 1] == before.order@[j - 1]);
                }
            }
        }
        assert(after.listed() =~= before.listed().remove(i));
    }

    /// Takes the node `offset`, which stands behind the node `prev` or first, out of the list.
    /// Returns what stood after it.
    fn unlink(&mut self, offset: usize, prev: Option<usize>, Ghost(i): Ghost<int>) -> (next: usize)
        requires
            old(self).shape(None),
            0 <= i < old(self).order@.len(),
            offset == old(self).order@[i],
            match prev {
                Some(p) => i > 0 && p == old(self).order@[i - 1],
                None => i == 0,
            },
        ensures
            final(self).shape(Some(offset)),
            final(self).order@ == old(self).order@.remove(i),
            final(self).same_data(old(self)),
            final(self).listed() == old(self).listed().remove(i),
            next == old(self).at(i + 1),
    {
        let ghost before = *self;
        proof {
            assert(before.linked(i));
        }
        let next: usize = self.nodes[offset].next();
        if N::HAS_PREV && next != SENTINEL {
            let offset_prev: usize = self.nodes[offset].prev();
            self.nodes[next].set_prev(offset_prev);
        }
        match prev {
            Some(p) => {
                self.nodes[p].set_next(next);
            },
            None => {
                self.head = next;
            },
        }
        self.order = Ghost(before.order@.remove(i));
        proof {
            Self::lemma_unlink(before, *self, i);
        }
        next
    }

    /// Assumes that the node definitely has a previous node (i.e. is not head).
    fn prev_for(&self, offset: usize, Ghost(i): Ghost<int>) -> (prev: usize)
        requires
            self.shape(None),
            0 < i < self.order@.len(),
            offset == self.order@[i],
        ensures
            prev == self.order@[i - 1],
    {
        proof {
            assert(self.linked(i));
            assert(self.linked(i - 1));
        }
        if N::HAS_PREV {
            return self.nodes[offset].prev();
        }
        // need to search for the previous node
        let mut slot: usize = 0;
        while self.nodes[slot].next() != offset
            invariant
                self.shape(None),
                0 < i < self.order@.len(),
                offset == self.order@[i],
                self.nodes@[self.order@[i - 1] as int].spec_next() == offset,
                slot <= self.order@[i - 1],
            decreases self.nodes@.len() - slot,
        {
            slot = slot + 1;
        }
        proof {
            if !self.order@.contains(slot) {
                assert(self.nodes@[slot as int].spec_next() == UNALLOCATED);
            }
            let j = choose|j: int| 0 <= j < self.order@.len() && self.order@[j] == slot;
            assert(self.linked(j));
            assert(self.at(j + 1) == self.order@[i]);
        }
        slot
    }

    /// Links the loose node `offset` at the first place where it is not to stand behind the node that
    /// is there. The search for it starts behind the node `after`, which is known to stand before
    /// that place, or at the head.
    fn insert(&mut self, offset: usize, after: Option<usize>, Ghost(j): Ghost<int>) -> (k: Ghost<int>)
        requires
            old(self).shape(Some(offset)),
            after matches Some(a) ==> 0 <= j < old(self).order@.len() && a == old(self).order@[j],
        ensures
            final(self).shape(None),
            final(self).nodes@.len() == old(self).nodes@.len(),
            ({
                let entries = old(self).listed();
                let data = old(self).nodes@[offset as int].spec_data()->0;
                &&& final(self).listed() == entries.insert(
                    k@,
                    QueueEntry { key: offset as int, data },
                )
                &&& queue::first_place(
                    entries,
                    if after is Some {
                        j + 1
                    } else {
                        0
                    },
                    k@,
                    data,
                )
            }),
    {
        let ghost entries = self.listed();
        let ghost data = self.nodes@[offset as int].spec_data()->0;
        let ghost mut at: int = j;
        let mut prev: usize = match after {
            Some(slot) => slot,
            None => {
                if self.head == SENTINEL {
                    // the queue is empty
                    assert(self.order@.len() == 0) by {
                        if self.order@.len() > 0 {
                            assert(self.order@[0] < self.nodes@.len());
                        }
                    }
                    self.link(offset, None, Ghost(0));
                    return Ghost(0);
                }
                // check whether the node can be placed before the current head
                assert(self.order@.len() > 0);
                assert(self.order@[0] < self.nodes@.len());
                if rank_new(self.nodes[offset].data(), self.nodes[self.head].data()) >= 0 {
                    self.link(offset, None, Ghost(0));
                    return Ghost(0);
                }
                proof {
                    at = 0;
                }
                self.head
            },
        };
        // iterate until we find a node to place the new one after
        let mut found: bool = false;
        while !found && self.nodes[prev].next() != SENTINEL
            invariant
                self.shape(Some(offset)),
                *self == *old(self),
                0 <= at < self.order@.len(),
                prev == self.order@[at],
                entries == self.listed(),
                data == self.nodes@[offset as int].spec_data()->0,
                after is Some ==> at >= j,
                forall|i: int|
                    (if after is Some {
                        j + 1
                    } else {
                        0
                    }) <= i <= at && data.comparable(&(#[trigger] entries[i]).data)
                        ==> data.order_new(&entries[i].data) < 0,
                found ==> at + 1 < entries.len() && (data.comparable(&entries[at + 1].data)
                    ==> data.order_new(&entries[at + 1].data) >= 0),
            decreases self.order@.len() - at, (if found { 0int } else { 1int }),
        {
            proof {
                assert(self.linked(at));
                assert(self.at(at + 1) != SENTINEL);
                assert(self.order@[at + 1] < self.nodes@.len());
                assert(entries[at + 1] == self.entry(at + 1));
            }
            let next: usize = self.nodes[prev].next();
            if rank_new(self.nodes[offset].data(), self.nodes[next].data()) >= 0 {
                found = true;
            } else {
                prev = next;
                proof {
                    at = at + 1;
                }
            }
        }
        proof {
            assert(self.linked(at));
            if at + 1 < self.order@.len() {
                assert(self.order@[at + 1] < self.nodes@.len());
            }
        }
        self.link(offset, Some(prev), Ghost(at + 1));
        Ghost(at + 1)
    }

    /// Whether `k` is where an entry with data `data` goes if the search for a place starts behind the
    /// entry at `j`, or at the head: directly behind it, if it is of the same priority, or else, if
    /// it comes before the new one, at the first place from there on.
    pub open spec fn placed_behind(
        entries: Seq<QueueEntry<N::Data>>,
        j: int,
        k: int,
        data: N::Data,
    ) -> bool {
        ||| {
            &&& j >= 0
            &&& data.comparable(&entries[j].data) ==> data.order_new(&entries[j].data) == 0
            &&& k == j + 1
        }
        ||| {
            &&& j >= 0 && data.comparable(&entries[j].data) ==> data.order_new(&entries[j].data) < 0
            &&& queue::first_place(entries, j + 1, k, data)
        }
    }

    /// Puts the data in a free slot, without linking it. Returns the slot, plus (if found while
    /// searching for the slot) a node that stands before the place for the new one, and whether
    /// that node has the same priority, so that the new node can stand immediately after it.
    fn emplace(&mut self, data: N::Data) -> (placed: (usize, Option<usize>, bool))
        requires
            old(self).shape(None),
            old(self).used < old(self).nodes@.len(),
        ensures
            ({
                let (slot, prev, found) = placed;
                &&& final(self).shape(Some(slot))
                &&& final(self).nodes@.len() == old(self).nodes@.len()
                &&& final(self).order@ == old(self).order@
                &&& final(self).listed() == old(self).listed()
                &&& final(self).nodes@[slot as int].spec_data() == Some(data)
                &&& found ==> prev is Some
                &&& prev matches Some(p) ==> {
                    &&& final(self).order@.contains(p)
                    &&& ({
                        let prev_data = final(self).nodes@[p as int].spec_data()->0;
                        data.comparable(&prev_data) ==> if found {
                            data.order_new(&prev_data) == 0
                        } else {
                            data.order_new(&prev_data) < 0
                        }
                    })
                }
            }),
    {
        let ghost before = *self;
        let mut highest_prev: Option<usize> = None;
        let mut found_prev: bool = false;
        let size: usize = self.nodes.len();
        let start: usize = self.good;
        let mut slot: usize = start;
        let ghost mut wrapped: bool = false;
        while self.nodes[slot].next() != UNALLOCATED
            invariant
                *self == before,
                self.shape(None),
                self.used < size == self.nodes@.len(),
                start < size,
                slot < size,
                if wrapped {
                    slot <= start
                } else {
                    start <= slot
                },
                forall|s: usize|
                    start <= s < size && (wrapped || s < slot) ==> #[trigger] self.order@.contains(
                        s,
                    ),
                forall|s: usize| wrapped && s < slot ==> #[trigger] self.order@.contains(s),
                found_prev ==> highest_prev is Some,
                highest_prev matches Some(p) ==> {
                    &&& self.order@.contains(p)
                    &&& ({
                        let prev_data = self.nodes@[p as int].spec_data()->0;
                        data.comparable(&prev_data) ==> if found_prev {
                            data.order_new(&prev_data) == 0
                        } else {
                            data.order_new(&prev_data) < 0
                        }
                    })
                },
            decreases
                    if wrapped {
                        start - slot
                    } else {
                        size - slot + start
                    },
        {
            let node: usize = slot;
            proof {
                assert(self.order@.contains(node)) by {
                    if !self.order@.contains(node) {
                        assert(self.nodes@[node as int].spec_next() == UNALLOCATED);
                    }
                }
                if wrapped && slot == start {
                    lemma_pigeonhole(self.order@, size as nat);
                }
                let j = choose|j: int| 0 <= j < self.order@.len() && self.order@[j] == node;
                assert(self.nodes@[self.order@[j] as int].spec_data() is Some);
            }
            if slot + 1 == size {
                slot = 0;
                proof {
                    if wrapped {
                        lemma_pigeonhole(self.order@, size as nat);
                    }
                    wrapped = true;
                }
            } else {
                slot = slot + 1;
            }
            if !found_prev {
                let outcome: i8 = rank_new(&data, self.nodes[node].data());
                if outcome == 0 {
                    highest_prev = Some(node);
                    found_prev = true;
                } else if outcome < 0 {
                    match highest_prev {
                        Some(p) => {
                            proof {
                                let j = choose|j: int|
                                    0 <= j < self.order@.len() && self.order@[j] == p;
                                assert(self.nodes@[self.order@[j] as int].spec_data() is Some);
                            }
                            if rank(self.nodes[node].data(), self.nodes[p].data()) > 0 {
                                highest_prev = Some(node);
                            }
                        },
                        None => {
                            highest_prev = Some(node);
                        },
                    }
                }
            }
        }
        proof {
            assert(!self.order@.contains(slot)) by {
                if self.order@.contains(slot) {
                    let j = choose|j: int| 0 <= j < self.order@.len() && self.order@[j] == slot;
                    assert(self.linked(j));
                    if j + 1 < self.order@.len() {
                        assert(self.order@[j + 1] < self.nodes@.len());
                    }
                }
            }
        }
        self.good = if slot + 1 == size {
            0
        } else {
            slot + 1
        };
        self.used = self.used + 1;
        *self.nodes[slot].data_mut() = Some(data);
        proof {
            assert forall|i: int| 0 <= i < self.order@.len() implies #[trigger] self.linked(i) by {
                assert(before.linked(i));
                assert(self.order@[i] != slot);
            }
            assert(self.listed() =~= before.listed());
        }
        (slot, highest_prev, found_prev)
    }

    /// Takes the node `offset` out of where it stands, behind the node `prev` or first, to stand
    /// at a place for it.
    fn reposition(&mut self, offset: usize, prev: Option<usize>, Ghost(i): Ghost<int>)
        requires
            old(self).shape(None),
            0 <= i < old(self).order@.len(),
            offset == old(self).order@[i],
            match prev {
                Some(p) => i > 0 && p == old(self).order@[i - 1],
                None => {
                    &&& i == 0
                    &&& old(self).order@.len() > 1
                    &&& ({
                        let data = old(self).listed()[0].data;
                        let next = old(self).listed()[1].data;
                        data.comparable(&next) ==> data.order(&next) < 0
                    })
                },
            },
        ensures
            final(self).shape(None),
            final(self).nodes@.len() == old(self).nodes@.len(),
            exists|k: int|
                {
                    &&& #[trigger] queue::place_for_moved(
                        old(self).listed().remove(i),
                        k,
                        old(self).listed()[i].data,
                    )
                    &&& final(self).listed() == old(self).listed().remove(i).insert(
                        k,
                        old(self).listed()[i],
                    )
                },
    {
        let ghost entries = self.listed();
        let ghost slots = self.order@;
        self.unlink(offset, prev, Ghost(i));
        let after: Option<usize> = match prev {
            Some(_) => None,
            // the node stood first and its place is further behind, so it is not before the one
            // that is first now
            None => {
                assert(self.order@[0] == slots[1]);
                Some(self.head)
            },
        };
        let k = self.insert(offset, after, Ghost(0));
        proof {
            assert(queue::place_for_moved(entries.remove(i), k@, entries[i].data)) by {
                if i == 0 {
                    assert(entries.remove(i)[0] == entries[1]);
                }
            }
        }
    }
}

impl<N: ArenaQueueNode> PriorityQueue<N::Data> for ArenaQueue<N> {
    type Handle = ArenaQueueHandle<N>;

    type SharedHandle = SharedArenaQueueHandle<N>;

    closed spec fn entries(&self) -> Seq<QueueEntry<N::Data>> {
        self.listed()
    }

    closed spec fn wf(&self) -> bool {
        self.shape(None)
    }

    proof fn lemma_unique_keys(&self) {
        assert forall|i: int, j: int| 0 <= i < j < self.entries().len() implies (
        #[trigger] self.entries()[i]).key != (#[trigger] self.entries()[j]).key by {
            assert(self.order@[i] != self.order@[j]);
        }
    }

    fn empty() -> (queue: Self) {
        let queue = Self {
            nodes: Vec::new(),
            used: 0,
            good: 0,
            head: SENTINEL,
            order: Ghost(Seq::empty()),
        };
        assert(queue.listed() =~= Seq::empty());
        queue
    }

    fn enqueue(&mut self, data: N::Data) -> (handle: ArenaQueueHandle<N>)
        ensures
            final(self).slots() == (if old(self).entries().len() < old(self).slots() {
                old(self).slots()
            } else if old(self).slots() == 0 {
                4
            } else {
                2 * old(self).slots()
            }),
            exists|j: int, k: int|
                {
                    &&& -1 <= j < old(self).entries().len()
                    &&& #[trigger] Self::placed_behind(old(self).entries(), j, k, data)
                    &&& final(self).entries() == old(self).entries().insert(
                        k,
                        QueueEntry { key: handle.key(), data },
                    )
                },
    {
        let ghost entries = self.listed();
        if self.nodes.len() == self.used {
            self.expand();
        }
        let (offset, highest_prev, found_prev) = self.emplace(data);
        let handle = ArenaQueueHandle::new(offset);
        proof {
            assert(!queue::has_key(entries, handle.key())) by {
                if queue::has_key(entries, handle.key()) {
                    let i = queue::position(entries, handle.key());
                    assert(self.order@[i] == offset);
                }
            }
        }
        let ghost at: int = match highest_prev {
            Some(p) => choose|i: int| 0 <= i < self.order@.len() && self.order@[i] == p,
            None => 0,
        };
        if found_prev {
            // while placing our node, we found a node we can place it directly after
            self.link(offset, highest_prev, Ghost(at + 1));
            assert(queue::place_for_new(entries, at + 1, data));
            assert(Self::placed_behind(entries, at, at + 1, data));
        } else {
            let k = self.insert(offset, highest_prev, Ghost(at));
            assert(queue::place_for_new(entries, k@, data));
            assert(Self::placed_behind(
                entries,
                if highest_prev is Some {
                    at
                } else {
                    -1
                },
                k@,
                data,
            ));
        }
        handle
    }

    fn dequeue(&mut self, handle: ArenaQueueHandle<N>) -> (neighbours: (
        Option<&N::Data>,
        Option<SharedArenaQueueHandle<N>>,
    ))
        ensures
            final(self).slots() == old(self).slots(),
    {
        let ghost before = *self;
        let ghost entries = self.listed();
        let ghost i = queue::position(entries, handle.key());
        let offset: usize = handle.offset;
        proof {
            assert(entries[i].key == handle.key());
            assert(self.order@[i] == offset);
            if i > 0 {
                assert(self.order@[0] != self.order@[i]);
            }
        }
        // is the target node the head node? if so we don't need to search for previous (as it
        // can't have one)
        let prev: Option<usize> = if offset == self.head {
            None
        } else {
            Some(self.prev_for(offset, Ghost(i)))
        };
        let next: usize = self.unlink(offset, prev, Ghost(i));
        let ghost loose = *self;
        self.good = offset;
        self.used = self.used - 1;
        *self.nodes[offset].data_mut() = None;
        self.nodes[offset].set_next(UNALLOCATED);
        proof {
            assert forall|j: int| 0 <= j < self.order@.len() implies #[trigger] self.linked(j) by {
                assert(loose.linked(j));
                assert(self.order@[j] != offset);
            }
            assert(self.listed() =~= loose.listed());
            if i + 1 < before.order@.len() {
                assert(before.order@[i + 1] < before.nodes@.len());
            }
            if i > 0 {
                assert(self.order@[i - 1] == before.order@[i - 1]);
            }
        }
        (
            match prev {
                Some(p) => Some(self.nodes[p].data()),
                None => None,
            },
            SharedArenaQueueHandle::maybe_new(next),
        )
    }

    fn get_by_handle(&self, handle: &ArenaQueueHandle<N>) -> (data: &N::Data) {
        proof {
            let i = queue::position(self.listed(), handle.key());
            assert(self.listed()[i].key == handle.key());
            assert(self.order@[i] == handle.offset);
        }
        self.nodes[handle.offset].data()
    }

    fn iter_at(&self, handle: Option<&ArenaQueueHandle<N>>) -> (items: Vec<&N::Data>) {
        let ghost entries = self.listed();
        let ghost start: int = match handle {
            Some(h) => queue::position(entries, h.key()),
            None => 0,
        };
        let mut items: Vec<&N::Data> = Vec::new();
        let mut slot: usize = match handle {
            Some(h) => {
                proof {
                    assert(entries[start].key == h.key());
                }
                h.offset
            },
            None => self.head,
        };
        while slot != SENTINEL
            invariant
                self.shape(None),
                entries == self.listed(),
                0 <= start,
                start + items@.len() <= entries.len(),
                slot == self.at(start + items@.len()),
                forall|i: int|
                    0 <= i < items@.len() ==> *(#[trigger] items@[i]) == entries[start + i].data,
            ensures
                start + items@.len() == entries.len(),
            decreases entries.len() - items@.len(),
        {
            let ghost at: int = start + items@.len();
            proof {
                assert(at < entries.len());
                assert(self.order@[at] < self.nodes@.len());
                assert(self.linked(at));
                assert(entries[at] == self.entry(at));
            }
            items.push(self.nodes[slot].data());
            slot = self.nodes[slot].next();
        }
        proof {
            if start + items@.len() < entries.len() {
                assert(self.order@[start + items@.len()] < self.nodes@.len());
            }
        }
        items
    }

    fn update_node<R, F: FnOnce(&mut N::Data) -> (bool, R)>(
        &mut self,
        handle: &ArenaQueueHandle<N>,
        update: F,
    ) -> (result: R)
        ensures
            final(self).slots() == old(self).slots(),
            exists|data: &mut N::Data, changed: bool|
                {
                    let i = queue::position(old(self).entries(), handle.key());
                    &&& *data == old(self).entries()[i].data
                    &&& #[trigger] call_ensures(update, (data,), (changed, result))
                    &&& queue::updated(
                        old(self).entries(),
                        final(self).entries(),
                        handle.key(),
                        *final(data),
                        changed,
                    )
                    &&& queue::kept_unless_misplaced(
                        old(self).entries(),
                        final(self).entries(),
                        handle.key(),
                        *final(data),
                    )
                },
    {
        let ghost before = *self;
        let ghost entries = self.listed();
        let ghost i = queue::position(entries, handle.key());
        let offset: usize = handle.offset;
        proof {
            assert(entries[i].key == handle.key());
            assert(self.order@[i] == offset);
        }
        let (changed, result) = update(self.nodes[offset].data_mut().as_mut().unwrap());
        let ghost data = self.nodes@[offset as int].spec_data()->0;
        let ghost changed_entries = entries.update(i, QueueEntry { key: handle.key(), data });
        assert(exists|d: &mut N::Data|
            {
                &&& *d == entries[i].data
                &&& *final(d) == data
                &&& #[trigger] call_ensures(update, (d,), (changed, result))
            });
        proof {
            assert forall|j: int| 0 <= j < self.order@.len() implies #[trigger] self.linked(j) by {
                assert(before.linked(j));
            }
            assert(self.shape(None));
            assert(self.listed() =~= changed_entries) by {
                assert forall|j: int| 0 <= j < entries.len() implies #[trigger] self.listed()[j]
                    == changed_entries[j] by {
                    if j != i {
                        assert(self.order@[j] != self.order@[i]);
                    }
                }
            }
        }
        if !changed {
            return result;
        }
        let prev: Option<usize> = if offset == self.head {
            None
        } else {
            Some(self.prev_for(offset, Ghost(i)))
        };
        proof {
            assert(self.linked(i));
            if i + 1 < self.order@.len() {
                assert(self.order@[i + 1] < self.nodes@.len());
                assert(self.listed()[i + 1] == self.entry(i + 1));
            }
            if i > 0 {
                assert(self.listed()[i - 1] == self.entry(i - 1));
            }
            assert(self.listed()[i] == self.entry(i));
        }
        let next: usize = self.nodes[offset].next();
        // check if the current position is valid after the previous node
        let above_prev: bool = match prev {
            Some(p) => rank(self.nodes[offset].data(), self.nodes[p].data()) > 0,
            None => false,
        };
        // check if the current position is valid before the next
        if above_prev || (next != SENTINEL && rank(
            self.nodes[offset].data(),
            self.nodes[next].data(),
        ) < 0) {
            self.reposition(offset, prev, Ghost(i));
        }
        proof {
            assert(queue::repositioned(changed_entries, self.listed(), i));
            assert(queue::updated(entries, self.listed(), handle.key(), data, changed));
        }
        result
    }

    fn head_handle(&self) -> (handle: Option<SharedArenaQueueHandle<N>>) {
        proof {
            if self.order@.len() > 0 {
                assert(self.order@[0] < self.nodes@.len());
                assert(self.listed()[0] == self.entry(0));
            }
        }
        let handle = SharedArenaQueueHandle::maybe_new(self.head);
        assert(handle is Some ==> handle->0.shared_key() == self.entries()[0].key);
        handle
    }

    fn get_next_handle(&self, handle: &ArenaQueueHandle<N>) -> (next: Option<
        SharedArenaQueueHandle<N>,
    >) {
        proof {
            let i = queue::position(self.listed(), handle.key());
            assert(self.listed()[i].key == handle.key());
            assert(self.order@[i] == handle.offset);
            assert(self.linked(i));
            if i + 1 < self.order@.len() {
                assert(self.order@[i + 1] < self.nodes@.len());
            }
        }
        SharedArenaQueueHandle::maybe_new(self.nodes[handle.offset].next())
    }
}

impl<N: ArenaQueueNode> Default for ArenaQueue<N> {
    fn default() -> (queue: Self)
        ensures
            queue.wf(),
            queue.entries() == Seq::<QueueEntry<N::Data>>::empty(),
    {
        Self::empty()
    }
}

} // verus!
