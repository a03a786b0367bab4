//! Provides [BoxQueue], where entries are each allocated via [Box].
//!
//! This is usually slower than [ArenaQueue](super::arena::ArenaQueue), however it is usually a bit
//! more memory efficient, as nodes are deallocated when they are removed.
use crate::priority::{rank, rank_new, Priority};
use crate::queue;
use crate::queue::{PriorityQueue, PriorityQueueHandle, QueueEntry, SharedQueueHandle, MAX_ENTRIES};
use core::marker::PhantomData;
use vstd::prelude::*;

verus! {

/// A helper trait for [BoxQueue] to allow for both single and dual-link queues.
///
/// This is not intended to be used publicly.
pub trait BoxQueueNode: Sized {
    type Data: Priority;

    /// Whether the node knows the one before it.
    const HAS_PREV: bool;

    spec fn spec_id(&self) -> usize;

    spec fn spec_data(&self) -> Self::Data;

    spec fn spec_prev(&self) -> Option<usize>;

    fn new(id: usize, data: Self::Data) -> (node: Self)
        ensures
            node.spec_id() == id,
            node.spec_data() == data,
    ;

    /// The number by which handles refer to the node.
    fn id(&self) -> (id: usize)
        ensures
            id == self.spec_id(),
    ;

    fn data(&self) -> (data: &Self::Data)
        ensures
            *data == self.spec_data(),
    ;

    fn data_mut(&mut self) -> (data: &mut Self::Data)
        ensures
            *data == old(self).spec_data(),
            final(self).spec_data() == *final(data),
            final(self).spec_id() == old(self).spec_id(),
            final(self).spec_prev() == old(self).spec_prev(),
    ;

    /// The number of the previous node, or None if nodes don't know it.
    fn prev(&self) -> (prev: Option<usize>)
        ensures
            prev == self.spec_prev(),
            !Self::HAS_PREV ==> prev is None,
    ;

    /// Sets the number of the previous node, if nodes know it.
    fn set_prev(&mut self, prev: Option<usize>)
        ensures
            Self::HAS_PREV ==> final(self).spec_prev() == prev,
            final(self).spec_id() == old(self).spec_id(),
            final(self).spec_data() == old(self).spec_data(),
    ;
}

/// A node for [BoxQueue] which only links to next.
pub struct SingleLinkBoxQueueNode<P: Priority> {
    id: usize,
    data: P,
}

impl<P: Priority> BoxQueueNode for SingleLinkBoxQueueNode<P> {
    type Data = P;

    const HAS_PREV: bool = false;

    closed spec fn spec_id(&self) -> usize {
        self.id
    }

    closed spec fn spec_data(&self) -> P {
        self.data
    }

    closed spec fn spec_prev(&self) -> Option<usize> {
        None
    }

    fn new(id: usize, data: P) -> (node: Self) {
        Self { id, data }
    }

    fn id(&self) -> (id: usize) {
        self.id
    }

    fn data(&self) -> (data: &P) {
        &self.data
    }

    fn data_mut(&mut self) -> (data: &mut P) {
        &mut self.data
    }

    fn prev(&self) -> (prev: Option<usize>) {
        None
    }

    fn set_prev(&mut self, _prev: Option<usize>) {
    }
}

/// A node for [BoxQueue] which links to both the previous and next nodes.
pub struct DualLinkBoxQueueNode<P: Priority> {
    id: usize,
    data: P,
    prev: Option<usize>,
}

impl<P: Priority> BoxQueueNode for DualLinkBoxQueueNode<P> {
    type Data = P;

    const HAS_PREV: bool = true;

    closed spec fn spec_id(&self) -> usize {
        self.id
    }

    closed spec fn spec_data(&self) -> P {
        self.data
    }

    closed spec fn spec_prev(&self) -> Option<usize> {
        self.prev
    }

    fn new(id: usize, data: P) -> (node: Self) {
        Self { id, data, prev: None }
    }

    fn id(&self) -> (id: usize) {
        self.id
    }

    fn data(&self) -> (data: &P) {
        &self.data
    }

    fn data_mut(&mut self) -> (data: &mut P) {
        &mut self.data
    }

    fn prev(&self) -> (prev: Option<usize>) {
        self.prev
    }

    fn set_prev(&mut self, prev: Option<usize>) {
        self.prev = prev;
    }
}

/// An opaque handle to a [BoxQueue] node.
pub struct BoxQueueHandle<N: BoxQueueNode> {
    id: usize,
    node: PhantomData<N>,
}

impl<N: BoxQueueNode> PriorityQueueHandle<N::Data> for BoxQueueHandle<N> {
    closed spec fn key(&self) -> int {
        self.id as int
    }
}

/// An opaque "shared" handle to a [BoxQueue] node.
pub struct SharedBoxQueueHandle<N: BoxQueueNode>(BoxQueueHandle<N>);

impl<N: BoxQueueNode> SharedQueueHandle<N::Data, BoxQueueHandle<N>> for SharedBoxQueueHandle<N> {
    closed spec fn shared_key(&self) -> int {
        self.0.id as int
    }

    fn as_ref(&self) -> (handle: &BoxQueueHandle<N>) {
        &self.0
    }
}

/// A node and the one after it.
struct BoxLink<N> {
    node: N,
    next: Option<Box<BoxLink<N>>>,
}

/// The nodes from `head` on.
spec fn chain<N>(head: Option<Box<BoxLink<N>>>) -> Seq<N>
    decreases head,
{
    match head {
        Some(link) => seq![link.node] + chain(link.next),
        None => seq![],
    }
}

/// The entries in the nodes.
spec fn entries_of<N: BoxQueueNode>(nodes: Seq<N>) -> Seq<QueueEntry<N::Data>> {
    Seq::new(
        nodes.len(),
        |i: int| QueueEntry { key: nodes[i].spec_id() as int, data: nodes[i].spec_data() },
    )
}

/// A single linked (next only) [BoxQueue].
pub type SingleLinkBoxQueue<P> = BoxQueue<SingleLinkBoxQueueNode<P>>;

/// A dual linked [BoxQueue].
pub type DualLinkBoxQueue<P> = BoxQueue<DualLinkBoxQueueNode<P>>;

/// A queue where nodes are independently allocated via Box.
///
/// This is usually slower than an arena queue, but is more memory efficient as the memory used for
/// each node is deallocated once the node is removed. What stays is its number, to be given anew.
pub struct BoxQueue<N: BoxQueueNode> {
    head: Option<Box<BoxLink<N>>>,
    /// How many numbers were given to nodes.
    issued: usize,
    /// The numbers of removed nodes, to be given anew.
    retired: Vec<usize>,
}

/// The place of the `k`-th node.
fn place_at<N>(head: &mut Option<Box<BoxLink<N>>>, k: usize) -> (place: &mut Option<
    Box<BoxLink<N>>,
>)
    requires
        k <= chain(*old(head)).len(),
    ensures
        chain(*place) == chain(*old(head)).skip(k as int),
        chain(*final(head)) == chain(*old(head)).take(k as int) + chain(*final(place)),
{
    let ghost all = chain(*head);
    let mut place = &mut *head;
    let mut i: usize = 0;
    assert(all.take(0) =~= Seq::empty());
    assert(all.skip(0) =~= all);
    while i < k
        invariant
            i <= k <= all.len(),
            all == chain(*old(head)),
            chain(*place) == all.skip(i as int),
            chain(after_borrow(*head)) == all.take(i as int) + chain(*final(place)),
        decreases k - i,
    {
        let ghost rest = all.skip(i as int);
        assert(rest[0] == all[i as int]);
        match place {
            Some(link) => {
                let ghost node = link.node;
                place = &mut link.next;
                assert(rest == seq![node] + chain(*place));
                assert(chain(*place) =~= rest.skip(1));
                assert(rest.skip(1) =~= all.skip(i + 1));
                assert(all.take(i + 1) =~= all.take(i as int) + seq![node]);
                assert(all.take(i + 1) + chain(*final(place)) =~= all.take(i as int) + (seq![node]
                    + chain(*final(place))));
            },
            None => {
                assert(false);
            },
        }
        i = i + 1;
    }
    place
}

/// The `k`-th node.
fn node_at<N>(head: &Option<Box<BoxLink<N>>>, k: usize) -> (node: &N)
    requires
        k < chain(*head).len(),
    ensures
        *node == chain(*head)[k as int],
{
    let ghost all = chain(*head);
    let mut place = head;
    let mut i: usize = 0;
    assert(all.skip(0) =~= all);
    loop
        invariant
            i <= k < all.len(),
            all == chain(*head),
            chain(*place) == all.skip(i as int),
        decreases k - i,
    {
        assert(all.skip(i as int)[0] == all[i as int]);
        match place {
            Some(link) => {
                assert(chain(link.next) =~= all.skip(i as int).skip(1));
                assert(all.skip(i as int).skip(1) =~= all.skip(i + 1));
                if i == k {
                    return &link.node;
                }
                place = &link.next;
            },
            None => {
                assert(false);
            },
        }
        i = i + 1;
    }
}

impl<N: BoxQueueNode> BoxQueue<N> {
    spec fn nodes(&self) -> Seq<N> {
        chain(self.head)
    }

    /// Whether the nodes know the ones before them.
    spec fn linked(nodes: Seq<N>) -> bool {
        N::HAS_PREV ==> forall|i: int|
            0 <= i < nodes.len() ==> (#[trigger] nodes[i]).spec_prev() == Self::id_before(nodes, i)
    }

    /// The number of the node before the `i`-th.
    spec fn id_before(nodes: Seq<N>, i: int) -> Option<usize> {
        if i > 0 {
            Some(nodes[i - 1].spec_id())
        } else {
            None
        }
    }

    /// Whether the number `id` is that of none of the nodes and retired numbers, though smaller
    /// than the count of issued ones.
    spec fn is_spare(&self, id: usize) -> bool {
        &&& id < self.issued
        &&& forall|i: int| 0 <= i < self.nodes().len() ==> (#[trigger] self.nodes()[i]).spec_id() != id
        &&& !self.retired@.contains(id)
    }

    /// Whether the numbers are in order, `spare` of them being neither in use nor retired.
    spec fn numbered(&self, spare: nat) -> bool {
        &&& self.issued == self.nodes().len() + self.retired@.len() + spare
        &&& self.retired@.no_duplicates()
        &&& forall|i: int| 0 <= i < self.retired@.len() ==> #[trigger] self.retired@[i] < self.issued
        &&& forall|i: int|
            0 <= i < self.nodes().len() ==> {
                &&& (#[trigger] self.nodes()[i]).spec_id() < self.issued
                &&& !self.retired@.contains(self.nodes()[i].spec_id())
            }
        &&& forall|i: int, j: int|
            0 <= i < j < self.nodes().len() ==> (#[trigger] self.nodes()[i]).spec_id() != (
            #[trigger] self.nodes()[j]).spec_id()
    }

    spec fn shape(&self, spare: nat) -> bool {
        &&& Self::linked(self.nodes())
        &&& self.numbered(spare)
    }

    spec fn listed(&self) -> Seq<QueueEntry<N::Data>> {
        entries_of(self.nodes())
    }

    /// Puts a node at the place `k`.
    fn splice(&mut self, k: usize, link: Box<BoxLink<N>>)
        requires
            old(self).shape(1),
            old(self).is_spare(link.node.spec_id()),
            k <= old(self).nodes().len(),
        ensures
            final(self).shape(0),
            final(self).issued == old(self).issued,
            final(self).retired == old(self).retired,
            final(self).listed() == old(self).listed().insert(
                k as int,
                QueueEntry { key: link.node.spec_id() as int, data: link.node.spec_data() },
            ),
    {
        let ghost before = *self;
        let ghost nodes = self.nodes();
        let mut link: Box<BoxLink<N>> = link;
        let id: usize = link.node.id();
        let prev: Option<usize> = if k > 0 {
            Some(node_at(&self.head, k - 1).id())
        } else {
            None
        };
        link.node.set_prev(prev);
        let ghost node = link.node;
        let place = place_at(&mut self.head, k);
        let mut rest: Option<Box<BoxLink<N>>> = place.take();
        let ghost tail = chain(rest);
        match rest.as_mut() {
            Some(next) => {
                next.node.set_prev(Some(id));
            },
            None => {},
        }
        let ghost new_tail = chain(rest);
        assert(new_tail.len() == tail.len());
        assert(forall|i: int| 1 <= i < tail.len() ==> new_tail[i] == tail[i]);
        link.next = rest;
        *place = Some(link);
        proof {
            let after = self.nodes();
            assert(tail =~= nodes.skip(k as int));
            assert(after == nodes.take(k as int) + (seq![node] + new_tail));
            assert forall|i: int| 0 <= i < k implies #[trigger] after[i] == nodes[i] by {}
            assert(after[k as int] == node);
            assert forall|i: int| k + 1 < i < after.len() implies #[trigger] after[i] == nodes[i
                - 1] by {}
            assert forall|i: int| k < i < after.len() implies {
                &&& (#[trigger] after[i]).spec_id() == nodes[i - 1].spec_id()
                &&& after[i].spec_data() == nodes[i - 1].spec_data()
            } by {
                if i == k + 1 {
                    assert(after[i] == new_tail[0]);
                    assert(tail[0] == nodes[k as int]);
                }
            }
            assert(Self::linked(after));
            assert(self.listed() =~= before.listed().insert(
                k as int,
                QueueEntry { key: id as int, data: node.spec_data() },
            ));
            assert(self.numbered(0));
        }
    }

    /// Takes the `k`-th node out of the queue.
    fn cut(&mut self, k: usize) -> (link: Box<BoxLink<N>>)
        requires
            old(self).shape(0),
            k < old(self).nodes().len(),
        ensures
            final(self).shape(1),
            final(self).issued == old(self).issued,
            final(self).retired == old(self).retired,
            final(self).listed() == old(self).listed().remove(k as int),
            link.node == old(self).nodes()[k as int],
            final(self).is_spare(link.node.spec_id()),
    {
        let ghost before = *self;
        let ghost nodes = self.nodes();
        let place = place_at(&mut self.head, k);
        assert(nodes.skip(k as int)[0] == nodes[k as int]);
        let mut link: Box<BoxLink<N>> = place.take().unwrap();
        let mut rest: Option<Box<BoxLink<N>>> = link.next.take();
        let ghost tail = chain(rest);
        match rest.as_mut() {
            Some(next) => {
                next.node.set_prev(link.node.prev());
            },
            None => {},
        }
        let ghost new_tail = chain(rest);
        assert(new_tail.len() == tail.len());
        assert(forall|i: int| 1 <= i < tail.len() ==> new_tail[i] == tail[i]);
        *place = rest;
        proof {
            let after = self.nodes();
            assert(tail =~= nodes.skip(k + 1)) by {
                assert(nodes.skip(k as int) == seq![link.node] + tail);
                assert(tail =~= nodes.skip(k as int).skip(1));
            }
            assert(after == nodes.take(k as int) + new_tail);
            assert forall|i: int| 0 <= i < k implies #[trigger] after[i] == nodes[i] by {}
            assert forall|i: int| k < i < after.len() implies #[trigger] after[i] == nodes[i
                + 1] by {}
            assert forall|i: int| k <= i < after.len() implies {
                &&& (#[trigger] after[i]).spec_id() == nodes[i + 1].spec_id()
                &&& after[i].spec_data() == nodes[i + 1].spec_data()
            } by {
                if i == k {
                    assert(after[i] == new_tail[0]);
                    assert(tail[0] == nodes[k + 1]);
                }
            }
            assert(Self::linked(after));
            assert(self.listed() =~= before.listed().remove(k as int));
            assert(self.numbered(1));
        }
        link
    }

    /// Puts a node at the first place where it is not to stand behind the node that is there.
    fn insert(&mut self, link: Box<BoxLink<N>>) -> (k: usize)
        requires
            old(self).shape(1),
            old(self).is_spare(link.node.spec_id()),
        ensures
            final(self).shape(0),
            final(self).issued == old(self).issued,
            final(self).retired == old(self).retired,
            k <= old(self).listed().len(),
            final(self).listed() == old(self).listed().insert(
                k as int,
                QueueEntry { key: link.node.spec_id() as int, data: link.node.spec_data() },
            ),
            queue::first_place(old(self).listed(), 0, k as int, link.node.spec_data()),
    {
        let ghost entries = self.listed();
        let ghost nodes = self.nodes();
        let ghost data = link.node.spec_data();
        let mut k: usize = 0;
        let mut place = &self.head;
        let mut found: bool = false;
        assert(nodes.skip(0) =~= nodes);
        while !found
            invariant
                nodes == self.nodes(),
                entries == self.listed(),
                nodes.len() < usize::MAX,
                data == link.node.spec_data(),
                k <= nodes.len(),
                chain(*place) == nodes.skip(k as int),
                forall|i: int|
                    0 <= i < k && data.comparable(&(#[trigger] entries[i]).data)
                        ==> data.order_new(&entries[i].data) < 0,
                found && k < entries.len() && data.comparable(&entries[k as int].data)
                    ==> data.order_new(&entries[k as int].data) >= 0,
            decreases nodes.len() - k, (if found { 0int } else { 1int }),
        {
            match place {
                Some(next) => {
                    assert(chain(*place) == seq![next.node] + chain(next.next));
                    assert(nodes.skip(k as int)[0] == nodes[k as int]);
                    if rank_new(link.node.data(), next.node.data()) >= 0 {
                        found = true;
                    } else {
                        assert(chain(next.next) =~= nodes.skip(k as int).skip(1));
                        assert(nodes.skip(k as int).skip(1) =~= nodes.skip(k + 1));
                        place = &next.next;
                        k = k + 1;
                    }
                },
                None => {
                    found = true;
                },
            }
        }
        self.splice(k, link);
        k
    }

    /// Where the node with the number `id` stands.
    fn locate(&self, id: usize) -> (k: usize)
        requires
            self.shape(0),
            queue::has_key(self.listed(), id as int),
        ensures
            k == queue::position(self.listed(), id as int),
            k < self.nodes().len(),
            self.nodes()[k as int].spec_id() == id,
    {
        let ghost nodes = self.nodes();
        let ghost at = queue::position(self.listed(), id as int);
        assert(self.listed()[at].key == id);
        let mut k: usize = 0;
        let mut place = &self.head;
        assert(nodes.skip(0) =~= nodes);
        loop
            invariant
                self.shape(0),
                nodes == self.nodes(),
                0 <= at < nodes.len(),
                at == queue::position(self.listed(), id as int),
                nodes[at].spec_id() == id,
                k <= at,
                chain(*place) == nodes.skip(k as int),
            decreases at - k,
        {
            match place {
                Some(link) => {
                    assert(nodes.skip(k as int)[0] == nodes[k as int]);
                    if link.node.id() == id {
                        assert(k == at);
                        return k;
                    }
                    assert(chain(link.next) =~= nodes.skip(k as int).skip(1));
                    assert(nodes.skip(k as int).skip(1) =~= nodes.skip(k + 1));
                    place = &link.next;
                },
                None => {
                    assert(nodes.skip(k as int)[0] == nodes[k as int]);
                },
            }
            k = k + 1;
        }
    }

    /// A handle of the `k`-th node.
    fn handle_at(&self, k: usize) -> (handle: Option<SharedBoxQueueHandle<N>>)
        requires
            self.shape(0),
            k <= self.nodes().len(),
        ensures
            match handle {
                Some(h) => k < self.listed().len() && h.shared_key() == self.listed()[k as int].key,
                None => k == self.listed().len(),
            },
    {
        if k < self.issued - self.retired.len() {
            Some(
                SharedBoxQueueHandle(
                    BoxQueueHandle { id: node_at(&self.head, k).id(), node: PhantomData },
                ),
            )
        } else {
            None
        }
    }
}

impl<N: BoxQueueNode> PriorityQueue<N::Data> for BoxQueue<N> {
    type Handle = BoxQueueHandle<N>;

    type SharedHandle = SharedBoxQueueHandle<N>;

    closed spec fn entries(&self) -> Seq<QueueEntry<N::Data>> {
        self.listed()
    }

    closed spec fn wf(&self) -> bool {
        self.shape(0)
    }

    proof fn lemma_unique_keys(&self) {
        assert forall|i: int, j: int| 0 <= i < j < self.entries().len() implies (
        #[trigger] self.entries()[i]).key != (#[trigger] self.entries()[j]).key by {
            assert(self.nodes()[i].spec_id() != self.nodes()[j].spec_id());
        }
    }

    fn empty() -> (queue: Self) {
        let queue = Self { head: None, issued: 0, retired: Vec::new() };
        assert(queue.listed() =~= Seq::empty());
        queue
    }

    fn enqueue(&mut self, data: N::Data) -> (handle: BoxQueueHandle<N>)
        ensures
            exists|k: int|
                {
                    &&& #[trigger] queue::first_place(old(self).entries(), 0, k, data)
                    &&& final(self).entries() == old(self).entries().insert(
                        k,
                        QueueEntry { key: handle.key(), data },
                    )
                },
    {
        let ghost before = *self;
        let ghost entries = self.listed();
        let id: usize = match self.retired.pop() {
            Some(id) => id,
            None => {
                let id: usize = self.issued;
                self.issued = self.issued + 1;
                id
            },
        };
        proof {
            assert(self.shape(1));
            assert(self.is_spare(id));
            assert(!queue::has_key(entries, id as int)) by {
                if queue::has_key(entries, id as int) {
                    let i = queue::position(entries, id as int);
                    assert(self.nodes()[i].spec_id() == id);
                }
            }
        }
        let k: usize = self.insert(Box::new(BoxLink { node: N::new(id, data), next: None }));
        assert(queue::place_for_new(entries, k as int, data));
        BoxQueueHandle { id, node: PhantomData }
    }

    fn dequeue(&mut self, handle: BoxQueueHandle<N>) -> (neighbours: (
        Option<&N::Data>,
        Option<SharedBoxQueueHandle<N>>,
    )) {
        let ghost entries = self.listed();
        let k: usize = self.locate(handle.id);
        let link: Box<BoxLink<N>> = self.cut(k);
        let ghost cut = *self;
        self.retired.push(link.node.id());
        proof {
            assert(self.listed() == cut.listed());
            assert(self.shape(0));
            assert(self.listed().len() == self.nodes().len());
            if k > 0 {
                assert(self.listed()[k - 1] == entries[k - 1]);
            }
            if k + 1 < entries.len() {
                assert(self.listed()[k as int] == entries[k + 1]);
            }
        }
        let prev: Option<&N::Data> = if k > 0 {
            Some(node_at(&self.head, k - 1).data())
        } else {
            None
        };
        (prev, self.handle_at(k))
    }

    fn get_by_handle(&self, handle: &BoxQueueHandle<N>) -> (data: &N::Data) {
        node_at(&self.head, self.locate(handle.id)).data()
    }

    fn iter_at(&self, handle: Option<&BoxQueueHandle<N>>) -> (items: Vec<&N::Data>) {
        let ghost nodes = self.nodes();
        let start: usize = match handle {
            Some(h) => {
                assert(h.key() == h.id);
                self.locate(h.id)
            },
            None => 0,
        };
        let mut items: Vec<&N::Data> = Vec::new();
        let mut place = &self.head;
        let mut k: usize = 0;
        assert(nodes.skip(0) =~= nodes);
        loop
            invariant
                nodes == self.nodes(),
                nodes.len() <= usize::MAX,
                start <= nodes.len(),
                k <= nodes.len(),
                chain(*place) == nodes.skip(k as int),
                items@.len() == (if k < start {
                    0int
                } else {
                    k - start
                }),
                forall|i: int|
                    0 <= i < items@.len() ==> *(#[trigger] items@[i]) == nodes[start
                        + i].spec_data(),
            ensures
                k == nodes.len(),
            decreases nodes.len() - k,
        {
            match place {
                Some(link) => {
                    assert(chain(*place) == seq![link.node] + chain(link.next));
                    assert(nodes.skip(k as int)[0] == nodes[k as int]);
                    assert(chain(link.next) =~= nodes.skip(k as int).skip(1));
                    assert(nodes.skip(k as int).skip(1) =~= nodes.skip(k + 1));
                    if k >= start {
                        items.push(link.node.data());
                    }
                    place = &link.next;
                    k = k + 1;
                },
                None => {
                    break;
                },
            }
        }
        items
    }

    fn update_node<R, F: FnOnce(&mut N::Data) -> (bool, R)>(
        &mut self,
        handle: &BoxQueueHandle<N>,
        update: F,
    ) -> (result: R)
        ensures
            exists|data: &mut N::Data, changed: bool|
                {
                    let i = queue::position(old(self).entries(), handle.key());
                    &&& *data == old(self).entries()[i].data
                    &&& #[trigger] call_ensures(update, (data,), (changed, result))
                    &&& queue::updated(
                        old(self).entries(),
                        final(self).entries(),
                        handle.key(),
                        *final(data),
                        changed,
                    )
                    &&& N::HAS_PREV ==> queue::kept_unless_misplaced(
                        old(self).entries(),
                        final(self).entries(),
                        handle.key(),
                        *final(data),
                    )
                },
    {
        let ghost before = *self;
        let ghost entries = self.listed();
        let ghost nodes = self.nodes();
        let k: usize = self.locate(handle.id);
        assert(nodes.skip(k as int)[0] == nodes[k as int]);
        let link = place_at(&mut self.head, k).as_mut().unwrap();
        let ghost tail = chain(link.next);
        let (changed, result) = update(link.node.data_mut());
        let ghost data = self.nodes()[k as int].spec_data();
        let ghost changed_entries = entries.update(
            k as int,
            QueueEntry { key: handle.key(), data },
        );
        assert(exists|d: &mut N::Data|
            {
                &&& *d == entries[k as int].data
                &&& *final(d) == data
                &&& #[trigger] call_ensures(update, (d,), (changed, result))
            });
        proof {
            let after = self.nodes();
            assert(nodes.skip(k as int) == seq![nodes[k as int]] + tail);
            assert(tail =~= nodes.skip(k as int).skip(1));
            assert(after =~= nodes.take(k as int) + (seq![after[k as int]] + tail));
            assert forall|i: int| 0 <= i < nodes.len() && i != k implies #[trigger] after[i]
                == nodes[i] by {}
            assert(after[k as int].spec_id() == nodes[k as int].spec_id());
            assert(Self::linked(after));
            assert(self.numbered(0));
            assert(self.listed() =~= changed_entries);
        }
        if !changed {
            return result;
        }
        let len: usize = self.issued - self.retired.len();
        let misplaced: bool = if N::HAS_PREV || k > 0 {
            // the current location is good if the priorities are: prev >= curr >= next
            (k > 0 && rank(node_at(&self.head, k).data(), node_at(&self.head, k - 1).data()) > 0)
                || (k + 1 < len && rank(
                node_at(&self.head, k).data(),
                node_at(&self.head, k + 1).data(),
            ) < 0)
        } else {
            k + 1 < len && rank(node_at(&self.head, k).data(), node_at(&self.head, k + 1).data())
                <= 0
        };
        if misplaced {
            let link: Box<BoxLink<N>> = self.cut(k);
            let place: usize = self.insert(link);
            assert(queue::place_for_moved(
                changed_entries.remove(k as int),
                place as int,
                data,
            ));
        }
        proof {
            assert(queue::repositioned(changed_entries, self.listed(), k as int));
            assert(queue::updated(entries, self.listed(), handle.key(), data, changed));
        }
        result
    }

    fn head_handle(&self) -> (handle: Option<SharedBoxQueueHandle<N>>) {
        let handle = self.handle_at(0);
        assert(handle is Some ==> handle->0.shared_key() == self.entries()[0].key);
        handle
    }

    fn is_empty(&self) -> (empty: bool) {
        self.head.is_none()
    }

    fn get_next_handle(&self, handle: &BoxQueueHandle<N>) -> (next: Option<
        SharedBoxQueueHandle<N>,
    >) {
        self.handle_at(self.locate(handle.id) + 1)
    }
}

/// A new entry takes the first place where it is not to stand behind the entry that is there: all
/// entries before it come before it. The others stand as they did.
pub proof fn law_enqueue_first<N: BoxQueueNode>(
    queue: &mut BoxQueue<N>,
    data: N::Data,
    handle: BoxQueueHandle<N>,
)
    requires
        old(queue).wf(),
        old(queue).entries().len() < MAX_ENTRIES,
        call_ensures(BoxQueue::<N>::enqueue, (queue, data), handle),
    ensures
        final(queue).entries().len() == old(queue).entries().len() + 1,
        exists|k: int|
            {
                &&& 0 <= k < final(queue).entries().len()
                &&& (#[trigger] final(queue).entries()[k]).key == handle.key()
                &&& final(queue).entries()[k].data == data
                &&& forall|i: int|
                    0 <= i < k ==> {
                        &&& (#[trigger] final(queue).entries()[i]) == old(queue).entries()[i]
                        &&& data.comparable(&final(queue).entries()[i].data) ==> data.order_new(
                            &final(queue).entries()[i].data,
                        ) < 0
                    }
                &&& forall|i: int|
                    k < i < final(queue).entries().len() ==> (#[trigger] final(queue).entries()[i])
                        == old(queue).entries()[i - 1]
                &&& k < old(queue).entries().len() && data.comparable(
                    &old(queue).entries()[k].data,
                ) ==> data.order_new(&old(queue).entries()[k].data) >= 0
            },
{
    let before = old(queue).entries();
    let after = final(queue).entries();
    let k = choose|k: int|
        {
            &&& #[trigger] queue::first_place(before, 0, k, data)
            &&& after == before.insert(k, QueueEntry { key: handle.key(), data })
        };
    assert(after[k] == QueueEntry { key: handle.key(), data });
    assert forall|i: int| 0 <= i < k implies {
        &&& (#[trigger] after[i]) == before[i]
        &&& data.comparable(&after[i].data) ==> data.order_new(&after[i].data) < 0
    } by {
        assert(after[i] == before[i]);
    }
}

impl<N: BoxQueueNode> Default for BoxQueue<N> {
    fn default() -> (queue: Self)
        ensures
            queue.wf(),
            queue.entries() == Seq::<QueueEntry<N::Data>>::empty(),
    {
        Self::empty()
    }
}

} // verus!
