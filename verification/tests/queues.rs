use async_priority_lock::queue::arena::{DualLinkArenaQueue, SingleLinkArenaQueue};
use async_priority_lock::queue::boxed::{DualLinkBoxQueue, SingleLinkBoxQueue};
use async_priority_lock::queue::{PriorityQueue, SharedQueueHandle};
use async_priority_lock::{LowestFirst, Priority, FIFO, LIFO};
use std::cmp::Ordering;

fn contents<Q: PriorityQueue<u64>>(queue: &Q) -> Vec<u64> {
    queue.iter().into_iter().copied().collect()
}

fn keeps_order<Q: PriorityQueue<u64>>() {
    let mut queue = Q::empty();
    assert!(queue.is_empty());
    assert_eq!(queue.head(), None);
    assert!(queue.head_handle().is_none());

    let one = queue.enqueue(1);
    let three = queue.enqueue(3);
    let two = queue.enqueue(2);
    let five = queue.enqueue(5);
    let four = queue.enqueue(4);
    assert!(!queue.is_empty());
    assert_eq!(contents(&queue), vec![5, 4, 3, 2, 1]);
    assert_eq!(queue.head(), Some(&5));
    assert_eq!(queue.get_by_handle(&one), &1);
    assert_eq!(queue.get_by_handle(&four), &4);
    assert_eq!(queue.iter_at(Some(&three)), vec![&3, &2, &1]);
    assert_eq!(queue.iter_at(None), vec![&5, &4, &3, &2, &1]);

    let next = queue.get_next_handle(&three).unwrap();
    assert_eq!(queue.get_by_handle(next.as_ref()), &2);
    assert!(queue.get_next_handle(&one).is_none());

    let (prev, next) = queue.dequeue(three);
    assert_eq!(prev, Some(&4));
    let next = next.unwrap();
    assert_eq!(queue.get_by_handle(next.as_ref()), &2);
    assert_eq!(contents(&queue), vec![5, 4, 2, 1]);

    let (prev, next) = queue.dequeue(five);
    assert_eq!(prev, None);
    assert!(next.is_some());
    let (prev, next) = queue.dequeue(one);
    assert_eq!(prev, Some(&2));
    assert!(next.is_none());
    assert_eq!(contents(&queue), vec![4, 2]);
    queue.dequeue(two);
    let (prev, next) = queue.dequeue(four);
    assert_eq!(prev, None);
    assert!(next.is_none());
    assert!(queue.is_empty());
}

fn moves_updated_entries<Q: PriorityQueue<u64>>() {
    let mut queue = Q::empty();
    let handles: Vec<Q::Handle> = vec![10, 20, 30, 40].into_iter().map(|x| queue.enqueue(x)).collect();
    assert_eq!(contents(&queue), vec![40, 30, 20, 10]);

    // up to the head, from the end
    assert_eq!(queue.update_node(&handles[0], |x| { *x = 50; (true, 'a') }), 'a');
    assert_eq!(contents(&queue), vec![50, 40, 30, 20]);
    // from the head into the middle
    queue.update_node(&handles[0], |x| { *x = 35; (true, ()) });
    assert_eq!(contents(&queue), vec![40, 35, 30, 20]);
    // from the head to the end
    queue.update_node(&handles[3], |x| { *x = 5; (true, ()) });
    assert_eq!(contents(&queue), vec![35, 30, 20, 5]);
    // within its place
    queue.update_node(&handles[2], |x| { *x = 31; (true, ()) });
    assert_eq!(contents(&queue), vec![35, 31, 20, 5]);
    // out of the middle, upwards
    queue.update_node(&handles[1], |x| { *x = 60; (true, ()) });
    assert_eq!(contents(&queue), vec![60, 35, 31, 5]);
    // it stays where it is if it says that nothing has changed
    queue.update_node(&handles[2], |x| { *x = 99; (false, ()) });
    assert_eq!(contents(&queue), vec![60, 35, 99, 5]);
    // handles outlive the moves
    assert_eq!(queue.get_by_handle(&handles[0]), &35);
    assert_eq!(queue.get_by_handle(&handles[1]), &60);
    assert_eq!(queue.get_by_handle(&handles[2]), &99);
    assert_eq!(queue.get_by_handle(&handles[3]), &5);
}

fn grows<Q: PriorityQueue<u64>>() {
    let mut queue = Q::empty();
    let mut handles: Vec<Q::Handle> = Vec::new();
    for i in 0..100u64 {
        handles.push(queue.enqueue((i * 37) % 101));
    }
    let mut expected: Vec<u64> = (0..100u64).map(|i| (i * 37) % 101).collect();
    expected.sort_by(|a, b| b.cmp(a));
    assert_eq!(contents(&queue), expected);
    // free every other slot, and fill up again
    let mut i = 0;
    let mut kept: Vec<Q::Handle> = Vec::new();
    for handle in handles {
        if i % 2 == 0 {
            queue.dequeue(handle);
        } else {
            kept.push(handle);
        }
        i += 1;
    }
    for i in 0..60u64 {
        kept.push(queue.enqueue(200 + i));
    }
    let items = contents(&queue);
    assert_eq!(items.len(), 110);
    assert_eq!(items[0], 259);
    assert_eq!(items[59], 200);
    let mut sorted = items.clone();
    sorted.sort_by(|a, b| b.cmp(a));
    assert_eq!(items, sorted);
    for handle in kept {
        queue.dequeue(handle);
    }
    assert!(queue.is_empty());
}

#[derive(Debug, Clone, Copy, PartialEq, Eq)]
struct Job(u32, u32);

impl Priority for Job {
    fn compare(&self, other: &Self) -> Ordering {
        self.0.cmp(&other.0)
    }

    fn compare_new(&self, old: &Self) -> Ordering {
        self.compare(old)
    }
}

fn first_in_first_out<Q: PriorityQueue<FIFO<Job>>>() -> String {
    let mut queue = Q::empty();
    for (priority, id) in [(1, 0), (2, 1), (1, 2), (2, 3), (1, 4), (3, 5)] {
        queue.enqueue(FIFO::from(Job(priority, id)));
    }
    format!("{:?}", queue.iter())
}

fn last_in_first_out<Q: PriorityQueue<LIFO<Job>>>() -> String {
    let mut queue = Q::empty();
    for (priority, id) in [(1, 0), (2, 1), (1, 2), (2, 3), (1, 4), (3, 5)] {
        queue.enqueue(LIFO::from(Job(priority, id)));
    }
    format!("{:?}", queue.iter())
}

const FIFO_ORDER: &str = "[FIFO(Job(3, 5)), FIFO(Job(2, 1)), FIFO(Job(2, 3)), \
    FIFO(Job(1, 0)), FIFO(Job(1, 2)), FIFO(Job(1, 4))]";

const LIFO_ORDER: &str = "[LIFO(Job(3, 5)), LIFO(Job(2, 3)), LIFO(Job(2, 1)), \
    LIFO(Job(1, 4)), LIFO(Job(1, 2)), LIFO(Job(1, 0))]";

#[test]
fn single_link_arena_queue_keeps_order() {
    keeps_order::<SingleLinkArenaQueue<u64>>();
}

#[test]
fn dual_link_arena_queue_keeps_order() {
    keeps_order::<DualLinkArenaQueue<u64>>();
}

#[test]
fn single_link_box_queue_keeps_order() {
    keeps_order::<SingleLinkBoxQueue<u64>>();
}

#[test]
fn dual_link_box_queue_keeps_order() {
    keeps_order::<DualLinkBoxQueue<u64>>();
}

#[test]
fn single_link_arena_queue_moves_updated_entries() {
    moves_updated_entries::<SingleLinkArenaQueue<u64>>();
}

#[test]
fn dual_link_arena_queue_moves_updated_entries() {
    moves_updated_entries::<DualLinkArenaQueue<u64>>();
}

#[test]
fn single_link_box_queue_moves_updated_entries() {
    moves_updated_entries::<SingleLinkBoxQueue<u64>>();
}

#[test]
fn dual_link_box_queue_moves_updated_entries() {
    moves_updated_entries::<DualLinkBoxQueue<u64>>();
}

#[test]
fn single_link_arena_queue_grows() {
    grows::<SingleLinkArenaQueue<u64>>();
}

#[test]
fn dual_link_arena_queue_grows() {
    grows::<DualLinkArenaQueue<u64>>();
}

#[test]
fn single_link_box_queue_grows() {
    grows::<SingleLinkBoxQueue<u64>>();
}

#[test]
fn dual_link_box_queue_grows() {
    grows::<DualLinkBoxQueue<u64>>();
}

#[test]
fn arena_queues_keep_the_order_of_arrival() {
    assert_eq!(first_in_first_out::<SingleLinkArenaQueue<FIFO<Job>>>(), FIFO_ORDER);
    assert_eq!(first_in_first_out::<DualLinkArenaQueue<FIFO<Job>>>(), FIFO_ORDER);
    assert_eq!(last_in_first_out::<SingleLinkArenaQueue<LIFO<Job>>>(), LIFO_ORDER);
    assert_eq!(last_in_first_out::<DualLinkArenaQueue<LIFO<Job>>>(), LIFO_ORDER);
}

#[test]
fn box_queues_keep_the_order_of_arrival() {
    assert_eq!(first_in_first_out::<SingleLinkBoxQueue<FIFO<Job>>>(), FIFO_ORDER);
    assert_eq!(first_in_first_out::<DualLinkBoxQueue<FIFO<Job>>>(), FIFO_ORDER);
    assert_eq!(last_in_first_out::<SingleLinkBoxQueue<LIFO<Job>>>(), LIFO_ORDER);
    assert_eq!(last_in_first_out::<DualLinkBoxQueue<LIFO<Job>>>(), LIFO_ORDER);
}

fn update_among_equals<Q: PriorityQueue<FIFO<Job>>>(id: usize) -> String {
    let mut queue = Q::empty();
    let handles: Vec<Q::Handle> =
        (0..3).map(|id| queue.enqueue(FIFO::from(Job(1, id)))).collect();
    queue.update_node(&handles[id], |_| (true, ()));
    format!("{:?}", queue.iter())
}

#[test]
fn updated_entries_that_fit_stay() {
    let order = "[FIFO(Job(1, 0)), FIFO(Job(1, 1)), FIFO(Job(1, 2))]";
    for id in 0..3 {
        assert_eq!(update_among_equals::<SingleLinkArenaQueue<FIFO<Job>>>(id), order);
        assert_eq!(update_among_equals::<DualLinkArenaQueue<FIFO<Job>>>(id), order);
        assert_eq!(update_among_equals::<DualLinkBoxQueue<FIFO<Job>>>(id), order);
    }
    assert_eq!(update_among_equals::<SingleLinkBoxQueue<FIFO<Job>>>(1), order);
    assert_eq!(update_among_equals::<SingleLinkBoxQueue<FIFO<Job>>>(2), order);
    // The head of a single linked box queue gives way to its equals.
    assert_eq!(
        update_among_equals::<SingleLinkBoxQueue<FIFO<Job>>>(0),
        "[FIFO(Job(1, 1)), FIFO(Job(1, 2)), FIFO(Job(1, 0))]"
    );
}

#[test]
fn lowest_first_queue() {
    let mut queue = DualLinkArenaQueue::<LowestFirst<u8>>::empty();
    for value in [3, 1, 2] {
        queue.enqueue(LowestFirst::from(value));
    }
    assert_eq!(
        format!("{:?}", queue.iter()),
        "[LowestFirst(1), LowestFirst(2), LowestFirst(3)]"
    );
}

#[test]
fn dequeue_undoes_enqueue() {
    let mut queue = SingleLinkArenaQueue::<u64>::empty();
    for value in [7, 5, 9, 5] {
        queue.enqueue(value);
    }
    let handle = queue.enqueue(5);
    assert_eq!(contents(&queue), vec![9, 7, 5, 5, 5]);
    queue.dequeue(handle);
    assert_eq!(contents(&queue), vec![9, 7, 5, 5]);
}

fn out_of_order<Q: PriorityQueue<u64>>() -> (Q, Q::Handle) {
    let mut queue = Q::empty();
    let first = queue.enqueue(3);
    queue.enqueue(2);
    queue.enqueue(1);
    queue.update_node(&first, |x| { *x = 1; (false, ()) });
    let handle = queue.enqueue(0);
    assert_eq!(contents(&queue), vec![1, 2, 1, 0]);
    (queue, handle)
}

#[test]
fn box_queues_take_the_first_place() {
    let (mut queue, _) = out_of_order::<SingleLinkBoxQueue<u64>>();
    queue.enqueue(1);
    assert_eq!(contents(&queue), vec![1, 1, 2, 1, 0]);
    let (mut queue, handle) = out_of_order::<DualLinkBoxQueue<u64>>();
    queue.update_node(&handle, |x| { *x = 2; (true, ()) });
    assert_eq!(contents(&queue), vec![2, 1, 2, 1]);
}

#[test]
fn arena_queues_move_to_the_first_place() {
    let (mut queue, handle) = out_of_order::<SingleLinkArenaQueue<u64>>();
    queue.update_node(&handle, |x| { *x = 2; (true, ()) });
    assert_eq!(contents(&queue), vec![2, 1, 2, 1]);
    let (mut queue, handle) = out_of_order::<DualLinkArenaQueue<u64>>();
    queue.update_node(&handle, |x| { *x = 3; (true, ()) });
    assert_eq!(contents(&queue), vec![3, 1, 2, 1]);
}

#[test]
fn queues_default_to_empty() {
    assert!(SingleLinkArenaQueue::<u64>::default().is_empty());
    assert!(DualLinkArenaQueue::<u64>::default().is_empty());
    assert!(SingleLinkBoxQueue::<u64>::default().is_empty());
    assert!(DualLinkBoxQueue::<u64>::default().is_empty());
}
