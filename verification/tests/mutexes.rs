use async_priority_lock::queue::boxed::{DualLinkBoxQueue, SingleLinkBoxQueue};
use async_priority_lock::queue::arena::DualLinkArenaQueue;
use async_priority_lock::{
    LockAttempt, LowestFirst, Mutex, MutexGuard, MutexPending, MutexQueue, MutexWaiter, Priority,
    FIFO, LIFO,
};
use async_priority_lock::waiter::Waiter;
use std::cmp::Ordering as Outcome;
use std::sync::atomic::{AtomicUsize, Ordering};
use std::sync::Arc;
use std::task::{Wake, Waker};

struct Alarm(AtomicUsize);

impl Wake for Alarm {
    fn wake(self: Arc<Self>) {
        self.0.fetch_add(1, Ordering::SeqCst);
    }
}

impl Alarm {
    fn new() -> (Arc<Alarm>, Waker) {
        let alarm = Arc::new(Alarm(AtomicUsize::new(0)));
        (alarm.clone(), Waker::from(alarm))
    }

    fn rung(&self) -> usize {
        self.0.load(Ordering::SeqCst)
    }
}

fn quiet() -> Waker {
    Alarm::new().1
}

fn ring(woken: Option<Waker>) {
    if let Some(waker) = woken {
        waker.wake();
    }
}

fn acquired<P: Priority, T, Q: MutexQueue<P>>(attempt: LockAttempt<P, T, Q>) -> MutexGuard<P, T, Q> {
    match attempt {
        LockAttempt::Acquired(guard) => guard,
        LockAttempt::Queued(_, _) => panic!("the lock should be free"),
    }
}

fn queued<P: Priority, T, Q: MutexQueue<P>>(attempt: LockAttempt<P, T, Q>) -> MutexPending<P, Q> {
    match attempt {
        LockAttempt::Acquired(_) => panic!("the lock should be held"),
        LockAttempt::Queued(pending, woken) => {
            ring(woken);
            pending
        }
    }
}

fn ready<P: Priority, T, Q: MutexQueue<P>>(
    mutex: &mut Mutex<P, T, Q>,
    pending: MutexPending<P, Q>,
) -> MutexGuard<P, T, Q> {
    match mutex.poll_lock(pending, quiet()) {
        Ok(guard) => guard,
        Err(_) => panic!("the lock should have been granted"),
    }
}

fn not_ready<P: Priority, T, Q: MutexQueue<P>>(
    mutex: &mut Mutex<P, T, Q>,
    pending: MutexPending<P, Q>,
    waker: Waker,
) -> MutexPending<P, Q> {
    match mutex.poll_lock(pending, waker) {
        Ok(_) => panic!("the lock should be held by another"),
        Err(pending) => pending,
    }
}

#[test]
fn try_lock_fails_while_held() {
    let mut mutex: Mutex<u32, &str> = Mutex::new("value");
    let guard = mutex.try_lock(1).ok().unwrap();
    assert_eq!(*guard.get(), "value");
    let error = mutex.try_lock(2).err().unwrap();
    assert_eq!(error.message(), "lock is already held");
    assert!(mutex.unlock(guard).is_none());
    assert!(mutex.try_lock(0).is_ok());
}

#[test]
fn next_holder_sees_what_was_written() {
    let mut mutex: Mutex<u32, Vec<u32>> = Mutex::default();
    let mut guard = acquired(mutex.lock(1));
    guard.get_mut().push(7);
    let pending = queued(mutex.lock(1));
    guard.get_mut().push(8);
    mutex.unlock(guard);
    let guard = ready(&mut mutex, pending);
    assert_eq!(guard.get(), &vec![7, 8]);
}

#[test]
fn highest_priority_comes_next() {
    let mut mutex: Mutex<u32, Vec<u32>> = Mutex::new(vec![]);
    let mut guard = acquired(mutex.lock(9));
    let mut waiting: Vec<(u32, MutexPending<u32, _>)> = Vec::new();
    for priority in [0, 3, 2, 5, 1] {
        waiting.push((priority, queued(mutex.lock(priority))));
    }
    waiting.sort_by(|a, b| b.0.cmp(&a.0));
    for (priority, pending) in waiting {
        mutex.unlock(guard);
        guard = ready(&mut mutex, pending);
        guard.get_mut().push(priority);
    }
    assert_eq!(guard.get(), &vec![5, 3, 2, 1, 0]);
}

fn serves_in_order_of_arrival<Q: MutexQueue<FIFO<u32>>>() {
    let mut mutex: Mutex<FIFO<u32>, (), Q> = Mutex::new(());
    let guard = acquired(mutex.lock_from(0));
    let first = queued(mutex.lock_from(1));
    let second = queued(mutex.lock_from(1));
    let third = queued(mutex.lock_from(1));
    mutex.unlock(guard);
    let second = not_ready(&mut mutex, second, quiet());
    let third = not_ready(&mut mutex, third, quiet());
    let guard = ready(&mut mutex, first);
    mutex.unlock(guard);
    let third = not_ready(&mut mutex, third, quiet());
    let guard = ready(&mut mutex, second);
    mutex.unlock(guard);
    let guard = ready(&mut mutex, third);
    mutex.unlock(guard);
    assert!(mutex.try_lock(FIFO::from(0)).is_ok());
}

#[test]
fn fifo_serves_in_order_of_arrival() {
    serves_in_order_of_arrival::<async_priority_lock::DefaultMutexQueue<FIFO<u32>>>();
    serves_in_order_of_arrival::<DualLinkArenaQueue<MutexWaiter<FIFO<u32>>>>();
    serves_in_order_of_arrival::<SingleLinkBoxQueue<MutexWaiter<FIFO<u32>>>>();
    serves_in_order_of_arrival::<DualLinkBoxQueue<MutexWaiter<FIFO<u32>>>>();
}

#[test]
fn lifo_serves_the_last_first() {
    let mut mutex: Mutex<LIFO<u32>, ()> = Mutex::new(());
    let guard = acquired(mutex.lock_from(1));
    let first = queued(mutex.lock_from(1));
    let second = queued(mutex.lock_from(1));
    mutex.unlock(guard);
    let first = not_ready(&mut mutex, first, quiet());
    let guard = ready(&mut mutex, second);
    mutex.unlock(guard);
    ready(&mut mutex, first);
}

#[test]
fn lock_default_has_the_default_priority() {
    let mut mutex: Mutex<LowestFirst<u32>, ()> = Mutex::new(());
    let guard = acquired(mutex.lock_default());
    let later = queued(mutex.lock_from(1));
    let sooner = queued(mutex.lock_default());
    mutex.unlock(guard);
    not_ready(&mut mutex, later, quiet());
    ready(&mut mutex, sooner);
}

#[test]
fn holder_is_asked_to_leave_by_higher_priority_only() {
    let mut mutex: Mutex<u32, ()> = Mutex::new(());
    let guard = acquired(mutex.lock(5));
    let (alarm, waker) = Alarm::new();
    assert!(!guard.evicted(&mut mutex, waker.clone()));
    queued(mutex.lock(4));
    queued(mutex.lock(5));
    assert_eq!(alarm.rung(), 0);
    assert!(!guard.evicted(&mut mutex, waker.clone()));
    queued(mutex.lock(6));
    assert_eq!(alarm.rung(), 1);
    assert!(guard.evicted(&mut mutex, waker));
    queued(mutex.lock(7));
    assert_eq!(alarm.rung(), 1);
}

#[test]
fn holder_who_no_longer_cares_is_not_woken() {
    let mut mutex: Mutex<u32, ()> = Mutex::new(());
    let guard = acquired(mutex.lock(5));
    let (alarm, waker) = Alarm::new();
    assert!(!guard.evicted(&mut mutex, waker));
    guard.ignore_evicted(&mut mutex);
    queued(mutex.lock(6));
    assert_eq!(alarm.rung(), 0);
    assert!(guard.evicted(&mut mutex, quiet()));
}

#[test]
fn unlock_wakes_the_next_one() {
    let mut mutex: Mutex<u32, ()> = Mutex::new(());
    let guard = acquired(mutex.lock(5));
    let (alarm, waker) = Alarm::new();
    let pending = queued(mutex.lock(1));
    let pending = not_ready(&mut mutex, pending, waker);
    ring(mutex.unlock(guard));
    assert_eq!(alarm.rung(), 1);
    ready(&mut mutex, pending);
}

#[test]
fn cancelled_waiter_is_passed_over() {
    let mut mutex: Mutex<u32, ()> = Mutex::new(());
    let guard = acquired(mutex.lock(5));
    let gone = queued(mutex.lock(3));
    let pending = queued(mutex.lock(1));
    assert!(mutex.cancel(gone).is_none());
    mutex.unlock(guard);
    ready(&mut mutex, pending);
}

#[test]
fn cancelled_waiter_with_the_lock_passes_it_on() {
    let mut mutex: Mutex<u32, u8> = Mutex::new(1);
    let guard = acquired(mutex.lock(5));
    let gone = queued(mutex.lock(3));
    let pending = queued(mutex.lock(1));
    let (alarm, waker) = Alarm::new();
    let pending = not_ready(&mut mutex, pending, waker);
    mutex.unlock(guard);
    ring(mutex.cancel(gone));
    assert_eq!(alarm.rung(), 1);
    let guard = ready(&mut mutex, pending);
    assert_eq!(*guard.get(), 1);
    assert!(mutex.unlock(guard).is_none());
    assert!(mutex.try_lock(0).is_ok());
}

#[test]
fn holding_entry_is_pinned_to_the_head() {
    let mut mutex: Mutex<u32, ()> = Mutex::new(());
    let guard = acquired(mutex.lock(0));
    let high = queued(mutex.lock(10));
    assert!(mutex.try_lock(20).is_err());
    let high = not_ready(&mut mutex, high, quiet());
    mutex.unlock(guard);
    ready(&mut mutex, high);
}

#[test]
fn entries_compare_by_holding_first() {
    let held = MutexWaiter { priority: 1, waiter: Waiter::new(true) };
    let low = MutexWaiter { priority: 2, waiter: Waiter::new(false) };
    let high = MutexWaiter { priority: 3, waiter: Waiter::new(false) };
    assert_eq!(held.compare(&high), Outcome::Greater);
    assert_eq!(high.compare(&held), Outcome::Less);
    assert_eq!(high.compare_new(&held), Outcome::Less);
    assert_eq!(held.compare_new(&high), Outcome::Greater);
    assert_eq!(held.compare(&held), Outcome::Equal);
    assert_eq!(low.compare(&high), Outcome::Less);
    assert_eq!(high.compare_new(&low), Outcome::Greater);
}
