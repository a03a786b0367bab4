use async_priority_lock::waiter::{Waiter, WAITER_FLAG_HAS_LOCK, WAITER_FLAG_WANTS_EVICT};
use std::sync::atomic::{AtomicUsize, Ordering};
use std::sync::Arc;
use std::task::{Wake, Waker};

struct Alarm(AtomicUsize);

impl Wake for Alarm {
    fn wake(self: Arc<Self>) {
        self.0.fetch_add(1, Ordering::SeqCst);
    }
}

fn alarm() -> (Arc<Alarm>, Waker) {
    let alarm = Arc::new(Alarm(AtomicUsize::new(0)));
    (alarm.clone(), Waker::from(alarm))
}

#[test]
fn new_waiters_have_the_lock_or_not() {
    assert!(Waiter::new(true).has_lock());
    assert!(!Waiter::new(false).has_lock());
    assert!(!Waiter::new(true).wants_evict());
    assert_eq!(Waiter::new(true).flags(), WAITER_FLAG_HAS_LOCK);
    assert_eq!(Waiter::new(false).flags(), 0);
}

#[test]
fn both_flags_can_be_set() {
    let mut waiter = Waiter::new(false);
    assert!(waiter.evict().is_none());
    assert!(waiter.wants_evict() && !waiter.has_lock());
    assert!(waiter.start().is_none());
    assert!(!waiter.wants_evict() && waiter.has_lock());
    assert!(waiter.evict().is_none());
    assert_eq!(waiter.flags(), WAITER_FLAG_HAS_LOCK | WAITER_FLAG_WANTS_EVICT);
}

#[test]
fn a_watched_waiter_hands_out_its_waker_once() {
    let (count, waker) = alarm();
    let mut waiter = Waiter::new(false);
    assert_eq!(waiter.wait_for_flag(waker, WAITER_FLAG_HAS_LOCK), None);
    let woken = waiter.start();
    woken.unwrap().wake();
    assert_eq!(count.0.load(Ordering::SeqCst), 1);
    assert!(waiter.evict().is_none());
}

#[test]
fn a_reached_flag_needs_no_waker() {
    let (_, waker) = alarm();
    let mut waiter = Waiter::new(true);
    assert_eq!(waiter.wait_for_flag(waker.clone(), WAITER_FLAG_HAS_LOCK), Some(1));
    assert_eq!(waiter.wait_for_flag(waker.clone(), WAITER_FLAG_WANTS_EVICT), None);
    assert_eq!(
        waiter.wait_for_flag(waker, WAITER_FLAG_HAS_LOCK | WAITER_FLAG_WANTS_EVICT),
        Some(1)
    );
    assert!(waiter.evict().is_none());
}

#[test]
fn clearing_drops_the_waker() {
    let (count, waker) = alarm();
    let mut waiter = Waiter::new(true);
    assert_eq!(waiter.wait_for_flag(waker, WAITER_FLAG_WANTS_EVICT), None);
    assert_eq!(waiter.clear_waker(), WAITER_FLAG_HAS_LOCK);
    assert!(waiter.evict().is_none());
    assert_eq!(count.0.load(Ordering::SeqCst), 0);
}
