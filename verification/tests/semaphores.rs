use async_priority_lock::queue::arena::SingleLinkArenaQueue;
use async_priority_lock::queue::boxed::{DualLinkBoxQueue, SingleLinkBoxQueue};
use async_priority_lock::{
    AcquireAttempt, DefaultSemaphoreQueue, InsufficientPermitsError, LowestFirst, Priority,
    Semaphore, SemaphorePermit, SemaphorePermitWaiter, SemaphoreQueue, SemaphoreWaiter,
    WithinTotal, FIFO, LIFO, MAX_PERMITS,
};
use async_priority_lock::waiter::Waiter;
use std::cmp::Ordering as Outcome;
use std::sync::atomic::{AtomicUsize, Ordering};
use std::sync::Arc;
use std::task::{Wake, Waker};

struct Alarm(AtomicUsize);

impl Wake for Alarm {
    fn wake(self: Arc<Self>) {
        self.0.fetch_add(1, Ordering::SeqCst);
    }
}

impl Alarm {
    fn new() -> (Arc<Alarm>, Waker) {
        let alarm = Arc::new(Alarm(AtomicUsize::new(0)));
        (alarm.clone(), Waker::from(alarm))
    }

    fn rung(&self) -> usize {
        self.0.load(Ordering::SeqCst)
    }
}

fn quiet() -> Waker {
    Alarm::new().1
}

fn ring(woken: Vec<Waker>) {
    for waker in woken {
        waker.wake();
    }
}

fn granted<P: Priority, Q: SemaphoreQueue<P>>(attempt: AcquireAttempt<P, Q>) -> SemaphorePermit<P, Q> {
    match attempt {
        AcquireAttempt::Acquired(permit) => permit,
        AcquireAttempt::Queued(_, _) => panic!("the permits should be available"),
    }
}

fn queued<P: Priority, Q: SemaphoreQueue<P>>(
    attempt: AcquireAttempt<P, Q>,
) -> SemaphorePermitWaiter<P, Q> {
    match attempt {
        AcquireAttempt::Acquired(_) => panic!("the permits should not be available"),
        AcquireAttempt::Queued(pending, woken) => {
            ring(woken);
            pending
        }
    }
}

fn ready<P: Priority, Q: SemaphoreQueue<P>>(
    semaphore: &mut Semaphore<P, Q>,
    pending: SemaphorePermitWaiter<P, Q>,
) -> SemaphorePermit<P, Q> {
    match semaphore.poll_acquire(pending, quiet()) {
        Ok(permit) => permit,
        Err(_) => panic!("the permits should have been granted"),
    }
}

fn not_ready<P: Priority, Q: SemaphoreQueue<P>>(
    semaphore: &mut Semaphore<P, Q>,
    pending: SemaphorePermitWaiter<P, Q>,
    waker: Waker,
) -> SemaphorePermitWaiter<P, Q> {
    match semaphore.poll_acquire(pending, waker) {
        Ok(_) => panic!("the permits should not have been granted"),
        Err(pending) => pending,
    }
}

fn refused<P: Priority, Q: SemaphoreQueue<P>>(
    semaphore: &mut Semaphore<P, Q>,
    pending: SemaphorePermitWaiter<P, Q>,
) -> InsufficientPermitsError {
    match semaphore.poll_within_total(pending, quiet()) {
        WithinTotal::Refused(error, woken) => {
            ring(woken);
            error
        }
        _ => panic!("the request should have been refused"),
    }
}

#[test]
fn new_semaphore_has_all_permits_available() {
    let semaphore: Semaphore<u32> = Semaphore::new(3);
    assert_eq!(semaphore.total_permits(), 3);
    assert_eq!(semaphore.available_permits(), 3);
    let semaphore: Semaphore<u32> = Semaphore::default();
    assert_eq!(semaphore.total_permits(), 0);
    assert_eq!(semaphore.available_permits(), 0);
    assert_eq!(MAX_PERMITS, usize::MAX >> 1);
}

#[test]
fn release_undoes_acquire() {
    let mut semaphore: Semaphore<u32> = Semaphore::new(5);
    let permit = granted(semaphore.acquire_many(1, 3));
    assert_eq!(permit.permits(&semaphore), 3);
    assert_eq!(semaphore.available_permits(), 2);
    assert_eq!(semaphore.total_permits(), 5);
    assert!(semaphore.release(permit).is_empty());
    assert_eq!(semaphore.available_permits(), 5);
    assert_eq!(semaphore.total_permits(), 5);
}

fn issues_by_priority<Q: SemaphoreQueue<u32>>() {
    let mut semaphore: Semaphore<u32, Q> = Semaphore::new(1);
    let permit = granted(semaphore.acquire(9));
    let low = queued(semaphore.acquire(1));
    let high = queued(semaphore.acquire(3));
    let middle = queued(semaphore.acquire(2));
    semaphore.release(permit);
    assert_eq!(semaphore.available_permits(), 0);
    let low = not_ready(&mut semaphore, low, quiet());
    let middle = not_ready(&mut semaphore, middle, quiet());
    let permit = ready(&mut semaphore, high);
    semaphore.release(permit);
    let low = not_ready(&mut semaphore, low, quiet());
    let permit = ready(&mut semaphore, middle);
    semaphore.release(permit);
    let permit = ready(&mut semaphore, low);
    semaphore.release(permit);
    assert_eq!(semaphore.available_permits(), 1);
}

#[test]
fn permits_are_issued_by_priority() {
    issues_by_priority::<DefaultSemaphoreQueue<u32>>();
    issues_by_priority::<SingleLinkArenaQueue<SemaphoreWaiter<u32>>>();
    issues_by_priority::<SingleLinkBoxQueue<SemaphoreWaiter<u32>>>();
    issues_by_priority::<DualLinkBoxQueue<SemaphoreWaiter<u32>>>();
}

#[test]
fn lower_priority_is_blocked_by_a_larger_request() {
    let mut semaphore: Semaphore<u32> = Semaphore::new(4);
    let permit = granted(semaphore.acquire_many(1, 2));
    let large = queued(semaphore.acquire_many(5, 3));
    // Two permits are available, but the one who waits has the higher priority.
    let small = queued(semaphore.acquire(4));
    assert_eq!(semaphore.available_permits(), 2);
    semaphore.release(permit);
    ready(&mut semaphore, large);
    ready(&mut semaphore, small);
    assert_eq!(semaphore.available_permits(), 0);
}

#[test]
fn higher_priority_overtakes_a_larger_request() {
    let mut semaphore: Semaphore<u32> = Semaphore::new(4);
    let _permit = granted(semaphore.acquire_many(9, 2));
    let large = queued(semaphore.acquire_many(5, 3));
    granted(semaphore.acquire(6));
    assert_eq!(semaphore.available_permits(), 1);
    not_ready(&mut semaphore, large, quiet());
}

#[test]
fn same_priority_is_sorted_by_count() {
    let mut semaphore: Semaphore<u32> = Semaphore::new(3);
    let permit = granted(semaphore.acquire_many(1, 3));
    let three = queued(semaphore.acquire_many(1, 3));
    let one = queued(semaphore.acquire_many(1, 1));
    let two = queued(semaphore.acquire_many(1, 2));
    semaphore.release(permit);
    let one = ready(&mut semaphore, one);
    let two = ready(&mut semaphore, two);
    let three = not_ready(&mut semaphore, three, quiet());
    semaphore.release(one);
    let three = not_ready(&mut semaphore, three, quiet());
    semaphore.release(two);
    ready(&mut semaphore, three);
}

#[test]
fn smaller_request_of_same_priority_is_not_blocked() {
    let mut semaphore: Semaphore<u32> = Semaphore::new(3);
    let _permit = granted(semaphore.acquire_many(1, 2));
    let _large = queued(semaphore.acquire_many(1, 2));
    granted(semaphore.acquire(1));
    assert_eq!(semaphore.available_permits(), 0);
}

#[test]
fn fifo_is_blocked_by_a_larger_request() {
    let mut semaphore: Semaphore<FIFO<u32>> = Semaphore::new(3);
    let permit = granted(semaphore.acquire_many_from(2, 1));
    let large = queued(semaphore.acquire_many_from(2, 1));
    let small = queued(semaphore.acquire_from(1));
    assert_eq!(semaphore.available_permits(), 1);
    semaphore.release(permit);
    ready(&mut semaphore, large);
    ready(&mut semaphore, small);
}

#[test]
fn lifo_overtakes_a_larger_request() {
    let mut semaphore: Semaphore<LIFO<u32>> = Semaphore::new(3);
    let _permit = granted(semaphore.acquire_many_from(2, 1));
    let large = queued(semaphore.acquire_many_from(2, 1));
    granted(semaphore.acquire_from(1));
    not_ready(&mut semaphore, large, quiet());
}

#[test]
fn default_priority_is_used() {
    let mut semaphore: Semaphore<LowestFirst<u32>> = Semaphore::new(1);
    let permit = granted(semaphore.acquire_default());
    let later = queued(semaphore.acquire_from(1));
    let sooner = queued(semaphore.acquire_many_default(1));
    semaphore.release(permit);
    not_ready(&mut semaphore, later, quiet());
    ready(&mut semaphore, sooner);
}

#[test]
fn holders_of_lower_priority_are_asked_to_leave() {
    let mut semaphore: Semaphore<u32> = Semaphore::new(3);
    let low = granted(semaphore.acquire(1));
    let middle = granted(semaphore.acquire(5));
    let high = granted(semaphore.acquire(9));
    let (low_alarm, waker) = Alarm::new();
    assert!(!low.evicted(&mut semaphore, waker));
    let (middle_alarm, waker) = Alarm::new();
    assert!(!middle.evicted(&mut semaphore, waker));
    let (high_alarm, waker) = Alarm::new();
    assert!(!high.evicted(&mut semaphore, waker));
    let pending = queued(semaphore.acquire(5));
    assert_eq!((low_alarm.rung(), middle_alarm.rung(), high_alarm.rung()), (1, 0, 0));
    assert!(low.evicted(&mut semaphore, quiet()));
    middle.ignore_evicted(&mut semaphore);
    queued(semaphore.acquire(7));
    assert_eq!((low_alarm.rung(), middle_alarm.rung(), high_alarm.rung()), (1, 0, 0));
    assert!(middle.evicted(&mut semaphore, quiet()));
    assert!(!high.evicted(&mut semaphore, quiet()));
    semaphore.release(low);
    not_ready(&mut semaphore, pending, quiet());
}

#[test]
fn nobody_is_asked_to_leave_for_a_request_that_is_granted() {
    let mut semaphore: Semaphore<u32> = Semaphore::new(2);
    let low = granted(semaphore.acquire(1));
    granted(semaphore.acquire(5));
    assert!(!low.evicted(&mut semaphore, quiet()));
}

#[test]
fn release_wakes_those_who_are_granted() {
    let mut semaphore: Semaphore<u32> = Semaphore::new(3);
    let permit = granted(semaphore.acquire_many(1, 3));
    let (first_alarm, waker) = Alarm::new();
    let first = queued(semaphore.acquire_many(1, 1));
    not_ready(&mut semaphore, first, waker);
    let (second_alarm, waker) = Alarm::new();
    let second = queued(semaphore.acquire_many(1, 2));
    not_ready(&mut semaphore, second, waker);
    let (third_alarm, waker) = Alarm::new();
    let third = queued(semaphore.acquire_many(1, 3));
    not_ready(&mut semaphore, third, waker);
    let woken = semaphore.release(permit);
    assert_eq!(woken.len(), 2);
    ring(woken);
    assert_eq!((first_alarm.rung(), second_alarm.rung(), third_alarm.rung()), (1, 1, 0));
}

#[test]
fn cancelling_the_first_unblocks_the_others() {
    let mut semaphore: Semaphore<u32> = Semaphore::new(3);
    let _permit = granted(semaphore.acquire_many(9, 2));
    let large = queued(semaphore.acquire_many(5, 2));
    let small = queued(semaphore.acquire(1));
    let (alarm, waker) = Alarm::new();
    let small = not_ready(&mut semaphore, small, waker);
    ring(semaphore.cancel(large));
    assert_eq!(alarm.rung(), 1);
    ready(&mut semaphore, small);
    assert_eq!(semaphore.available_permits(), 0);
}

#[test]
fn cancelling_another_changes_nothing() {
    let mut semaphore: Semaphore<u32> = Semaphore::new(3);
    let permit = granted(semaphore.acquire_many(9, 2));
    let large = queued(semaphore.acquire_many(5, 2));
    let small = queued(semaphore.acquire(1));
    assert!(semaphore.cancel(small).is_empty());
    assert_eq!(semaphore.available_permits(), 1);
    let large = not_ready(&mut semaphore, large, quiet());
    semaphore.release(permit);
    ready(&mut semaphore, large);
}

#[test]
fn cancelling_after_the_grant_releases() {
    let mut semaphore: Semaphore<u32> = Semaphore::new(1);
    let permit = granted(semaphore.acquire(9));
    let first = queued(semaphore.acquire(5));
    let second = queued(semaphore.acquire(1));
    semaphore.release(permit);
    semaphore.cancel(first);
    let permit = ready(&mut semaphore, second);
    semaphore.release(permit);
    assert_eq!(semaphore.available_permits(), 1);
}

#[test]
fn adding_permits_serves_those_who_wait() {
    let mut semaphore: Semaphore<u32> = Semaphore::new(0);
    let large = queued(semaphore.acquire_many(2, 3));
    let small = queued(semaphore.acquire(1));
    let (available, woken) = semaphore.add_permits(2);
    assert_eq!((available, woken.len()), (2, 0));
    let (alarm, waker) = Alarm::new();
    let large = not_ready(&mut semaphore, large, waker);
    let (available, woken) = semaphore.try_add_permits(3).unwrap();
    ring(woken);
    assert_eq!(available, 1);
    assert_eq!(alarm.rung(), 1);
    assert_eq!(semaphore.total_permits(), 5);
    ready(&mut semaphore, large);
    ready(&mut semaphore, small);
}

#[test]
fn adding_too_many_permits_fails() {
    let mut semaphore: Semaphore<u32> = Semaphore::new(usize::MAX - 1);
    assert!(semaphore.try_add_permits(2).is_err());
    assert_eq!(semaphore.total_permits(), usize::MAX - 1);
    assert_eq!(semaphore.try_add_permits(1).unwrap().0, usize::MAX);
    let _permit = granted(semaphore.acquire_many(0, 10));
    assert!(semaphore.try_add_permits(1).is_err());
    assert_eq!(semaphore.try_add_permits(0).unwrap().0, usize::MAX - 10);
}

#[test]
fn forgetting_permits_takes_what_is_available() {
    let mut semaphore: Semaphore<u32> = Semaphore::new(5);
    let permit = granted(semaphore.acquire_many(0, 2));
    assert_eq!(semaphore.forget_permits(1).0, 1);
    assert_eq!(semaphore.total_permits(), 4);
    assert_eq!(semaphore.available_permits(), 2);
    assert_eq!(semaphore.forget_permits(10).0, 2);
    assert_eq!(semaphore.forget_permits(10).0, 0);
    assert_eq!(semaphore.total_permits(), 2);
    assert_eq!(semaphore.available_permits(), 0);
    permit.forget(&mut semaphore);
    assert_eq!(semaphore.total_permits(), 0);
    assert_eq!(semaphore.available_permits(), 0);
}

#[test]
fn more_than_the_total_is_refused() {
    let mut semaphore: Semaphore<u32> = Semaphore::new(10);
    let error = semaphore.acquire_within_total(1, 11).err().unwrap();
    assert_eq!(error.total(), Some(10));
    assert_eq!(error.requested(), 11);
    assert_eq!(error.message(), "insufficient total permits: have 10 want 11");
    assert_eq!(semaphore.available_permits(), 10);
    granted(semaphore.acquire_within_total(1, 10).unwrap());
}

#[test]
fn losing_the_permits_is_refused_later() {
    let mut semaphore: Semaphore<u32> = Semaphore::new(10);
    let permit = granted(semaphore.acquire(0));
    let many = queued(semaphore.acquire_within_total(1, 10).unwrap());
    let (alarm, waker) = Alarm::new();
    let many = match semaphore.poll_within_total(many, waker) {
        WithinTotal::Waiting(many) => many,
        _ => panic!("nine permits are too few"),
    };
    ring(permit.forget(&mut semaphore));
    assert_eq!(alarm.rung(), 1);
    let error = refused(&mut semaphore, many);
    assert_eq!(error.total(), None);
    assert_eq!(error.requested(), 10);
    assert_eq!(error.message(), "semaphoer lacks sufficient permits: want 10");
    assert_eq!(semaphore.total_permits(), 9);
    assert_eq!(semaphore.available_permits(), 9);
}

#[test]
fn those_turned_away_block_nobody() {
    let mut semaphore: Semaphore<u32> = Semaphore::new(4);
    let permit = granted(semaphore.acquire_many(9, 2));
    let large = queued(semaphore.acquire_within_total(5, 4).unwrap());
    assert_eq!(semaphore.forget_permits(1).0, 1);
    // The one who is turned away still stands in the queue.
    granted(semaphore.acquire(1));
    let small = queued(semaphore.acquire(1));
    semaphore.release(permit);
    ready(&mut semaphore, small);
    let error = refused(&mut semaphore, large);
    assert_eq!(error.requested(), 4);
}

#[test]
fn those_who_wait_patiently_are_not_turned_away() {
    let mut semaphore: Semaphore<u32> = Semaphore::new(2);
    let permit = granted(semaphore.acquire(9));
    let large = queued(semaphore.acquire_many(5, 2));
    permit.forget(&mut semaphore);
    let large = not_ready(&mut semaphore, large, quiet());
    semaphore.add_permits(1);
    ready(&mut semaphore, large);
}

#[test]
fn permits_that_return_in_time_are_granted() {
    let mut semaphore: Semaphore<u32> = Semaphore::new(2);
    let permit = granted(semaphore.acquire(9));
    let large = queued(semaphore.acquire_within_total(5, 2).unwrap());
    permit.forget(&mut semaphore);
    semaphore.add_permits(1);
    match semaphore.poll_within_total(large, quiet()) {
        WithinTotal::Acquired(permit) => assert_eq!(permit.permits(&semaphore), 2),
        _ => panic!("there are two permits again"),
    }
}

#[test]
fn refusing_serves_those_after() {
    let mut semaphore: Semaphore<u32> = Semaphore::new(3);
    let permit = granted(semaphore.acquire_many(9, 1));
    let large = queued(semaphore.acquire_within_total(5, 3).unwrap());
    let small = queued(semaphore.acquire_many(1, 2));
    permit.forget(&mut semaphore);
    let small = not_ready(&mut semaphore, small, quiet());
    assert_eq!(semaphore.available_permits(), 2);
    refused(&mut semaphore, large);
    ready(&mut semaphore, small);
    assert_eq!(semaphore.available_permits(), 0);
}

#[test]
fn merge_undoes_split() {
    let mut semaphore: Semaphore<u32> = Semaphore::new(5);
    let permit = granted(semaphore.acquire_many(1, 4));
    let other = permit.split(&mut semaphore, 3).unwrap();
    assert_eq!(permit.permits(&semaphore), 1);
    assert_eq!(other.permits(&semaphore), 3);
    assert_eq!(semaphore.available_permits(), 1);
    permit.merge(&mut semaphore, other);
    assert_eq!(permit.permits(&semaphore), 4);
    semaphore.release(permit);
    assert_eq!(semaphore.available_permits(), 5);
}

#[test]
fn split_leaves_at_least_one() {
    let mut semaphore: Semaphore<u32> = Semaphore::new(5);
    let permit = granted(semaphore.acquire_many(1, 4));
    let error = permit.split(&mut semaphore, 4).err().unwrap();
    assert_eq!(error.total(), Some(4));
    assert_eq!(error.requested(), 4);
    let error = permit.split_with_priority(&mut semaphore, 5, 7).err().unwrap();
    assert_eq!(error.message(), "insufficient total permits: have 4 want 5");
    assert_eq!(permit.permits(&semaphore), 4);
}

#[test]
fn split_with_priority_has_its_own_evictions() {
    let mut semaphore: Semaphore<u32> = Semaphore::new(2);
    let permit = granted(semaphore.acquire_many(1, 2));
    let other = permit.split_with_priority(&mut semaphore, 1, 7).unwrap();
    queued(semaphore.acquire(5));
    assert!(permit.evicted(&mut semaphore, quiet()));
    assert!(!other.evicted(&mut semaphore, quiet()));
}

#[test]
fn split_permit_is_asked_to_leave_as_the_other_is() {
    let mut semaphore: Semaphore<usize> = Semaphore::new(4);
    let permit = granted(semaphore.acquire_many(0, 4));
    let before = permit.split(&mut semaphore, 1).unwrap();
    assert!(!before.evicted(&mut semaphore, quiet()));
    let pending = queued(semaphore.acquire(1));
    assert!(permit.evicted(&mut semaphore, quiet()));
    let other = permit.split(&mut semaphore, 1).unwrap();
    assert!(other.evicted(&mut semaphore, quiet()));
    // It stays so when the one who asked gives up.
    semaphore.cancel(pending);
    assert!(permit.evicted(&mut semaphore, quiet()));
    let last = permit.split(&mut semaphore, 1).unwrap();
    assert!(last.evicted(&mut semaphore, quiet()));
}

#[test]
fn split_with_priority_looks_who_waits() {
    let mut semaphore: Semaphore<u32> = Semaphore::new(6);
    let permit = granted(semaphore.acquire_many(9, 5));
    queued(semaphore.acquire_many(5, 3));
    assert!(!permit.evicted(&mut semaphore, quiet()));
    let low = permit.split_with_priority(&mut semaphore, 1, 4).unwrap();
    assert!(low.evicted(&mut semaphore, quiet()));
    let same = permit.split_with_priority(&mut semaphore, 1, 5).unwrap();
    assert!(!same.evicted(&mut semaphore, quiet()));
    let high = permit.split_with_priority(&mut semaphore, 1, 6).unwrap();
    assert!(!high.evicted(&mut semaphore, quiet()));
}

#[test]
fn split_with_priority_ignores_those_turned_away() {
    let mut semaphore: Semaphore<u32> = Semaphore::new(4);
    let permit = granted(semaphore.acquire_many(9, 3));
    queued(semaphore.acquire_within_total(5, 4).unwrap());
    assert_eq!(semaphore.forget_permits(1).0, 1);
    let low = permit.split_with_priority(&mut semaphore, 1, 1).unwrap();
    assert!(!low.evicted(&mut semaphore, quiet()));
}

#[test]
fn those_granted_after_all_are_not_asked_to_leave() {
    let mut semaphore: Semaphore<u32> = Semaphore::new(2);
    let permit = granted(semaphore.acquire(9));
    let large = queued(semaphore.acquire_within_total(5, 2).unwrap());
    permit.forget(&mut semaphore);
    semaphore.add_permits(1);
    let large = ready(&mut semaphore, large);
    assert!(!large.evicted(&mut semaphore, quiet()));
    queued(semaphore.acquire(6));
    assert!(large.evicted(&mut semaphore, quiet()));
}

#[test]
fn split_permit_can_be_released_or_forgotten() {
    let mut semaphore: Semaphore<u32> = Semaphore::new(6);
    let permit = granted(semaphore.acquire_many(1, 6));
    let other = permit.split(&mut semaphore, 2).unwrap();
    other.forget(&mut semaphore);
    assert_eq!(semaphore.total_permits(), 4);
    let other = permit.split(&mut semaphore, 1).unwrap();
    semaphore.release(other);
    assert_eq!(semaphore.available_permits(), 1);
    assert_eq!(permit.permits(&semaphore), 3);
}

#[test]
fn waiters_compare_by_holding_priority_and_count() {
    let entry = |held: bool, priority: u32, count: usize| SemaphoreWaiter {
        priority,
        waiter: Waiter::new(held),
        count,
        within_total: false,
    };
    assert_eq!(entry(true, 1, 1).compare(&entry(false, 2, 1)), Outcome::Greater);
    assert_eq!(entry(false, 2, 1).compare(&entry(true, 1, 1)), Outcome::Less);
    assert_eq!(entry(false, 2, 1).compare(&entry(false, 2, 5)), Outcome::Equal);
    assert_eq!(entry(false, 2, 1).compare_new(&entry(false, 2, 5)), Outcome::Greater);
    assert_eq!(entry(false, 2, 5).compare_new(&entry(false, 2, 5)), Outcome::Equal);
    assert_eq!(entry(false, 2, 6).compare_new(&entry(false, 2, 5)), Outcome::Less);
    assert_eq!(entry(false, 3, 6).compare_new(&entry(false, 2, 5)), Outcome::Greater);
    assert_eq!(entry(true, 2, 6).compare_new(&entry(true, 2, 5)), Outcome::Equal);
    assert_eq!(entry(false, 2, 6).count_and_flag(), (6, false));
}

#[test]
fn error_messages_write_numbers_in_full() {
    let mut semaphore: Semaphore<u32> = Semaphore::new(0);
    let error = semaphore.acquire_within_total(0, 1203).err().unwrap();
    assert_eq!(error.message(), "insufficient total permits: have 0 want 1203");
    assert_eq!(error, error.clone());
}
