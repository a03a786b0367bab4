//! Primitives for priority-sorted synchronization of resources.
//!
//! Permits and lock guards are granted in order of priority, and a holder can be asked to give way
//! to a requester of higher priority.

pub mod mutex;
pub mod priority;
pub mod queue;
pub mod semaphore;
pub mod waiter;

pub use mutex::{
    DefaultMutexQueue, LockAttempt, Mutex, MutexGuard, MutexPending, MutexQueue, MutexWaiter,
    TryLockError,
};
pub use priority::{HighestFirst, LowestFirst, Priority, FIFO, LIFO};
pub use semaphore::{
    AcquireAttempt, DefaultSemaphoreQueue, InsufficientPermitsError, Semaphore, SemaphorePermit,
    SemaphorePermitWaiter, SemaphoreQueue, SemaphoreWaiter, WithinTotal, MAX_PERMITS,
};
