# async-priority-lock

Primitives for priority-sorted synchronization of resources, verified with
[Verus](https://github.com/verus-lang/verus).

A `Mutex` grants exclusive access, and a `Semaphore` grants permits, in order of priority. Whoever
holds the lock or permits can be asked to give way to a requester of higher priority; whether to do
so is up to them.

## Layout

- `src/` is the library. Everything in it is verified.
  - `priority.rs`: the `Priority` trait, what a priority must keep to be lawful, and the wrappers
    `LowestFirst`, `FIFO` and `LIFO`.
  - `queue.rs`: what a priority queue is. `queue/arena.rs` and `queue/boxed.rs` are two of them, each
    with single or dual links.
  - `waiter.rs`: the flags of an entry and the waker of the task that waits for them.
  - `mutex.rs` and `semaphore.rs`: the two locks as state machines. Each function takes the state
    from one consistent state to the next and returns the wakers of the tasks that are to be woken.
    `semaphore/entries.rs` holds the model of a semaphore's queue that the contracts speak of.
- `app/` puts the state machines behind a lock of std and polls them from futures, which makes them
  an async `Mutex` and an async `Semaphore`.
- `tests/` runs the library on concrete values.

The laws of the library are the public proof functions whose names begin with `law_`.
