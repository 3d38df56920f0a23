# unsync

Unsynchronized synchronization primitives for asynchronous programs, verified
with [Verus](https://github.com/verus-lang/verus).

The library is for single-threaded systems. It has channels (`oneshot`, `spsc`,
`broadcast`, `fixed_broadcast`), a `Semaphore`, a `OnceCell`, and the `WaitList`
that the latter two are built on.

* `src/` is the verified library. The primitives are state machines: what the
  parties to a primitive share is a value that the caller lends to each
  operation, a future is polled with the waker of its task, and an operation
  hands back the wakers of the tasks to be woken. Contracts relate the contents
  of the shared value before and after each operation. The properties that span
  operations are public proof functions whose names begin with `law_`.
* `app/` is the asynchronous interface on top of it: shared ownership, `Future`
  and `Drop` implementations, error traits, and waking.
* `tests/` exercises the library.

What is trusted rather than proved is that a cloned `Waker` wakes the task
of the one it was cloned from, that wakers of which `will_wake` answers `true` wake the
same task (`src/task.rs`), and what the methods of `slab::Slab` do to its items
(`src/registry.rs`).
