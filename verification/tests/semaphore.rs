use std::sync::{Arc, Mutex};
use std::task::{Wake, Waker};

use unsync::semaphore::Acquire;
use unsync::task::Poll;
use unsync::{Permit, Semaphore};

/// Counts how often its task has been woken.
struct Count(Mutex<usize>);

impl Wake for Count {
    fn wake(self: Arc<Self>) {
        *self.0.lock().unwrap() += 1;
    }
}

fn task() -> (Arc<Count>, Waker) {
    let count = Arc::new(Count(Mutex::new(0)));
    (count.clone(), Waker::from(count))
}

fn woken(count: &Arc<Count>) -> usize {
    *count.0.lock().unwrap()
}

fn run(wakes: &mut Vec<Waker>) {
    for waker in wakes.drain(..) {
        waker.wake();
    }
}

/// A semaphore with a task that polls its futures and wakes whom they wake.
struct Bench {
    sem: Semaphore,
    waker: Waker,
    wakes: Vec<Waker>,
}

impl Bench {
    fn new(permits: usize) -> Self {
        Bench { sem: Semaphore::new(permits), waker: task().1, wakes: Vec::new() }
    }

    fn poll(&mut self, future: &mut Acquire) -> Option<Permit> {
        match future.poll(&mut self.sem, &self.waker, &mut self.wakes) {
            Poll::Ready(permit) => Some(permit),
            Poll::Pending => None,
        }
    }

    fn drop_future(&mut self, future: Acquire) {
        future.cancel(&mut self.sem, &mut self.wakes);
    }

    fn drop_permit(&mut self, permit: Permit) {
        permit.release(&mut self.sem, &mut self.wakes);
    }
}

#[test]
fn fair_grant_to_cancelled_waiter_is_not_leaked() {
    let mut b = Bench::new(1);

    let initial = b.sem.try_acquire(1).unwrap();
    assert_eq!(b.sem.available_permits(), 0);

    let mut f1 = b.sem.acquire(1);
    assert!(b.poll(&mut f1).is_none());

    initial.release_fair(&mut b.sem, &mut b.wakes);
    assert_eq!(b.sem.available_permits(), 0);

    b.drop_future(f1);

    assert_eq!(b.sem.available_permits(), 1);
    assert!(b.sem.try_acquire(1).is_some());
}

#[test]
fn permits_from_cancelled_fair_waiter_wake_next_waiter() {
    let mut b = Bench::new(1);

    let initial = b.sem.try_acquire(1).unwrap();
    let mut f1 = b.sem.acquire(1);
    let mut f2 = b.sem.acquire(1);
    assert!(b.poll(&mut f1).is_none());
    assert!(b.poll(&mut f2).is_none());

    initial.release_fair(&mut b.sem, &mut b.wakes);
    assert_eq!(b.sem.available_permits(), 0);

    // The permit reserved for `f1` must flow to `f2`.
    b.drop_future(f1);
    assert!(b.poll(&mut f2).is_some());
}

#[test]
fn release_wakes_front_waiter_with_another_queued() {
    let mut b = Bench::new(1);
    let initial = b.sem.try_acquire(1).unwrap();

    let mut f1 = b.sem.acquire(1);
    let mut f2 = b.sem.acquire(1);
    assert!(b.poll(&mut f1).is_none());
    assert!(b.poll(&mut f2).is_none());

    b.drop_permit(initial);
    assert!(b.poll(&mut f1).is_some());
}

#[test]
fn cancelled_woken_waiter_does_not_strand_permit() {
    let mut b = Bench::new(1);
    let initial = b.sem.try_acquire(1).unwrap();

    let mut w1 = b.sem.acquire(1);
    let mut w2 = b.sem.acquire(1);
    assert!(b.poll(&mut w1).is_none());
    assert!(b.poll(&mut w2).is_none());

    // Releasing one permit wakes the front waiter, `w1`.
    b.drop_permit(initial);

    // `w1` is cancelled before it can take the permit.
    b.drop_future(w1);

    // The permit must flow to `w2`, not be lost.
    assert!(b.poll(&mut w2).is_some());
}

#[test]
fn cancelled_woken_waiter_rewakes_across_queue() {
    let mut b = Bench::new(2);
    let initial = b.sem.try_acquire(2).unwrap();

    let mut w1 = b.sem.acquire(1);
    let mut w2 = b.sem.acquire(1);
    let mut w3 = b.sem.acquire(1);
    assert!(b.poll(&mut w1).is_none());
    assert!(b.poll(&mut w2).is_none());
    assert!(b.poll(&mut w3).is_none());

    // Releasing both permits wakes w1 and w2; w3 stays queued.
    b.drop_permit(initial);

    // Cancelling w1 must hand its permit on to w3.
    b.drop_future(w1);

    assert!(b.poll(&mut w2).is_some());
    assert!(b.poll(&mut w3).is_some());
}

#[test]
fn parked_acquire_cancelled_then_release() {
    let mut b = Bench::new(1);
    let held = b.sem.try_acquire(1).unwrap();

    let mut first = b.sem.acquire(1);
    let mut second = b.sem.acquire(1);
    assert!(b.poll(&mut first).is_none());
    assert!(b.poll(&mut second).is_none());

    // Cancel the parked front waiter, then release a permit.
    b.drop_future(first);
    b.drop_permit(held);

    assert!(b.poll(&mut second).is_some());
}

#[test]
fn permits_are_counted() {
    let mut b = Bench::new(100);
    assert_eq!(b.sem.available_permits(), 100);
    assert_eq!(b.sem.total_permits(), 100);

    b.sem.add_permits(10, &mut b.wakes);
    assert_eq!(b.sem.available_permits(), 110);
    assert_eq!(b.sem.total_permits(), 110);

    let guard = b.sem.try_acquire(20).unwrap();
    assert_eq!(b.sem.available_permits(), 90);
    assert_eq!(b.sem.total_permits(), 110);
    assert_eq!(guard.permits(), 20);

    b.drop_permit(guard);
    assert_eq!(b.sem.available_permits(), 110);
    assert_eq!(b.sem.total_permits(), 110);

    b.sem.try_acquire(20).unwrap().leak(&mut b.sem);
    assert_eq!(b.sem.available_permits(), 90);
    assert_eq!(b.sem.total_permits(), 90);
}

#[test]
fn permits_are_added_fairly() {
    let mut b = Bench::new(3);
    let _permit = b.sem.try_acquire(2);
    assert!(b.sem.try_acquire(2).is_none());
    b.sem.add_permits_fair(2, &mut b.wakes);
    assert!(b.sem.try_acquire(2).is_some());
}

#[test]
fn released_permits_can_be_acquired_again() {
    let mut b = Bench::new(3);
    let permit = b.sem.try_acquire(2).unwrap();
    assert!(b.sem.try_acquire(2).is_none());
    b.drop_permit(permit);
    assert!(b.sem.try_acquire(2).is_some());
}

#[test]
fn more_permits_than_there_are() {
    let mut b = Bench::new(usize::MAX);
    let all = b.sem.try_acquire(usize::MAX).unwrap();
    assert_eq!(b.sem.available_permits(), 0);
    assert!(b.sem.try_acquire(1).is_none());
    assert!(b.sem.try_acquire(0).is_some());
    b.drop_permit(all);
    assert_eq!(b.sem.available_permits(), usize::MAX);
}

#[test]
fn permits_can_be_stolen_from_a_waiter() {
    let mut b = Bench::new(1);

    let mut future = b.sem.acquire(2);
    assert!(b.poll(&mut future).is_none());

    assert!(b.sem.try_acquire(1).is_none());
    let stolen = b.sem.try_acquire_unfair(1).unwrap();
    b.drop_permit(stolen);

    b.drop_future(future);

    assert!(b.sem.try_acquire(1).is_some());
}

#[test]
fn permits_can_be_acquired_unfairly() {
    let mut b = Bench::new(1);

    let mut future = b.sem.acquire(2);
    assert!(b.poll(&mut future).is_none());

    assert!(b.sem.try_acquire(1).is_none());
    // Steal one permit from `future` which is in the process of acquiring permits.
    let mut thief = b.sem.acquire_unfair(1);
    let permit = b.poll(&mut thief).unwrap();
    b.drop_permit(permit);

    b.drop_future(future);
    assert!(b.sem.try_acquire(1).is_some());
}

#[test]
fn permit_is_acquired() {
    let mut b = Bench::new(1);
    let mut acquire = b.sem.acquire(1);
    let permit = b.poll(&mut acquire);
    assert_eq!(permit.map(|permit| permit.permits()), Some(1));
    assert!(b.sem.try_acquire(1).is_none());
}

#[test]
fn unfair_release_lets_permits_be_stolen() {
    let mut b = Bench::new(1);
    let initial = b.sem.try_acquire(1).unwrap();

    let mut f1 = b.sem.acquire(1);
    assert!(b.poll(&mut f1).is_none());

    b.drop_permit(initial);

    let mut f2 = b.sem.acquire(1);
    let stolen = b.poll(&mut f2);
    assert!(stolen.is_some());
    b.drop_permit(stolen.unwrap());
    assert!(b.poll(&mut f1).is_some());
}

#[test]
fn woken_waiter_whose_permits_were_stolen_waits_again() {
    let mut b = Bench::new(1);
    let initial = b.sem.try_acquire(1).unwrap();
    let (first, w1) = task();
    let mut f1 = b.sem.acquire(1);
    assert!(matches!(f1.poll(&mut b.sem, &w1, &mut b.wakes), Poll::Pending));

    b.drop_permit(initial);
    run(&mut b.wakes);
    assert_eq!(woken(&first), 1);

    let stolen = b.sem.try_acquire_unfair(1).unwrap();
    assert!(matches!(f1.poll(&mut b.sem, &w1, &mut b.wakes), Poll::Pending));
    b.drop_permit(stolen);
    run(&mut b.wakes);
    assert_eq!(woken(&first), 2);
    assert!(matches!(f1.poll(&mut b.sem, &w1, &mut b.wakes), Poll::Ready(_)));
}

#[test]
fn fair_release_hands_permits_to_the_first_in_line() {
    let mut b = Bench::new(1);
    let initial = b.sem.try_acquire(1).unwrap();

    let mut f1 = b.sem.acquire(1);
    assert!(b.poll(&mut f1).is_none());

    initial.release_fair(&mut b.sem, &mut b.wakes);

    let mut f2 = b.sem.acquire(1);
    assert!(b.poll(&mut f2).is_none());
    let first = b.poll(&mut f1);
    assert!(first.is_some());
    b.drop_permit(first.unwrap());
    assert!(b.poll(&mut f2).is_some());
}

#[test]
fn release_serves_as_many_waiters_as_it_can() {
    let mut b = Bench::new(6);
    let initial = b.sem.try_acquire(6).unwrap();
    let tasks: Vec<(Arc<Count>, Waker)> = (0..4).map(|_| task()).collect();
    let mut futures: Vec<Acquire> =
        [2, 3, 2, 1].iter().map(|&wanted| b.sem.acquire(wanted)).collect();
    for (future, task) in futures.iter_mut().zip(&tasks) {
        assert!(matches!(future.poll(&mut b.sem, &task.1, &mut b.wakes), Poll::Pending));
    }
    initial.release_fair(&mut b.sem, &mut b.wakes);
    run(&mut b.wakes);
    // The third waiter wants more than is left, and nobody overtakes it.
    let counts: Vec<usize> = tasks.iter().map(|task| woken(&task.0)).collect();
    assert_eq!(counts, vec![1, 1, 0, 0]);
    assert_eq!(b.sem.available_permits(), 1);
    for i in 0..2 {
        assert!(b.poll(&mut futures[i]).is_some());
    }
    assert!(b.poll(&mut futures[2]).is_none());
    assert_eq!(b.sem.available_permits(), 1);
    assert_eq!(b.sem.total_permits(), 6);
}

#[test]
fn adding_permits_wakes_waiters() {
    let mut b = Bench::new(0);
    let (first, w1) = task();
    let mut f1 = b.sem.acquire(2);
    assert!(matches!(f1.poll(&mut b.sem, &w1, &mut b.wakes), Poll::Pending));
    b.sem.add_permits(1, &mut b.wakes);
    assert!(b.wakes.is_empty());
    b.sem.add_permits_fair(1, &mut b.wakes);
    run(&mut b.wakes);
    assert_eq!(woken(&first), 1);
    assert_eq!(b.sem.available_permits(), 0);
    assert!(b.poll(&mut f1).is_some());
    assert_eq!(b.sem.total_permits(), 2);
}

#[test]
fn permits_are_accounted_for() {
    let mut b = Bench::new(4);
    let first = b.sem.try_acquire(3).unwrap();
    let mut f1 = b.sem.acquire(2);
    let mut f2 = b.sem.acquire(2);
    assert!(b.poll(&mut f1).is_none());
    assert!(b.poll(&mut f2).is_none());

    // One is available, three are out, none is granted.
    assert_eq!((b.sem.available_permits(), b.sem.total_permits()), (1, 4));
    b.sem.add_permits_fair(1, &mut b.wakes);
    // None is available, three are out, two are granted.
    assert_eq!((b.sem.available_permits(), b.sem.total_permits()), (0, 5));
    let granted = b.poll(&mut f1).unwrap();
    assert_eq!(granted.permits(), 2);
    first.leak(&mut b.sem);
    // None is available, two are out.
    assert_eq!((b.sem.available_permits(), b.sem.total_permits()), (0, 2));
    granted.release_fair(&mut b.sem, &mut b.wakes);
    // Two are granted, and come back when they are not collected.
    assert_eq!((b.sem.available_permits(), b.sem.total_permits()), (0, 2));
    b.drop_future(f2);
    assert_eq!((b.sem.available_permits(), b.sem.total_permits()), (2, 2));
}
