use std::sync::{Arc, Mutex};
use std::task::{Wake, Waker};

use unsync::task::Poll;
use unsync::wait_list::{Wait, WaitList};

/// Counts how often its task has been woken.
struct Count(Mutex<usize>);

impl Wake for Count {
    fn wake(self: Arc<Self>) {
        *self.0.lock().unwrap() += 1;
    }
}

fn task() -> (Arc<Count>, Waker) {
    let count = Arc::new(Count(Mutex::new(0)));
    (count.clone(), Waker::from(count))
}

fn woken(count: &Arc<Count>) -> usize {
    *count.0.lock().unwrap()
}

fn run(wakes: &mut Vec<Waker>) {
    for waker in wakes.drain(..) {
        waker.wake();
    }
}

fn head<I: Clone, O>(list: &mut WaitList<I, O>) -> Option<I> {
    let borrowed = list.borrow();
    let input = borrowed.head_input().cloned();
    list.release(borrowed);
    input
}

fn wake_one<I, O>(list: &mut WaitList<I, O>, output: O, wakes: &mut Vec<Waker>) -> Result<(), O> {
    let mut borrowed = list.borrow();
    let result = borrowed.wake_one(output, wakes);
    list.release(borrowed);
    result
}

#[test]
fn wake_empty() {
    let mut wakes = Vec::new();
    let mut list = <WaitList<(), ()>>::new();
    assert_eq!(wake_one(&mut list, (), &mut wakes), Err(()));
    assert_eq!(wake_one(&mut list, (), &mut wakes), Err(()));
    assert_eq!(head(&mut list), None);
    assert!(wakes.is_empty());
}

#[test]
fn cancel() {
    let (_, waker) = task();

    let mut list = <WaitList<Box<u32>, ()>>::new();
    let mut future = list.wait(Box::new(5));
    for _ in 0..10 {
        assert_eq!(future.poll(&mut list, &waker), Poll::Pending);
    }
    assert_eq!(future.cancel(&mut list), None);
    assert_eq!(head(&mut list), None);
}

#[test]
fn wake_single() {
    let (_, waker) = task();
    let mut wakes = Vec::new();

    let mut list = <WaitList<Box<u32>, Box<u32>>>::new();
    let mut future = list.wait(Box::new(5));
    assert_eq!(future.poll(&mut list, &waker), Poll::Pending);
    assert_eq!(*head(&mut list).unwrap(), 5);

    assert_eq!(wake_one(&mut list, Box::new(6), &mut wakes), Ok(()));
    assert_eq!(future.poll(&mut list, &waker), Poll::Ready(Box::new(6)));
    assert_eq!(head(&mut list), None);
}

#[test]
fn wake_multiple() {
    let (_, waker) = task();
    let mut wakes = Vec::new();

    let mut list = <WaitList<Box<u32>, Box<u32>>>::new();
    let mut f1 = list.wait(Box::new(1));
    let mut f2 = list.wait(Box::new(2));
    let mut f3 = list.wait(Box::new(3));
    assert_eq!(f1.poll(&mut list, &waker), Poll::Pending);
    assert_eq!(f2.poll(&mut list, &waker), Poll::Pending);
    let _ = wake_one(&mut list, Box::new(11), &mut wakes);
    assert_eq!(f3.poll(&mut list, &waker), Poll::Pending);
    let _ = wake_one(&mut list, Box::new(12), &mut wakes);
    let _ = wake_one(&mut list, Box::new(99), &mut wakes);
    let _ = wake_one(&mut list, Box::new(99), &mut wakes);
    assert_eq!(f2.poll(&mut list, &waker), Poll::Ready(Box::new(12)));
    assert_eq!(f1.poll(&mut list, &waker), Poll::Ready(Box::new(11)));
    assert_eq!(f3.cancel(&mut list), Some(Box::new(99)));
}

#[test]
fn drop_in_middle() {
    let (_, waker) = task();

    let mut list = <WaitList<Box<u32>, ()>>::new();
    let mut f1 = list.wait(Box::new(1));
    let mut f2 = list.wait(Box::new(2));
    let mut f3 = list.wait(Box::new(3));
    assert_eq!(f1.poll(&mut list, &waker), Poll::Pending);
    assert_eq!(f2.poll(&mut list, &waker), Poll::Pending);
    assert_eq!(f3.poll(&mut list, &waker), Poll::Pending);
    f2.cancel(&mut list);
    assert_eq!(head(&mut list), Some(Box::new(1)));
    f3.cancel(&mut list);
    f1.cancel(&mut list);
    let borrowed = list.borrow();
    assert!(borrowed.is_empty());
    list.release(borrowed);
}

#[test]
fn borrowing_twice_is_refused() {
    let mut list = <WaitList<u32, ()>>::new();
    let borrowed = list.try_borrow().unwrap();
    assert!(list.try_borrow().is_none());
    list.release(borrowed);
    assert!(list.try_borrow().is_some());
}

#[test]
fn head_input_can_be_changed() {
    let (_, waker) = task();
    let mut list = <WaitList<u32, ()>>::new();
    let mut f1 = list.wait(1);
    let mut f2 = list.wait(2);
    assert_eq!(f1.poll(&mut list, &waker), Poll::Pending);
    assert_eq!(f2.poll(&mut list, &waker), Poll::Pending);
    let mut borrowed = list.borrow();
    *borrowed.head_input_mut().unwrap() = 7;
    assert_eq!(borrowed.head_input(), Some(&7));
    list.release(borrowed);
    f1.cancel(&mut list);
    let mut borrowed = list.borrow();
    assert_eq!(borrowed.head_input(), Some(&2));
    assert_eq!(borrowed.head_input_mut(), Some(&mut 2));
    list.release(borrowed);
}

#[test]
fn waiters_are_woken_in_the_order_in_which_they_came() {
    let mut wakes = Vec::new();
    let mut list = <WaitList<u32, u32>>::new();
    let tasks: Vec<(Arc<Count>, Waker)> = (0..4).map(|_| task()).collect();
    let mut waits: Vec<Wait<u32>> = (0..4).map(|i| list.wait(i)).collect();
    for (wait, task) in waits.iter_mut().zip(&tasks) {
        assert_eq!(wait.poll(&mut list, &task.1), Poll::Pending);
    }
    for i in 0..4 {
        assert_eq!(wake_one(&mut list, 10 + i as u32, &mut wakes), Ok(()));
        run(&mut wakes);
        let counts: Vec<usize> = tasks.iter().map(|task| woken(&task.0)).collect();
        let expected: Vec<usize> = (0..4).map(|j| if j <= i { 1 } else { 0 }).collect();
        assert_eq!(counts, expected);
    }
    for (i, wait) in waits.iter_mut().enumerate() {
        assert_eq!(wait.poll(&mut list, &tasks[i].1), Poll::Ready(10 + i as u32));
    }
    assert_eq!(wake_one(&mut list, 0, &mut wakes), Err(0));
}

#[test]
fn latest_waker_of_a_waiter_is_woken() {
    let (first, w1) = task();
    let (second, w2) = task();
    let mut wakes = Vec::new();
    let mut list = <WaitList<(), ()>>::new();
    let mut future = list.wait(());
    assert_eq!(future.poll(&mut list, &w1), Poll::Pending);
    assert_eq!(future.poll(&mut list, &w2), Poll::Pending);
    assert_eq!(wake_one(&mut list, (), &mut wakes), Ok(()));
    assert_eq!(wakes.len(), 1);
    run(&mut wakes);
    assert_eq!(woken(&first), 0);
    assert_eq!(woken(&second), 1);
}

#[test]
fn cancelling_undoes_waiting() {
    let (_, waker) = task();
    let mut wakes = Vec::new();
    let mut list = <WaitList<u32, u32>>::new();
    let mut f1 = list.wait(1);
    assert_eq!(f1.poll(&mut list, &waker), Poll::Pending);
    // Slots of waiters that have gone are used again.
    for n in 0..100 {
        let mut f2 = list.wait(n);
        assert_eq!(f2.poll(&mut list, &waker), Poll::Pending);
        f2.cancel(&mut list);
        assert_eq!(head(&mut list), Some(1));
    }
    assert_eq!(wake_one(&mut list, 5, &mut wakes), Ok(()));
    assert_eq!(wake_one(&mut list, 6, &mut wakes), Err(6));
    assert_eq!(f1.poll(&mut list, &waker), Poll::Ready(5));
}

/// An unfair mutex over a wait list.
struct Lock {
    locked: bool,
    waiters: WaitList<(), ()>,
}

impl Lock {
    fn lock(&mut self, wait: &mut Option<Wait<()>>, waker: &Waker) -> bool {
        loop {
            if let Some(waiting) = wait {
                if let Poll::Pending = waiting.poll(&mut self.waiters, waker) {
                    return false;
                }
                *wait = None;
            }
            if !self.locked {
                self.locked = true;
                return true;
            }
            *wait = Some(self.waiters.wait(()));
        }
    }

    fn unlock(&mut self, wakes: &mut Vec<Waker>) {
        self.locked = false;
        let _ = wake_one(&mut self.waiters, (), wakes);
    }
}

#[test]
fn mutex_over_a_wait_list() {
    let (first, w1) = task();
    let (second, w2) = task();
    let mut wakes = Vec::new();
    let mut lock = Lock { locked: false, waiters: WaitList::new() };
    let (mut a, mut b, mut c) = (None, None, None);
    assert!(lock.lock(&mut a, &w1));
    assert!(!lock.lock(&mut b, &w1));
    assert!(!lock.lock(&mut c, &w2));
    lock.unlock(&mut wakes);
    run(&mut wakes);
    assert_eq!((woken(&first), woken(&second)), (1, 0));
    assert!(lock.lock(&mut b, &w1));
    assert!(!lock.lock(&mut c, &w2));
    lock.unlock(&mut wakes);
    run(&mut wakes);
    assert_eq!((woken(&first), woken(&second)), (1, 1));
    assert!(lock.lock(&mut c, &w2));
}
