use std::sync::{Arc, Mutex};
use std::task::{Wake, Waker};

use unsync::once_cell::{Init, SetResult, Step};
use unsync::task::Poll;
use unsync::OnceCell;

/// Counts how often its task has been woken.
struct Count(Mutex<usize>);

impl Wake for Count {
    fn wake(self: Arc<Self>) {
        *self.0.lock().unwrap() += 1;
    }
}

fn task() -> (Arc<Count>, Waker) {
    let count = Arc::new(Count(Mutex::new(0)));
    (count.clone(), Waker::from(count))
}

fn woken(count: &Arc<Count>) -> usize {
    *count.0.lock().unwrap()
}

fn run(wakes: &mut Vec<Waker>) {
    for waker in wakes.drain(..) {
        waker.wake();
    }
}

/// An initializer that yields a number of times before it completes.
struct Slow<T> {
    init: Init,
    yields: usize,
    result: Option<T>,
}

impl<T> Slow<T> {
    fn new(init: Init, yields: usize, result: T) -> Self {
        Slow { init, yields, result: Some(result) }
    }
}

impl<V, E> Slow<Result<V, E>> {
    fn poll<'a>(
        &mut self,
        cell: &'a mut OnceCell<V>,
        waker: &Waker,
        wakes: &mut Vec<Waker>,
    ) -> Poll<Result<&'a V, E>> {
        let run = match self.init.poll(cell, waker) {
            Step::Ready(_) => false,
            Step::Pending => return Poll::Pending,
            Step::Run => true,
        };
        if !run {
            return Poll::Ready(Ok(cell.get().unwrap()));
        }
        if self.yields > 0 {
            self.yields -= 1;
            return Poll::Pending;
        }
        let result = self.result.take().unwrap();
        Poll::Ready(self.init.resolve(cell, result, wakes))
    }
}

#[test]
fn insert_when_initializing() {
    let (_, waker) = task();
    let mut wakes = Vec::new();

    let mut cell = OnceCell::new();

    let iters = 3;

    let mut initializer = Slow::new(cell.get_or_init(), iters, Ok::<i32, ()>(5));

    let mut inserter = cell.insert(6);

    for _ in 0..iters {
        assert_eq!(initializer.poll(&mut cell, &waker, &mut wakes), Poll::Pending);
        assert_eq!(inserter.poll(&mut cell, &waker, &mut wakes), Poll::Pending);
    }

    assert_eq!(initializer.poll(&mut cell, &waker, &mut wakes), Poll::Ready(Ok(&5)));
    assert_eq!(inserter.poll(&mut cell, &waker, &mut wakes), Poll::Ready(Err((&5, 6))));
}

#[test]
fn setting_while_initializing() {
    let (_, waker) = task();
    let mut wakes = Vec::new();
    let mut cell = OnceCell::new();

    let mut initializer = Slow::new(cell.get_or_init(), 1, Ok::<i32, ()>(5));

    assert_eq!(initializer.poll(&mut cell, &waker, &mut wakes), Poll::Pending);
    // Indicates that the cell is currently initializing.
    assert_eq!(cell.set(6), SetResult::Initializing(6));
    assert_eq!(cell.get(), None);
    assert_eq!(cell.get_mut(), None);

    assert_eq!(initializer.poll(&mut cell, &waker, &mut wakes), Poll::Ready(Ok(&5)));
    // Indicates that the cell has been initialized.
    assert_eq!(cell.set(6), SetResult::Initialized(&5, 6));
}

#[test]
fn failed_initialization_is_superseded_by_set() {
    let (_, waker) = task();
    let mut wakes = Vec::new();
    let mut cell = OnceCell::<i32>::new();

    let mut failer = Slow::new(cell.get_or_try_init(), 0, Err("error"));
    assert_eq!(failer.poll(&mut cell, &waker, &mut wakes), Poll::Ready(Err("error")));

    assert_eq!(cell.get(), None);
    assert_eq!(cell.set(5), SetResult::Stored(&5));
    assert_eq!(cell.get(), Some(&5));
}

#[test]
fn insert_into_an_empty_and_a_full_cell() {
    let (_, waker) = task();
    let mut wakes = Vec::new();
    let mut cell = OnceCell::new();
    let mut insert = cell.insert(5);
    assert_eq!(insert.poll(&mut cell, &waker, &mut wakes), Poll::Ready(Ok(&5)));
    assert_eq!(cell.get(), Some(&5));
    let mut insert = cell.insert(6);
    assert_eq!(insert.poll(&mut cell, &waker, &mut wakes), Poll::Ready(Err((&5, 6))));
}

#[test]
fn failed_initialization_is_superseded_by_insert() {
    let (failing, w1) = task();
    let (succeeding, w2) = task();
    let mut wakes = Vec::new();
    let mut cell = OnceCell::<i32>::new();

    let mut failer = Slow::new(cell.get_or_try_init(), 1, Err("error"));
    let mut succeeder = cell.insert(10);

    assert_eq!(failer.poll(&mut cell, &w1, &mut wakes), Poll::Pending);
    assert_eq!(succeeder.poll(&mut cell, &w2, &mut wakes), Poll::Pending);

    assert_eq!(failer.poll(&mut cell, &w1, &mut wakes), Poll::Ready(Err("error")));
    run(&mut wakes);
    assert_eq!((woken(&failing), woken(&succeeding)), (0, 1));
    assert_eq!(cell.set(0), SetResult::Initializing(0));
    assert_eq!(succeeder.poll(&mut cell, &w2, &mut wakes), Poll::Ready(Ok(&10)));
    assert_eq!(cell.get(), Some(&10));
}

#[test]
fn initializer_runs_once() {
    let (_, waker) = task();
    let mut wakes = Vec::new();
    let mut cell = OnceCell::new();

    let mut first = Slow::new(cell.get_or_init(), 0, Ok::<i32, ()>(13));
    assert_eq!(first.poll(&mut cell, &waker, &mut wakes), Poll::Ready(Ok(&13)));

    let mut second = cell.get_or_init();
    assert!(matches!(second.poll(&mut cell, &waker), Step::Ready(&13)));
}

#[test]
fn success_wakes_all_waiters_and_failure_wakes_one() {
    let mut wakes = Vec::new();
    let mut cell = OnceCell::<i32>::new();
    let (_, waker) = task();
    let tasks: Vec<(Arc<Count>, Waker)> = (0..3).map(|_| task()).collect();

    let mut failer = Slow::new(cell.get_or_try_init(), 1, Err("error"));
    assert_eq!(failer.poll(&mut cell, &waker, &mut wakes), Poll::Pending);
    let mut others: Vec<Slow<Result<i32, &str>>> =
        (0..3).map(|n| Slow::new(cell.get_or_try_init(), 0, Ok(n))).collect();
    for (other, task) in others.iter_mut().zip(&tasks) {
        assert_eq!(other.poll(&mut cell, &task.1, &mut wakes), Poll::Pending);
    }
    assert_eq!(failer.poll(&mut cell, &waker, &mut wakes), Poll::Ready(Err("error")));
    run(&mut wakes);
    let counts: Vec<usize> = tasks.iter().map(|task| woken(&task.0)).collect();
    assert_eq!(counts, vec![1, 0, 0]);
    assert_eq!(others[0].poll(&mut cell, &waker, &mut wakes), Poll::Ready(Ok(&0)));
    run(&mut wakes);
    let counts: Vec<usize> = tasks.iter().map(|task| woken(&task.0)).collect();
    assert_eq!(counts, vec![1, 1, 1]);
    assert_eq!(others[1].poll(&mut cell, &waker, &mut wakes), Poll::Ready(Ok(&0)));
    assert_eq!(others[2].poll(&mut cell, &waker, &mut wakes), Poll::Ready(Ok(&0)));
}

#[test]
fn cancelled_initializer_passes_the_job_on() {
    let (_, w1) = task();
    let (second, w2) = task();
    let mut wakes = Vec::new();
    let mut cell = OnceCell::<i32>::new();
    let mut first = cell.get_or_init();
    assert!(matches!(first.poll(&mut cell, &w1), Step::Run));
    let mut insert = cell.insert(3);
    assert_eq!(insert.poll(&mut cell, &w2, &mut wakes), Poll::Pending);
    first.cancel(&mut cell, &mut wakes);
    run(&mut wakes);
    assert_eq!(woken(&second), 1);
    assert_eq!(insert.poll(&mut cell, &w2, &mut wakes), Poll::Ready(Ok(&3)));
}

#[test]
fn cancelled_initializer_without_waiters_leaves_the_cell_empty() {
    let (_, waker) = task();
    let mut wakes = Vec::new();
    let mut cell = OnceCell::<i32>::new();
    let mut first = cell.get_or_init();
    assert!(matches!(first.poll(&mut cell, &waker), Step::Run));
    let mut insert = cell.insert(3);
    assert_eq!(insert.poll(&mut cell, &waker, &mut wakes), Poll::Pending);
    insert.cancel(&mut cell);
    first.cancel(&mut cell, &mut wakes);
    assert!(wakes.is_empty());
    assert_eq!(cell.set(4), SetResult::Stored(&4));
}

#[test]
fn value_can_be_changed_in_place() {
    let mut cell = OnceCell::from(1);
    *cell.get_mut().unwrap() += 1;
    assert_eq!(cell.get(), Some(&2));
}

#[test]
fn value_can_be_taken_out() {
    let mut cell = OnceCell::new();
    assert_eq!(cell.take(), None);

    let _ = cell.set(10).unwrap();
    assert_eq!(cell.take(), Some(10));
    assert_eq!(cell.take(), None);

    assert_eq!(<OnceCell<i32>>::new().into_inner(), None);
    assert_eq!(<OnceCell<i32>>::from(10).into_inner(), Some(10));
}

#[test]
fn cells_are_compared_and_cloned_by_their_values() {
    assert!(OnceCell::from(1) == OnceCell::from(1));
    assert!(OnceCell::from(1) != OnceCell::from(2));
    assert!(OnceCell::from(1) != OnceCell::new());
    assert!(OnceCell::<i32>::new() == OnceCell::default());
    assert_eq!(OnceCell::from(3).clone().into_inner(), Some(3));
    assert_eq!(OnceCell::<i32>::new().clone().into_inner(), None);
}

#[test]
fn set_result_accessors() {
    assert_eq!(SetResult::Stored(&1).ok(), Ok(&1));
    assert_eq!(SetResult::Initializing(2).ok(), Err(2));
    assert_eq!(SetResult::Initialized(&1, 2).ok(), Err(2));
    assert_eq!(SetResult::Stored(&1).value(), Some(&1));
    assert_eq!(SetResult::Initializing(2).value(), None);
    assert_eq!(SetResult::Initialized(&1, 2).value(), Some(&1));
    assert_eq!(SetResult::Stored(&1).unwrap(), &1);
}
