use std::cell::RefCell;
use std::rc::Rc;
use std::sync::{Arc, Mutex};
use std::task::{Wake, Waker};

use unsync::task::Poll;
use unsync::{oneshot, spsc};

const END: u32 = 1_000_000;

/// Counts how often its task has been woken.
struct Count(Mutex<usize>);

impl Wake for Count {
    fn wake(self: Arc<Self>) {
        *self.0.lock().unwrap() += 1;
    }
}

fn task() -> (Arc<Count>, Waker) {
    let count = Arc::new(Count(Mutex::new(0)));
    (count.clone(), Waker::from(count))
}

fn woken(count: &Arc<Count>) -> usize {
    *count.0.lock().unwrap()
}

fn run(wakes: &mut Vec<Waker>) {
    for waker in wakes.drain(..) {
        waker.wake();
    }
}

#[test]
fn test_oneshot() {
    let (_, waker) = task();
    let mut wakes = Vec::new();
    let (mut channel, mut tx, mut rx) =
        spsc::channel::<(oneshot::Sender<u32>, Rc<RefCell<oneshot::Channel<u32>>>)>(1);

    let mut n = 0;
    let mut actual = Vec::new();

    for _ in 0..END {
        let (oneshot_channel, oneshot_tx, mut oneshot_rx) = oneshot::channel();
        let oneshot_channel = Rc::new(RefCell::new(oneshot_channel));
        let mut send = tx.send((oneshot_tx, oneshot_channel.clone()));
        assert!(matches!(send.poll(&mut channel, &waker, &mut wakes), Poll::Ready(Ok(()))));
        wakes.clear();
        if n % 5 == 0 {
            let polled = oneshot_rx.poll(&mut oneshot_channel.borrow_mut(), &waker);
            assert_eq!(polled, Poll::Pending);
        }

        while let Poll::Ready(received) = rx.recv().poll(&mut channel, &waker, &mut wakes) {
            let (oneshot_tx, shared) = received.unwrap();
            assert_eq!(oneshot_tx.send(&mut shared.borrow_mut(), n, &mut wakes), Ok(()));
            n += 1;
        }

        match oneshot_rx.poll(&mut oneshot_channel.borrow_mut(), &waker) {
            Poll::Ready(value) => actual.extend(value),
            Poll::Pending => panic!("the value was not received"),
        }
        oneshot_rx.close(&mut oneshot_channel.borrow_mut(), &mut wakes);
    }

    let expected = (0..END).collect::<Vec<_>>();

    assert_eq!(actual, expected);
}

#[test]
fn sending_to_a_dropped_receiver_fails() {
    let mut wakes = Vec::new();
    let (mut channel, tx, rx) = oneshot::channel::<u32>();
    rx.close(&mut channel, &mut wakes);
    let error = tx.send(&mut channel, 1, &mut wakes).unwrap_err();
    assert_eq!(error, oneshot::SendError(1));
    assert_eq!(error.message(), "channel disconnected");
}

#[test]
fn value_is_received_once() {
    let (_, waker) = task();
    let mut wakes = Vec::new();
    let (mut channel, tx, mut rx) = oneshot::channel();
    assert!(tx.send(&mut channel, 1, &mut wakes).is_ok());
    assert_eq!(rx.poll(&mut channel, &waker), Poll::Ready(Some(1)));
    assert_eq!(rx.poll(&mut channel, &waker), Poll::Ready(None));
}

#[test]
fn sender_that_is_dropped_ends_the_receiver() {
    let (receiving, waker) = task();
    let mut wakes = Vec::new();
    let (mut channel, tx, mut rx) = oneshot::channel::<u32>();
    assert_eq!(rx.poll(&mut channel, &waker), Poll::Pending);
    tx.close(&mut channel, &mut wakes);
    run(&mut wakes);
    assert_eq!(woken(&receiving), 1);
    assert_eq!(rx.poll(&mut channel, &waker), Poll::Ready(None));
}

#[test]
fn sending_wakes_the_latest_task() {
    let (first, w1) = task();
    let (second, w2) = task();
    let mut wakes = Vec::new();
    let (mut channel, tx, mut rx) = oneshot::channel();
    assert_eq!(rx.poll(&mut channel, &w1), Poll::Pending);
    assert_eq!(rx.poll(&mut channel, &w2), Poll::Pending);
    assert_eq!(tx.send(&mut channel, 5, &mut wakes), Ok(()));
    run(&mut wakes);
    assert_eq!((woken(&first), woken(&second)), (0, 1));
    assert_eq!(rx.poll(&mut channel, &w2), Poll::Ready(Some(5)));
}
