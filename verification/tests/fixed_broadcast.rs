use std::sync::{Arc, Mutex};
use std::task::{Wake, Waker};

use unsync::fixed_broadcast::{channel, SendError};
use unsync::task::Poll;

/// Counts how often its task has been woken.
struct Count(Mutex<usize>);

impl Wake for Count {
    fn wake(self: Arc<Self>) {
        *self.0.lock().unwrap() += 1;
    }
}

fn task() -> (Arc<Count>, Waker) {
    let count = Arc::new(Count(Mutex::new(0)));
    (count.clone(), Waker::from(count))
}

fn woken(count: &Arc<Count>) -> usize {
    *count.0.lock().unwrap()
}

fn run(wakes: &mut Vec<Waker>) {
    for waker in wakes.drain(..) {
        waker.wake();
    }
}

#[test]
fn places_are_limited() {
    let mut wakes = Vec::new();
    let (mut channel, mut tx) = channel::<2, u32>();
    assert_eq!(tx.subscribers(&mut channel), 0);
    let sub1 = tx.subscribe(&mut channel).unwrap();
    let _sub2 = tx.subscribe(&mut channel).unwrap();
    assert_eq!(tx.subscribers(&mut channel), 2);
    assert!(tx.subscribe(&mut channel).is_none());
    sub1.close(&mut channel, &mut wakes);
    assert_eq!(tx.subscribers(&mut channel), 1);
    assert!(tx.subscribe(&mut channel).is_some());
    assert_eq!(tx.subscribers(&mut channel), 2);
}

#[test]
fn sending_without_receivers_fails() {
    let (_, waker) = task();
    let mut wakes = Vec::new();
    let (mut channel, mut tx) = channel::<2, u32>();
    match tx.send(7).poll(&mut channel, &waker, &mut wakes) {
        Poll::Ready(Err(error)) => {
            assert_eq!(error.0, 7);
            assert_eq!(error.message(), "no receivers to broadcast channel");
        }
        _ => panic!("there were no receivers"),
    }
    let sub = tx.subscribe(&mut channel).unwrap();
    sub.close(&mut channel, &mut wakes);
    let result: Poll<Result<(), SendError<u32>>> =
        tx.send(8).poll(&mut channel, &waker, &mut wakes);
    assert!(matches!(result, Poll::Ready(Err(error)) if error.0 == 8));
}

#[test]
fn message_is_handed_to_waiting_receivers() {
    let (sending, w1) = task();
    let (receiving, w2) = task();
    let mut wakes = Vec::new();
    let (mut channel, mut tx) = channel::<3, u32>();
    let mut sub1 = tx.subscribe(&mut channel).unwrap();
    let mut sub2 = tx.subscribe(&mut channel).unwrap();
    let mut r1 = sub1.recv();
    let mut r2 = sub2.recv();
    assert_eq!(r1.poll(&mut channel, &w2, &mut wakes), Poll::Pending);

    let mut send = tx.send(5);
    assert!(matches!(send.poll(&mut channel, &w1, &mut wakes), Poll::Pending));
    run(&mut wakes);
    assert_eq!((woken(&sending), woken(&receiving)), (0, 1));
    assert_eq!(r1.poll(&mut channel, &w2, &mut wakes), Poll::Ready(Some(5)));

    // The sender is woken by a receiver that starts to wait.
    assert_eq!(r2.poll(&mut channel, &w2, &mut wakes), Poll::Pending);
    run(&mut wakes);
    assert_eq!((woken(&sending), woken(&receiving)), (1, 1));
    assert!(matches!(send.poll(&mut channel, &w1, &mut wakes), Poll::Ready(Ok(()))));
    assert_eq!(r2.poll(&mut channel, &w2, &mut wakes), Poll::Ready(Some(5)));
}

#[test]
fn message_is_handed_over_once() {
    let (_, waker) = task();
    let mut wakes = Vec::new();
    let (mut channel, mut tx) = channel::<2, u32>();
    let mut sub1 = tx.subscribe(&mut channel).unwrap();
    let _sub2 = tx.subscribe(&mut channel).unwrap();
    let mut first = sub1.recv();
    assert_eq!(first.poll(&mut channel, &waker, &mut wakes), Poll::Pending);
    let mut send = tx.send(1);
    assert!(matches!(send.poll(&mut channel, &waker, &mut wakes), Poll::Pending));
    assert_eq!(first.poll(&mut channel, &waker, &mut wakes), Poll::Ready(Some(1)));

    // The receiver waits for the next message, which this is not.
    let mut second = sub1.recv();
    assert_eq!(second.poll(&mut channel, &waker, &mut wakes), Poll::Pending);
    assert!(matches!(send.poll(&mut channel, &waker, &mut wakes), Poll::Pending));
    assert_eq!(second.poll(&mut channel, &waker, &mut wakes), Poll::Pending);
    second.cancel(&mut channel);
}

#[test]
fn dropping_a_receiver_lets_the_send_complete() {
    let (sending, w1) = task();
    let (_, w2) = task();
    let mut wakes = Vec::new();
    let (mut channel, mut tx) = channel::<2, u32>();
    let mut sub1 = tx.subscribe(&mut channel).unwrap();
    let sub2 = tx.subscribe(&mut channel).unwrap();
    let mut r1 = sub1.recv();
    assert_eq!(r1.poll(&mut channel, &w2, &mut wakes), Poll::Pending);
    let mut send = tx.send(1);
    assert!(matches!(send.poll(&mut channel, &w1, &mut wakes), Poll::Pending));
    wakes.clear();
    sub2.close(&mut channel, &mut wakes);
    run(&mut wakes);
    assert_eq!(woken(&sending), 1);
    assert!(matches!(send.poll(&mut channel, &w1, &mut wakes), Poll::Ready(Ok(()))));
    assert_eq!(r1.poll(&mut channel, &w2, &mut wakes), Poll::Ready(Some(1)));
}

#[test]
fn cancelled_receive_drops_its_message() {
    let (_, waker) = task();
    let mut wakes = Vec::new();
    let (mut channel, mut tx) = channel::<1, u32>();
    let mut sub = tx.subscribe(&mut channel).unwrap();
    let mut recv = sub.recv();
    assert_eq!(recv.poll(&mut channel, &waker, &mut wakes), Poll::Pending);
    let result = tx.send(1).poll(&mut channel, &waker, &mut wakes);
    assert!(matches!(result, Poll::Ready(Ok(()))));
    recv.cancel(&mut channel);
    let mut recv = sub.recv();
    assert_eq!(recv.poll(&mut channel, &waker, &mut wakes), Poll::Pending);
    let result = tx.send(2).poll(&mut channel, &waker, &mut wakes);
    assert!(matches!(result, Poll::Ready(Ok(()))));
    assert_eq!(recv.poll(&mut channel, &waker, &mut wakes), Poll::Ready(Some(2)));
}

#[test]
fn receive_that_was_never_polled_is_cancelled() {
    let (_, waker) = task();
    let mut wakes = Vec::new();
    let (mut channel, mut tx) = channel::<1, u32>();
    let mut sub = tx.subscribe(&mut channel).unwrap();
    sub.recv().cancel(&mut channel);
    let mut send = tx.send(2);
    assert!(matches!(send.poll(&mut channel, &waker, &mut wakes), Poll::Pending));
}

#[test]
fn dropping_the_sender_ends_the_receivers() {
    let (receiving, waker) = task();
    let mut wakes = Vec::new();
    let (mut channel, mut tx) = channel::<2, u32>();
    let mut sub1 = tx.subscribe(&mut channel).unwrap();
    let mut sub2 = tx.subscribe(&mut channel).unwrap();
    let mut r1 = sub1.recv();
    let mut r2 = sub2.recv();
    assert_eq!(r1.poll(&mut channel, &waker, &mut wakes), Poll::Pending);
    assert_eq!(r2.poll(&mut channel, &waker, &mut wakes), Poll::Pending);
    let result = tx.send(4).poll(&mut channel, &waker, &mut wakes);
    assert!(matches!(result, Poll::Ready(Ok(()))));
    wakes.clear();
    tx.close(&mut channel, &mut wakes);
    run(&mut wakes);
    assert_eq!(woken(&receiving), 2);
    // What has been handed over is still received.
    assert_eq!(r1.poll(&mut channel, &waker, &mut wakes), Poll::Ready(Some(4)));
    assert_eq!(r2.poll(&mut channel, &waker, &mut wakes), Poll::Ready(Some(4)));
    assert_eq!(sub1.recv().poll(&mut channel, &waker, &mut wakes), Poll::Ready(None));
    sub1.close(&mut channel, &mut wakes);
    sub2.close(&mut channel, &mut wakes);
}

#[test]
fn waiting_receiver_ends_with_the_sender() {
    let (_, waker) = task();
    let mut wakes = Vec::new();
    let (mut channel, mut tx) = channel::<1, u32>();
    let mut sub = tx.subscribe(&mut channel).unwrap();
    let mut recv = sub.recv();
    assert_eq!(recv.poll(&mut channel, &waker, &mut wakes), Poll::Pending);
    tx.close(&mut channel, &mut wakes);
    assert_eq!(recv.poll(&mut channel, &waker, &mut wakes), Poll::Ready(None));
}

#[test]
fn first_task_of_a_place_stays_registered() {
    let (first, w1) = task();
    let (second, w2) = task();
    let (_, w3) = task();
    let mut wakes = Vec::new();
    let (mut channel, mut tx) = channel::<1, u32>();
    let mut sub = tx.subscribe(&mut channel).unwrap();
    let mut recv = sub.recv();
    assert_eq!(recv.poll(&mut channel, &w1, &mut wakes), Poll::Pending);
    assert_eq!(recv.poll(&mut channel, &w2, &mut wakes), Poll::Pending);
    let result = tx.send(1).poll(&mut channel, &w3, &mut wakes);
    assert!(matches!(result, Poll::Ready(Ok(()))));
    run(&mut wakes);
    assert_eq!((woken(&first), woken(&second)), (1, 0));
    assert_eq!(recv.poll(&mut channel, &w2, &mut wakes), Poll::Ready(Some(1)));
}
