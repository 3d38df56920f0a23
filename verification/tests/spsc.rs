use std::sync::{Arc, Mutex};
use std::task::{Wake, Waker};

use unsync::spsc;
use unsync::task::Poll;

const SIZE: u32 = 100_000;

/// Counts how often its task has been woken.
struct Count(Mutex<usize>);

impl Wake for Count {
    fn wake(self: Arc<Self>) {
        *self.0.lock().unwrap() += 1;
    }
}

fn task() -> (Arc<Count>, Waker) {
    let count = Arc::new(Count(Mutex::new(0)));
    (count.clone(), Waker::from(count))
}

fn woken(count: &Arc<Count>) -> usize {
    *count.0.lock().unwrap()
}

fn run(wakes: &mut Vec<Waker>) {
    for waker in wakes.drain(..) {
        waker.wake();
    }
}

#[test]
fn test_spsc() {
    let (_, waker) = task();
    let mut wakes = Vec::new();
    let (mut channel, mut tx, mut rx) = spsc::channel(2);

    let mut actual = Vec::new();

    for n in 0..SIZE {
        let mut send = tx.send(n);
        while let Poll::Pending = send.poll(&mut channel, &waker, &mut wakes) {
            while let Poll::Ready(value) = rx.recv().poll(&mut channel, &waker, &mut wakes) {
                actual.push(value.unwrap());
                if actual.len() % 3 == 0 {
                    break;
                }
            }
        }
        wakes.clear();
    }
    tx.close(&mut channel, &mut wakes);

    while let Poll::Ready(Some(value)) = rx.recv().poll(&mut channel, &waker, &mut wakes) {
        actual.push(value);
    }

    let expected = (0..SIZE).collect::<Vec<_>>();

    assert_eq!(actual, expected);
}

#[test]
fn test_try_send() {
    let (_, waker) = task();
    let mut wakes = Vec::new();
    let (mut channel, mut tx, mut rx) = spsc::channel(3);
    assert!(tx.try_send(&mut channel, 1, &mut wakes).is_ok());
    assert!(tx.try_send(&mut channel, 2, &mut wakes).is_ok());
    assert!(tx.try_send(&mut channel, 3, &mut wakes).is_ok());
    assert!(tx.try_send(&mut channel, 4, &mut wakes).is_err());

    let first = rx.recv().poll(&mut channel, &waker, &mut wakes);
    assert_eq!(first, Poll::Ready(Some(1)));
    assert!(tx.try_send(&mut channel, 5, &mut wakes).is_ok());
    assert!(tx.try_send(&mut channel, 6, &mut wakes).is_err());

    let mut collected = Vec::new();

    tx.close(&mut channel, &mut wakes);

    while let Poll::Ready(Some(value)) = rx.recv().poll(&mut channel, &waker, &mut wakes) {
        collected.push(value);
    }

    assert_eq!(collected, vec![2, 3, 5]);
}

#[test]
fn full_channel_hands_the_value_back() {
    let mut wakes = Vec::new();
    let (mut channel, mut tx, _rx) = spsc::channel(1);
    assert!(tx.try_send(&mut channel, 1, &mut wakes).is_ok());
    match tx.try_send(&mut channel, 2, &mut wakes) {
        Err(error) => {
            assert_eq!(error.message(), "channel disconnected");
            assert_eq!(error.0, 2);
        }
        Ok(()) => panic!("the channel was full"),
    }
}

#[test]
fn channel_without_capacity_accepts_nothing() {
    let (_, waker) = task();
    let mut wakes = Vec::new();
    let (mut channel, mut tx, mut rx) = spsc::channel(0);
    assert!(tx.try_send(&mut channel, 1, &mut wakes).is_err());
    assert!(matches!(tx.send(1).poll(&mut channel, &waker, &mut wakes), Poll::Pending));
    assert_eq!(rx.recv().poll(&mut channel, &waker, &mut wakes), Poll::Pending);
}

#[test]
fn sending_over_a_channel_whose_receiver_is_gone_fails() {
    let (_, waker) = task();
    let mut wakes = Vec::new();
    let (mut channel, mut tx, rx) = spsc::channel(1);
    rx.close(&mut channel, &mut wakes);
    let mut send = tx.send(7);
    assert!(matches!(
        send.poll(&mut channel, &waker, &mut wakes),
        Poll::Ready(Err(error)) if error.0 == 7
    ));
    assert!(matches!(tx.try_send(&mut channel, 8, &mut wakes), Err(error) if error.0 == 8));
}

#[test]
fn waiting_ends_are_woken() {
    let (sending, w1) = task();
    let (receiving, w2) = task();
    let mut wakes = Vec::new();
    let (mut channel, mut tx, mut rx) = spsc::channel(1);

    assert_eq!(rx.recv().poll(&mut channel, &w2, &mut wakes), Poll::Pending);
    assert!(tx.try_send(&mut channel, 1, &mut wakes).is_ok());
    run(&mut wakes);
    assert_eq!((woken(&sending), woken(&receiving)), (0, 1));

    let mut send = tx.send(2);
    assert!(matches!(send.poll(&mut channel, &w1, &mut wakes), Poll::Pending));
    assert_eq!(rx.recv().poll(&mut channel, &w2, &mut wakes), Poll::Ready(Some(1)));
    assert!(wakes.is_empty());
    assert_eq!(rx.recv().poll(&mut channel, &w2, &mut wakes), Poll::Pending);
    run(&mut wakes);
    assert_eq!((woken(&sending), woken(&receiving)), (1, 1));
    assert!(matches!(send.poll(&mut channel, &w1, &mut wakes), Poll::Ready(Ok(()))));
    run(&mut wakes);
    assert_eq!((woken(&sending), woken(&receiving)), (1, 2));
    assert_eq!(rx.recv().poll(&mut channel, &w2, &mut wakes), Poll::Ready(Some(2)));

    assert_eq!(rx.recv().poll(&mut channel, &w2, &mut wakes), Poll::Pending);
    wakes.clear();
    tx.close(&mut channel, &mut wakes);
    run(&mut wakes);
    assert_eq!((woken(&sending), woken(&receiving)), (1, 3));
    assert_eq!(rx.recv().poll(&mut channel, &w2, &mut wakes), Poll::Ready(None));
}

#[test]
fn latest_receiving_task_is_woken() {
    let (first, w1) = task();
    let (second, w2) = task();
    let mut wakes = Vec::new();
    let (mut channel, mut tx, mut rx) = spsc::channel(1);
    let mut recv = rx.recv();
    assert_eq!(recv.poll(&mut channel, &w1, &mut wakes), Poll::Pending);
    assert_eq!(recv.poll(&mut channel, &w2, &mut wakes), Poll::Pending);
    assert!(tx.try_send(&mut channel, 1, &mut wakes).is_ok());
    run(&mut wakes);
    assert_eq!((woken(&first), woken(&second)), (0, 1));
}

#[test]
fn dropping_the_receiver_wakes_the_sender() {
    let (sending, w1) = task();
    let mut wakes = Vec::new();
    let (mut channel, mut tx, rx) = spsc::channel(1);
    assert!(tx.try_send(&mut channel, 1, &mut wakes).is_ok());
    let mut send = tx.send(2);
    assert!(matches!(send.poll(&mut channel, &w1, &mut wakes), Poll::Pending));
    rx.close(&mut channel, &mut wakes);
    run(&mut wakes);
    assert_eq!(woken(&sending), 1);
    assert!(matches!(send.poll(&mut channel, &w1, &mut wakes), Poll::Ready(Err(_))));
}

#[test]
fn everything_that_is_sent_is_received() {
    let (_, waker) = task();
    let mut wakes = Vec::new();
    let (mut channel, mut tx, mut rx) = spsc::channel(4);
    let mut out = Vec::new();

    for n in 0..1000u32 {
        let mut send = tx.send(n);
        while let Poll::Pending = send.poll(&mut channel, &waker, &mut wakes) {
            while let Poll::Ready(Some(m)) = rx.recv().poll(&mut channel, &waker, &mut wakes) {
                out.push(m);
            }
        }
    }
    tx.close(&mut channel, &mut wakes);
    while let Poll::Ready(Some(m)) = rx.recv().poll(&mut channel, &waker, &mut wakes) {
        out.push(m);
    }

    let expected = (0..1000).collect::<Vec<u32>>();
    assert_eq!(out, expected);
}

#[test]
fn what_is_received_and_held_is_what_was_accepted() {
    let (_, waker) = task();
    let mut wakes = Vec::new();
    let (mut channel, mut tx, mut rx) = spsc::channel(3);
    let mut accepted = Vec::new();
    let mut received = Vec::new();
    for n in 0..50u32 {
        if n % 3 == 0 {
            if let Poll::Ready(Some(value)) = rx.recv().poll(&mut channel, &waker, &mut wakes) {
                received.push(value);
            }
        } else if n % 2 == 0 {
            if tx.try_send(&mut channel, n, &mut wakes).is_ok() {
                accepted.push(n);
            }
        } else if let Poll::Ready(Ok(())) = tx.send(n).poll(&mut channel, &waker, &mut wakes) {
            accepted.push(n);
        }
        assert_eq!(received[..], accepted[..received.len()]);
        assert!(accepted.len() - received.len() <= 3);
    }
    tx.close(&mut channel, &mut wakes);
    while let Poll::Ready(Some(value)) = rx.recv().poll(&mut channel, &waker, &mut wakes) {
        received.push(value);
    }
    assert_eq!(received, accepted);
    assert_eq!(rx.recv().poll(&mut channel, &waker, &mut wakes), Poll::Ready(None));
}
