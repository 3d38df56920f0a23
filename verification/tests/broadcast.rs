use std::sync::{Arc, Mutex};
use std::task::{Wake, Waker};

use unsync::broadcast;
use unsync::broadcast::{channel, unbounded, Channel, Receiver, UnderCapacity};
use unsync::task::Poll;

const END: u32 = 16;

/// Counts how often its task has been woken.
struct Count(Mutex<usize>);

impl Wake for Count {
    fn wake(self: Arc<Self>) {
        *self.0.lock().unwrap() += 1;
    }
}

fn task() -> (Arc<Count>, Waker) {
    let count = Arc::new(Count(Mutex::new(0)));
    (count.clone(), Waker::from(count))
}

fn woken(count: &Arc<Count>) -> usize {
    *count.0.lock().unwrap()
}

fn run(wakes: &mut Vec<Waker>) {
    for waker in wakes.drain(..) {
        waker.wake();
    }
}

fn recv<T>(
    receiver: &mut Receiver<T>,
    channel: &mut Channel<T>,
    waker: &Waker,
    wakes: &mut Vec<Waker>,
) -> Poll<Option<T>> {
    receiver.recv().poll(channel, waker, wakes)
}

#[test]
fn recv_updates_changed_waker() {
    let mut wakes = Vec::new();
    let (mut channel, mut tx) = channel::<u32>(1);
    let mut sub = tx.subscribe(&mut channel);

    let (first, w1) = task();
    let (second, w2) = task();

    let mut fut = sub.recv();
    assert_eq!(fut.poll(&mut channel, &w1, &mut wakes), Poll::Pending);
    assert_eq!(fut.poll(&mut channel, &w2, &mut wakes), Poll::Pending);

    assert_eq!(tx.try_send(&mut channel, 1, &mut wakes), Ok(1));
    run(&mut wakes);

    assert_eq!(woken(&second), 1, "latest waker was not woken");
    assert_eq!(woken(&first), 0);
}

#[test]
fn buffers_multiple_messages_in_order() {
    let (_, waker) = task();
    let mut wakes = Vec::new();
    let (mut channel, mut tx) = channel::<u32>(2);
    let mut sub = tx.subscribe(&mut channel);

    assert_eq!(tx.try_send(&mut channel, 1, &mut wakes), Ok(1));
    assert_eq!(tx.try_send(&mut channel, 2, &mut wakes), Ok(1));

    let v1 = recv(&mut sub, &mut channel, &waker, &mut wakes);
    let v2 = recv(&mut sub, &mut channel, &waker, &mut wakes);
    assert_eq!(v1, Poll::Ready(Some(1)));
    assert_eq!(v2, Poll::Ready(Some(2)));
}

#[test]
fn send_buffers_once_and_resolves() {
    let (_, waker) = task();
    let mut wakes = Vec::new();
    let (mut channel, mut tx) = channel::<u32>(2);
    let mut sub = tx.subscribe(&mut channel);

    let mut s = tx.send(1);
    assert_eq!(s.poll(&mut channel, &waker, &mut wakes), Poll::Ready(1));

    let v1 = recv(&mut sub, &mut channel, &waker, &mut wakes);
    let v2 = recv(&mut sub, &mut channel, &waker, &mut wakes);
    assert_eq!(v1, Poll::Ready(Some(1)));
    assert_eq!(v2, Poll::Pending);
}

#[test]
fn send_waits_for_capacity() {
    let (_, waker) = task();
    let mut wakes = Vec::new();
    let (mut channel, mut tx) = channel::<u32>(1);
    let mut sub = tx.subscribe(&mut channel);

    let mut s1 = tx.send(1);
    assert_eq!(s1.poll(&mut channel, &waker, &mut wakes), Poll::Ready(1));

    // The only slot is taken, so this send parks.
    let mut s2 = tx.send(2);
    assert_eq!(s2.poll(&mut channel, &waker, &mut wakes), Poll::Pending);

    // Receiving frees the slot, so the send can finish.
    let v1 = recv(&mut sub, &mut channel, &waker, &mut wakes);
    assert_eq!(v1, Poll::Ready(Some(1)));
    assert_eq!(s2.poll(&mut channel, &waker, &mut wakes), Poll::Ready(1));

    let v2 = recv(&mut sub, &mut channel, &waker, &mut wakes);
    assert_eq!(v2, Poll::Ready(Some(2)));
}

#[test]
fn test_broadcast() {
    let (_, waker) = task();
    let mut wakes = Vec::new();
    let (mut channel, mut tx) = channel(1);
    let mut subs: Vec<Receiver<u32>> = (0..16).map(|_| tx.subscribe(&mut channel)).collect();
    let mut received: Vec<Vec<u32>> = vec![Vec::new(); 16];

    for n in 0..END {
        let mut send = tx.send(n);
        while let Poll::Pending = send.poll(&mut channel, &waker, &mut wakes) {
            // The receivers run at different speeds.
            for (i, sub) in subs.iter_mut().enumerate() {
                if received[i].len() % (i + 1) != 0 {
                    if let Poll::Ready(value) = recv(sub, &mut channel, &waker, &mut wakes) {
                        received[i].extend(value);
                    }
                }
            }
            for (i, sub) in subs.iter_mut().enumerate() {
                if let Poll::Ready(value) = recv(sub, &mut channel, &waker, &mut wakes) {
                    received[i].extend(value);
                }
            }
        }
        wakes.clear();
    }
    tx.close(&mut channel, &mut wakes);
    for (i, sub) in subs.iter_mut().enumerate() {
        while let Poll::Ready(Some(value)) = recv(sub, &mut channel, &waker, &mut wakes) {
            received[i].push(value);
        }
    }

    let expected = (0..END).collect::<Vec<_>>();

    for actual in received {
        assert_eq!(actual, expected);
    }
}

#[test]
fn receivers_come_and_go() {
    let (_, waker) = task();
    let mut wakes = Vec::new();
    let (mut channel, mut sender) = channel::<u32>(1);

    let mut sub1 = sender.subscribe(&mut channel);
    let mut sub2 = sender.subscribe(&mut channel);
    assert_eq!(sender.subscribers(&mut channel), 2);

    let result = sender.send(42).poll(&mut channel, &waker, &mut wakes);
    let s1 = recv(&mut sub1, &mut channel, &waker, &mut wakes);
    let s2 = recv(&mut sub2, &mut channel, &waker, &mut wakes);
    assert_eq!(result, Poll::Ready(2));
    assert_eq!(s1, Poll::Ready(Some(42)));
    assert_eq!(s2, Poll::Ready(Some(42)));

    sub1.close(&mut channel, &mut wakes);
    assert_eq!(sender.subscribers(&mut channel), 1);

    let result = sender.send(84).poll(&mut channel, &waker, &mut wakes);
    let s2 = recv(&mut sub2, &mut channel, &waker, &mut wakes);
    assert_eq!(result, Poll::Ready(1));
    assert_eq!(s2, Poll::Ready(Some(84)));

    sub2.close(&mut channel, &mut wakes);

    let result = sender.send(126).poll(&mut channel, &waker, &mut wakes);
    assert_eq!(result, Poll::Ready(0));
    assert_eq!(sender.try_send(&mut channel, 127, &mut wakes), Err(UnderCapacity(0)));
}

#[test]
fn trying_to_send_without_subscribers() {
    let (_, waker) = task();
    let mut wakes = Vec::new();
    let (mut channel, mut tx) = channel::<u32>(1);
    assert_eq!(tx.subscribers(&mut channel), 0);
    assert_eq!(tx.try_send(&mut channel, 1, &mut wakes), Err(UnderCapacity(0)));
    let mut sub = tx.subscribe(&mut channel);
    assert_eq!(tx.try_send(&mut channel, 2, &mut wakes), Ok(1));
    assert_eq!(recv(&mut sub, &mut channel, &waker, &mut wakes), Poll::Ready(Some(2)));
}

#[test]
fn subscriber_holds_just_the_capacity() {
    let mut wakes = Vec::new();
    for capacity in 1..5 {
        let (mut channel, mut tx) = channel::<usize>(capacity);
        let _sub = tx.subscribe(&mut channel);
        for n in 0..capacity {
            assert_eq!(tx.try_send(&mut channel, n, &mut wakes), Ok(1));
        }
        assert_eq!(tx.try_send(&mut channel, capacity, &mut wakes), Err(UnderCapacity(0)));
    }
}

#[test]
fn sender_that_is_dropped_ends_the_receivers() {
    let (receiving, waker) = task();
    let mut wakes = Vec::new();
    let (mut channel, mut sender) = channel::<u32>(1);

    let mut sub1 = sender.subscribe(&mut channel);
    let mut sub2 = sender.subscribe(&mut channel);
    assert_eq!(recv(&mut sub1, &mut channel, &waker, &mut wakes), Poll::Pending);
    assert_eq!(recv(&mut sub2, &mut channel, &waker, &mut wakes), Poll::Pending);

    let result = sender.send(42).poll(&mut channel, &waker, &mut wakes);
    assert_eq!(result, Poll::Ready(2));
    wakes.clear();

    sender.close(&mut channel, &mut wakes);
    run(&mut wakes);
    assert_eq!(woken(&receiving), 2);

    // What was sent before is still received.
    assert_eq!(recv(&mut sub1, &mut channel, &waker, &mut wakes), Poll::Ready(Some(42)));
    assert_eq!(recv(&mut sub2, &mut channel, &waker, &mut wakes), Poll::Ready(Some(42)));
    assert_eq!(recv(&mut sub1, &mut channel, &waker, &mut wakes), Poll::Ready(None));
    assert_eq!(recv(&mut sub2, &mut channel, &waker, &mut wakes), Poll::Ready(None));
    sub1.close(&mut channel, &mut wakes);
    assert_eq!(recv(&mut sub2, &mut channel, &waker, &mut wakes), Poll::Ready(None));
    sub2.close(&mut channel, &mut wakes);
}

#[test]
fn trying_to_send_under_capacity() {
    let (_, waker) = task();
    let mut wakes = Vec::new();
    let (mut channel, mut tx) = channel::<u32>(1);
    let _sub1 = tx.subscribe(&mut channel);
    let mut sub2 = tx.subscribe(&mut channel);

    assert_eq!(tx.try_send(&mut channel, 1, &mut wakes), Ok(2));
    assert_eq!(tx.try_send(&mut channel, 2, &mut wakes), Err(UnderCapacity(0)));

    assert_eq!(recv(&mut sub2, &mut channel, &waker, &mut wakes), Poll::Ready(Some(1)));
    assert_eq!(tx.try_send(&mut channel, 3, &mut wakes), Err(broadcast::UnderCapacity(1)));
    assert_eq!(UnderCapacity(1).message(), "subscribers are under capacity");

    assert_eq!(recv(&mut sub2, &mut channel, &waker, &mut wakes), Poll::Ready(Some(3)));
}

#[test]
fn unbounded_channel_is_never_full() {
    let (_, waker) = task();
    let mut wakes = Vec::new();
    let (mut channel, mut tx) = unbounded::<u32>();
    let mut sub = tx.subscribe(&mut channel);
    for n in 0..1000 {
        assert_eq!(tx.try_send(&mut channel, n, &mut wakes), Ok(1));
    }
    for n in 0..1000 {
        assert_eq!(recv(&mut sub, &mut channel, &waker, &mut wakes), Poll::Ready(Some(n)));
    }
    assert_eq!(recv(&mut sub, &mut channel, &waker, &mut wakes), Poll::Pending);
}

#[test]
fn new_subscriber_gets_what_is_sent_from_then_on() {
    let (_, waker) = task();
    let mut wakes = Vec::new();
    let (mut channel, mut tx) = channel::<u32>(4);
    let mut sub1 = tx.subscribe(&mut channel);
    assert_eq!(tx.send(1).poll(&mut channel, &waker, &mut wakes), Poll::Ready(1));
    let mut sub2 = tx.subscribe(&mut channel);
    assert_eq!(tx.send(2).poll(&mut channel, &waker, &mut wakes), Poll::Ready(2));
    assert_eq!(recv(&mut sub1, &mut channel, &waker, &mut wakes), Poll::Ready(Some(1)));
    assert_eq!(recv(&mut sub1, &mut channel, &waker, &mut wakes), Poll::Ready(Some(2)));
    assert_eq!(recv(&mut sub2, &mut channel, &waker, &mut wakes), Poll::Ready(Some(2)));
    assert_eq!(recv(&mut sub2, &mut channel, &waker, &mut wakes), Poll::Pending);
}

#[test]
fn slow_receiver_blocks_the_send_until_it_is_dropped() {
    let (sending, w1) = task();
    let (_, w2) = task();
    let mut wakes = Vec::new();
    let (mut channel, mut tx) = channel::<u32>(1);
    let slow = tx.subscribe(&mut channel);
    let mut fast = tx.subscribe(&mut channel);
    assert_eq!(tx.try_send(&mut channel, 1, &mut wakes), Ok(2));
    assert_eq!(recv(&mut fast, &mut channel, &w2, &mut wakes), Poll::Ready(Some(1)));

    let mut send = tx.send(2);
    assert_eq!(send.poll(&mut channel, &w1, &mut wakes), Poll::Pending);
    // The fast receiver has the message already, and gets it once.
    assert_eq!(recv(&mut fast, &mut channel, &w2, &mut wakes), Poll::Ready(Some(2)));
    run(&mut wakes);
    assert_eq!(woken(&sending), 1);
    assert_eq!(send.poll(&mut channel, &w1, &mut wakes), Poll::Pending);
    assert_eq!(recv(&mut fast, &mut channel, &w2, &mut wakes), Poll::Pending);
    wakes.clear();

    slow.close(&mut channel, &mut wakes);
    run(&mut wakes);
    assert_eq!(woken(&sending), 2);
    assert_eq!(send.poll(&mut channel, &w1, &mut wakes), Poll::Ready(1));
}

#[test]
fn keys_of_dropped_receivers_are_used_again() {
    let (_, waker) = task();
    let mut wakes = Vec::new();
    let (mut channel, mut tx) = channel::<usize>(1);
    let mut subs: Vec<Receiver<usize>> = (0..5).map(|_| tx.subscribe(&mut channel)).collect();
    for n in 0..20 {
        let gone = subs.remove(n % 5);
        gone.close(&mut channel, &mut wakes);
        assert_eq!(tx.subscribers(&mut channel), 4);
        subs.push(tx.subscribe(&mut channel));
        assert_eq!(tx.subscribers(&mut channel), 5);
        assert_eq!(tx.send(n).poll(&mut channel, &waker, &mut wakes), Poll::Ready(5));
        for sub in subs.iter_mut() {
            assert_eq!(recv(sub, &mut channel, &waker, &mut wakes), Poll::Ready(Some(n)));
        }
    }
}

#[test]
fn waiting_receivers_are_woken_by_every_kind_of_send() {
    let (receiving, waker) = task();
    let (_, w2) = task();
    let mut wakes = Vec::new();
    let (mut channel, mut tx) = channel::<u32>(2);
    let mut sub = tx.subscribe(&mut channel);
    assert_eq!(recv(&mut sub, &mut channel, &waker, &mut wakes), Poll::Pending);
    assert_eq!(tx.try_send(&mut channel, 1, &mut wakes), Ok(1));
    run(&mut wakes);
    assert_eq!(woken(&receiving), 1);
    assert_eq!(tx.send(2).poll(&mut channel, &w2, &mut wakes), Poll::Ready(1));
    run(&mut wakes);
    assert_eq!(woken(&receiving), 2);
    assert_eq!(tx.try_send(&mut channel, 3, &mut wakes), Err(UnderCapacity(0)));
    assert!(wakes.is_empty());
}

#[test]
fn receivers_collect_what_was_sent_since_they_subscribed() {
    let (_, waker) = task();
    let mut wakes = Vec::new();
    for capacity in 1..4 {
        let (mut channel, mut tx) = channel::<u32>(capacity);
        let mut subs: Vec<(u32, Receiver<u32>, Vec<u32>)> = Vec::new();
        for n in 0..20 {
            if n % 4 == 0 {
                subs.push((n, tx.subscribe(&mut channel), Vec::new()));
            }
            let mut send = tx.send(n);
            let mut polls = 0;
            while let Poll::Pending = send.poll(&mut channel, &waker, &mut wakes) {
                // One receiver after the other makes room.
                let turn = polls % subs.len();
                let (_, sub, collected) = &mut subs[turn];
                if let Poll::Ready(value) = recv(sub, &mut channel, &waker, &mut wakes) {
                    collected.extend(value);
                }
                polls += 1;
            }
        }
        tx.close(&mut channel, &mut wakes);
        for (first, mut sub, mut collected) in subs {
            while let Poll::Ready(Some(value)) = recv(&mut sub, &mut channel, &waker, &mut wakes) {
                collected.push(value);
            }
            assert_eq!(collected, (first..20).collect::<Vec<u32>>());
            assert_eq!(recv(&mut sub, &mut channel, &waker, &mut wakes), Poll::Ready(None));
            sub.close(&mut channel, &mut wakes);
        }
    }
}
