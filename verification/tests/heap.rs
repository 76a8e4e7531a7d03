use blinkcast::heap::{channel, InnerChannel, Receiver, Sender};
use blinkcast::reader::ReaderData;
use std::cell::RefCell;
use std::rc::Rc;

#[test]
fn single_sender_multiple_receivers() {
    let (sender, mut receiver1) = channel::<i32, 4>();
    sender.send(1);
    sender.send(2);

    let mut receiver2 = receiver1.clone();

    assert_eq!(receiver1.recv(), Some(1));
    assert_eq!(receiver1.recv(), Some(2));
    assert_eq!(receiver1.recv(), None);

    assert_eq!(receiver2.recv(), Some(1));
    assert_eq!(receiver2.recv(), Some(2));
    assert_eq!(receiver2.recv(), None);
}

#[test]
fn multiple_senders_multiple_receivers() {
    let (sender1, mut receiver1) = channel::<i32, 100>();
    let sender2 = sender1.clone();

    for i in 0..50 {
        sender1.send(i);
        sender2.send(i);
    }

    let mut receiver2 = receiver1.clone();

    let mut sum1 = 0;
    let mut sum2 = 0;
    for _ in 0..100 {
        let v1 = receiver1.recv().unwrap();
        let v2 = receiver2.recv().unwrap();
        sum1 += v1;
        sum2 += v2;
        assert_eq!(v1, v2);
    }
    assert_eq!(sum1, 49 * 50);
    assert_eq!(sum2, 49 * 50);
}

#[test]
fn cloned_sender_sends_to_the_same_channel() {
    let (sender, mut receiver) = channel::<i32, 4>();

    sender.send(1);
    let sender2 = sender.clone();
    sender2.send(2);

    assert_eq!(receiver.recv(), Some(1));
    assert_eq!(receiver.recv(), Some(2));
    assert_eq!(receiver.recv(), None);
}

#[test]
fn cloned_receiver_starts_from_the_same_point() {
    let (sender, mut receiver) = channel::<i32, 4>();
    sender.send(1);
    assert_eq!(receiver.recv(), Some(1));

    sender.send(2);
    sender.send(3);

    assert_eq!(receiver.recv(), Some(2));

    let mut receiver2 = receiver.clone();
    assert_eq!(receiver.recv(), Some(3));
    assert_eq!(receiver2.recv(), Some(3));
    assert_eq!(receiver.recv(), None);
    assert_eq!(receiver2.recv(), None);
}

#[test]
fn senders_and_receivers_are_cloned() {
    let (sender, mut receiver) = channel::<i32, 4>();

    sender.send(1);
    sender.send(2);

    assert_eq!(receiver.recv(), Some(1));

    let sender2 = sender.clone();
    sender2.send(3);

    assert_eq!(receiver.recv(), Some(2));

    let mut receiver2 = receiver.clone();
    assert_eq!(receiver.recv(), Some(3));
    assert_eq!(receiver2.recv(), Some(3));
    assert_eq!(receiver.recv(), None);
    assert_eq!(receiver2.recv(), None);
}

#[test]
fn slow_receiver_loses_the_oldest_messages() {
    let (sender, mut receiver) = channel::<i32, 4>();
    for i in 0..6 {
        sender.send(i);
    }
    let mut late = receiver.clone();
    for i in 2..6 {
        assert_eq!(receiver.recv(), Some(i));
    }
    assert_eq!(receiver.recv(), None);

    for i in 6..106 {
        sender.send(i);
    }
    for i in 102..106 {
        assert_eq!(receiver.recv(), Some(i));
        assert_eq!(late.recv(), Some(i));
    }
    assert_eq!(receiver.recv(), None);
    assert_eq!(late.recv(), None);
}

#[test]
fn receiver_that_lags_by_a_full_buffer_loses_nothing() {
    let (sender, mut receiver) = channel::<i32, 3>();
    sender.send(0);
    assert_eq!(receiver.recv(), Some(0));
    for i in 1..4 {
        sender.send(i);
    }
    for i in 1..4 {
        assert_eq!(receiver.recv(), Some(i));
    }
    assert_eq!(receiver.recv(), None);
}

#[test]
fn channel_of_one() {
    let (sender, mut receiver) = channel::<&'static str, 1>();
    assert_eq!(receiver.recv(), None);
    sender.send("a");
    sender.send("b");
    assert_eq!(receiver.recv(), Some("b"));
    assert_eq!(receiver.recv(), None);
    sender.send("c");
    assert_eq!(receiver.recv(), Some("c"));
}

#[test]
fn channel_of_none_has_nothing_to_receive() {
    let (_sender, mut receiver) = channel::<i32, 0>();
    assert_eq!(receiver.recv(), None);
    assert_eq!(receiver.recv(), None);
}

#[test]
fn messages_stay_until_they_are_overwritten() {
    let (sender, mut receiver) = channel::<Rc<i32>, 2>();
    let first = Rc::new(1);
    sender.send(first.clone());
    assert_eq!(Rc::strong_count(&first), 2);

    let received = receiver.recv().unwrap();
    assert_eq!(*received, 1);
    assert_eq!(Rc::strong_count(&first), 3);
    drop(received);

    sender.send(Rc::new(2));
    assert_eq!(Rc::strong_count(&first), 2);
    sender.send(Rc::new(3));
    assert_eq!(Rc::strong_count(&first), 1);
}

#[test]
fn receivers_run_along_with_senders() {
    let (sender, mut quick) = channel::<usize, 16>();
    let mut slow = quick.clone();
    let mut last = 0;
    for i in 1..1001 {
        sender.send(i);
        assert_eq!(quick.recv(), Some(i));
        assert_eq!(quick.recv(), None);
        if i % 7 == 0 {
            let v = slow.recv().unwrap();
            assert!(v > last);
            last = v;
        }
    }
    assert_eq!(slow.recv(), Some(985));
}

fn can_be_shared<T: Send + Sync>(_: &T) {}

#[test]
fn handles_can_be_shared_between_threads() {
    let (sender, receiver) = channel::<i32, 4>();
    can_be_shared(&sender);
    can_be_shared(&receiver);
}

#[test]
fn inner_channel_positions() {
    let mut channel = InnerChannel::<i32, 3>::new();
    let mut cursor = ReaderData { index: 0, lap: 0 };
    assert_eq!(channel.pop(&mut cursor), None);
    assert_eq!(cursor, ReaderData { index: 0, lap: 0 });
    for i in 0..4 {
        channel.push(i);
    }
    assert_eq!(channel.pop(&mut cursor), Some(1));
    assert_eq!(cursor, ReaderData { index: 2, lap: 0 });
    assert_eq!(channel.pop(&mut cursor), Some(2));
    assert_eq!(cursor, ReaderData { index: 0, lap: 1 });
    assert_eq!(channel.pop(&mut cursor), Some(3));
    assert_eq!(channel.pop(&mut cursor), None);
    assert_eq!(cursor, ReaderData { index: 1, lap: 1 });

    assert!(!channel.is_behind(&cursor));
    assert!(!channel.is_behind(&ReaderData { index: 2, lap: 1 }));
    assert!(channel.is_behind(&ReaderData { index: 0, lap: 2 }));
    let ahead = ReaderData { index: 0, lap: 2 };
    assert_eq!(channel.peek(&ahead), None);
    let start = ReaderData { index: 0, lap: 0 };
    assert_eq!(channel.peek(&start), Some((&1, ReaderData { index: 2, lap: 0 })));
    // Beyond the head in the same lap there is nothing to receive.
    let mut beyond = ReaderData { index: 2, lap: 1 };
    assert_eq!(channel.pop(&mut beyond), None);
    assert_eq!(beyond, ReaderData { index: 2, lap: 1 });
}

#[test]
fn inner_channel_gives_back_what_is_overwritten() {
    let mut channel = InnerChannel::<i32, 2>::new();
    assert_eq!(channel.replace(1), None);
    assert_eq!(channel.replace(2), None);
    assert_eq!(channel.replace(3), Some(1));
    assert_eq!(channel.replace(4), Some(2));
    let mut cursor = ReaderData { index: 0, lap: 0 };
    assert_eq!(channel.pop(&mut cursor), Some(3));
    assert_eq!(channel.pop(&mut cursor), Some(4));
}

/// A message that sends to its own channel and receives from it when it is cloned, and sends to
/// it when it is dropped.
struct Chatty {
    name: i32,
    line: Option<(Sender<Chatty, 3>, RefCell<Receiver<Chatty, 3>>)>,
}

fn plain(name: i32) -> Chatty {
    Chatty { name, line: None }
}

impl Clone for Chatty {
    fn clone(&self) -> Self {
        if let Some((sender, receiver)) = &self.line {
            sender.send(plain(self.name + 10));
            assert_eq!(receiver.borrow_mut().recv().map(|m| m.name), Some(7));
        }
        plain(-self.name)
    }
}

impl Drop for Chatty {
    fn drop(&mut self) {
        if let Some((sender, _)) = &self.line {
            sender.send(plain(self.name + 20));
        }
    }
}

#[test]
fn messages_may_use_their_own_channel() {
    let (sender, mut receiver) = channel::<Chatty, 3>();
    sender.send(plain(-7));
    let line = Some((sender.clone(), RefCell::new(receiver.clone())));
    sender.send(Chatty { name: 1, line });
    assert_eq!(receiver.recv().map(|m| m.name), Some(7));
    assert_eq!(receiver.recv().map(|m| m.name), Some(-1));
    assert_eq!(receiver.recv().map(|m| m.name), Some(-11));
    sender.send(plain(2));
    // This overwrites the message that sends another one when it is dropped.
    sender.send(plain(3));
    assert_eq!(receiver.recv().map(|m| m.name), Some(-2));
    assert_eq!(receiver.recv().map(|m| m.name), Some(-3));
    assert_eq!(receiver.recv().map(|m| m.name), Some(-21));
    assert!(receiver.recv().is_none());
}

#[test]
fn fresh_channels_cannot_be_told_apart() {
    let mut one = InnerChannel::<i32, 2>::new();
    let mut other = InnerChannel::<i32, 2>::new();
    let cursor = ReaderData { index: 0, lap: 0 };
    for i in 0..5 {
        assert_eq!(one.peek(&cursor), other.peek(&cursor));
        assert_eq!(one.replace(i), other.replace(i));
    }
}
