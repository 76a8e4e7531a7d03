use blinkcast::reader::ReaderData;
use blinkcast::static_mem::{InnerChannel, Sender};

#[test]
fn static_send_and_receive() {
    let sender = Sender::<i32, 4>::new();
    let mut receiver = sender.new_receiver();

    sender.send(1);
    sender.send(2);

    assert_eq!(receiver.recv(), Some(1));
    assert_eq!(receiver.recv(), Some(2));
    assert_eq!(receiver.recv(), None);
}

#[test]
fn static_new_receiver_starts_where_the_sender_is() {
    let sender = Sender::<i32, 4>::new();

    sender.send(1);

    let mut receiver = sender.new_receiver();
    assert_eq!(receiver.recv(), None);

    sender.send(2);
    assert_eq!(receiver.recv(), Some(2));
    assert_eq!(receiver.recv(), None);
}

#[test]
fn static_cloned_receiver() {
    let sender = Sender::<i32, 4>::new();
    let mut receiver = sender.new_receiver();

    sender.send(1);
    assert_eq!(receiver.recv(), Some(1));

    sender.send(2);
    sender.send(3);

    assert_eq!(receiver.recv(), Some(2));

    let mut receiver2 = receiver.clone();
    assert_eq!(receiver.recv(), Some(3));
    assert_eq!(receiver2.recv(), Some(3));
    assert_eq!(receiver.recv(), None);
    assert_eq!(receiver2.recv(), None);
}

#[test]
fn static_default_is_an_empty_channel() {
    let sender = Sender::<i32, 2>::default();
    let mut receiver = sender.new_receiver();
    assert_eq!(receiver.recv(), None);
    sender.send(7);
    assert_eq!(receiver.recv(), Some(7));
}

#[test]
fn static_overwrites_the_oldest() {
    let sender = Sender::<String, 2>::new();
    let mut receiver = sender.new_receiver();
    for i in 0..5 {
        sender.send(format!("{}", i));
    }
    assert_eq!(receiver.recv(), Some("3".to_string()));
    assert_eq!(receiver.recv(), Some("4".to_string()));
    assert_eq!(receiver.recv(), None);
}

fn can_be_shared<T: Send + Sync>(_: &T) {}

#[test]
fn static_handles_can_be_shared_between_threads() {
    let sender = Sender::<i32, 4>::new();
    can_be_shared(&sender);
    can_be_shared(&sender.new_receiver());
}

#[test]
fn static_sender_used_from_several_places() {
    let sender = Sender::<i32, 100>::new();
    let mut receiver = sender.new_receiver();
    let here = &sender;
    let there = &sender;
    for i in 0..50 {
        here.send(i);
        there.send(i);
    }
    let mut sum = 0;
    for _ in 0..100 {
        sum += receiver.recv().unwrap();
    }
    assert_eq!(sum, 49 * 50);
    assert_eq!(receiver.recv(), None);
}

#[test]
fn static_inner_channel_starts_with_empty_nodes() {
    let mut channel = InnerChannel::<u8, 3>::new();
    assert_eq!(channel.end(), ReaderData { index: 0, lap: 0 });
    let mut cursor = channel.end();
    assert_eq!(channel.pop(&mut cursor), None);
    for i in 0..5 {
        channel.push(i);
    }
    assert_eq!(channel.end(), ReaderData { index: 2, lap: 1 });
    assert_eq!(channel.pop(&mut cursor), Some(2));
    assert_eq!(cursor, ReaderData { index: 0, lap: 1 });
    assert!(channel.is_behind(&ReaderData { index: 0, lap: 2 }));
    assert_eq!(channel.peek(&ReaderData { index: 0, lap: 2 }), None);
    assert_eq!(channel.peek(&cursor), Some((&3, ReaderData { index: 1, lap: 1 })));
    assert_eq!(channel.pop(&mut cursor), Some(3));
    assert_eq!(channel.replace(5), Some(2));
}

/// A message that receives from its own channel when it is cloned, and sends to it when it is
/// dropped.
struct Nosy(i32);

static NOSY: std::sync::OnceLock<Sender<Nosy, 2>> = std::sync::OnceLock::new();

impl Clone for Nosy {
    fn clone(&self) -> Self {
        if self.0 == 1 {
            // There is nothing new to receive, and nobody has to wait to find out.
            assert!(NOSY.get().unwrap().new_receiver().recv().is_none());
        }
        Nosy(-self.0)
    }
}

impl Drop for Nosy {
    fn drop(&mut self) {
        if self.0 == 1 {
            NOSY.get().unwrap().send(Nosy(9));
        }
    }
}

#[test]
fn static_messages_may_use_their_own_channel() {
    let sender = NOSY.get_or_init(Sender::new);
    let mut receiver = sender.new_receiver();
    sender.send(Nosy(1));
    sender.send(Nosy(2));
    assert_eq!(receiver.recv().map(|m| m.0), Some(-1));
    // The first message is dropped and sends one more, which takes the place of the second.
    sender.send(Nosy(3));
    assert_eq!(receiver.recv().map(|m| m.0), Some(-3));
    assert_eq!(receiver.recv().map(|m| m.0), Some(-9));
    assert!(receiver.recv().is_none());
}
