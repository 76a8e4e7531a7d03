//! A channel that keeps its buffer in place.
//!
//! This module implements a broadcast channel with a fixed-size buffer, without allocation.
//! The buffer is hosted by the [`Sender`].
//!
//! When sending, we only need `&Sender`, so it can be done from multiple threads/cores at the
//! same time.
//!
//! The channel overwrites the oldest message if the buffer is full, prioritizing the latest
//! data.
//!
//! **Key Features:**
//!
//! * **Broadcast:** Multiple threads can send messages to multiple receivers simultaneously.
//! * **Fixed-size Buffer:** Provides bounded memory usage with predictable performance.
//! * **Overwriting Behavior:** Prioritizes the latest data in scenarios where the buffer becomes
//!   full.
//! * **Cloneable:** the `Receiver`s are cloneable, enabling flexible message distribution
//!   patterns; the `Sender` is not, but it can be used from multiple locations by reference.
//!
//! A send has the channel to itself while it puts in its message. What is overwritten is dropped
//! only when the channel is free again, so the `Drop` of a message may use the channel. Receivers
//! share the channel while they clone messages from it, so the `Clone` of a message may receive
//! from the channel; but it must not send to it, because a send waits for those who are cloning.
//! Messages that are still in the channel when the sender is dropped are not dropped.
//!
//! Receivers must be fast enough to keep up with the senders and avoid losing messages due to
//! overwriting.

use vstd::prelude::*;
use vstd::rwlock::{RwLock, RwLockPredicate};

use crate::backlog::{
    at_rest, finds, follows, lemma_follows_itself, lemma_push_follows, lemma_ring_empty,
    lemma_ring_fresh, lemma_ring_laps, lemma_ring_valid, push_all, received, ring, Backlog,
};
use crate::core_impl;
use crate::laws::{last_of, law_holds_the_latest_of_its_history};
use crate::ledger::{Receipt, Witness};
use crate::memory::{empty_node, Memory, Node};
use crate::reader::ReaderData;
use crate::static_record::Recorded;
use crate::word::{law_pack_after_unpack, lemma_zero, unpack_data_index, MAX_LEN};

verus! {

/// The buffer of a channel and its head.
pub struct InnerChannel<T, const N: usize> {
    buffer: [Node<T>; N],
    head: usize,
}

impl<T, const N: usize> View for InnerChannel<T, N> {
    type V = Backlog<T>;

    closed spec fn view(&self) -> Backlog<T> {
        ring(self.buffer@, self.head)
    }
}

/// Makes an array of empty nodes with `core::array::from_fn`, which fills an array with what a
/// function returns for each index. The function handed to it is [`Node::empty`]; so every
/// node of the array is an empty node.
#[verifier::external_body]
fn empty_nodes<T, const N: usize>() -> (r: [Node<T>; N])
    ensures
        forall|i: int| 0 <= i < N ==> #[trigger] r@[i] == empty_node::<T>(),
{
    core::array::from_fn(|_i: usize| Node::empty())
}

impl<T, const N: usize> InnerChannel<T, N> {
    /// Whether nobody is using the buffer.
    pub closed spec fn valid(self) -> bool {
        at_rest(self.buffer@, self.head)
    }

    /// The nodes and the head.
    pub closed spec fn memory(self) -> Memory<T> {
        Memory { nodes: self.buffer@, head: self.head }
    }

    /// The memory of a valid channel has `N` nodes, nobody is using it, and it stands for the
    /// backlog.
    pub proof fn lemma_memory(self)
        requires
            self.valid(),
        ensures
            self.memory().nodes.len() == N,
            at_rest(self.memory().nodes, self.memory().head),
            self@ == ring(self.memory().nodes, self.memory().head),
    {
    }

    /// In a valid channel that holds an empty backlog, nothing was ever written to any of the `N`
    /// nodes, and the head is at the first one.
    pub proof fn lemma_empty(self)
        requires
            self.valid(),
            self@ == Backlog::<T>::empty(N as int),
        ensures
            self.memory() == (Memory {
                nodes: Seq::new(N as nat, |i: int| empty_node::<T>()),
                head: 0,
            }),
    {
        lemma_ring_empty(self.buffer@, self.head);
    }

    /// A valid channel holds a valid backlog of capacity `N`.
    pub proof fn lemma_valid(self)
        requires
            self.valid(),
        ensures
            self@.valid(),
            self@.capacity == N,
    {
        lemma_ring_valid(self.buffer@, self.head);
    }

    /// Whether a cursor is in a lap that has not begun.
    pub fn is_behind(&self, reader: &ReaderData) -> (r: bool)
        requires
            self.valid(),
            reader.fits(N as int),
        ensures
            r == (self@.next < reader.lap * N),
    {
        proof {
            lemma_ring_laps(self.buffer@, self.head, *reader);
        }
        let (lap, _): (usize, usize) = unpack_data_index(self.head);
        lap < reader.lap
    }

    /// Finds the message that [`pop`](InnerChannel::pop) would clone at a cursor, and where it
    /// would move the cursor. At a cursor that is in a lap which has not begun, there is none.
    pub fn peek(&self, reader: &ReaderData) -> (r: Option<(&T, ReaderData)>)
        requires
            self.valid(),
            reader.fits(N as int),
        ensures
            finds(
                self@,
                *reader,
                match r {
                    None => None,
                    Some((message, later)) => Some((*message, later)),
                },
            ),
    {
        proof {
            lemma_ring_laps(self.buffer@, self.head, *reader);
        }
        if self.is_behind(reader) {
            return None;
        }
        match core_impl::find(&self.buffer, self.head, *reader) {
            Some((slot, later)) => match &self.buffer[slot].data {
                Some(message) => Some((message, later)),
                None => None,
            },
            None => None,
        }
    }

    /// The cursor of a receiver that is to receive the next message sent.
    pub fn end(&self) -> (r: ReaderData)
        requires
            self.valid(),
        ensures
            r.fits(N as int),
            r.position(N as int) == self@.next,
    {
        proof {
            lemma_ring_valid(self.buffer@, self.head);
            law_pack_after_unpack(self.head);
            lemma_zero();
        }
        let (lap, index): (usize, usize) = unpack_data_index(self.head);
        ReaderData { index, lap }
    }
}

impl<T, const N: usize> InnerChannel<T, N> {
    /// Creates a channel to which nothing was sent.
    pub fn new() -> (r: Self)
        requires
            N <= MAX_LEN,
        ensures
            r.valid(),
            r@ == Backlog::<T>::empty(N as int),
            r.memory() == (Memory {
                nodes: Seq::new(N as nat, |i: int| empty_node::<T>()),
                head: 0,
            }),
    {
        let buffer: [Node<T>; N] = empty_nodes();
        proof {
            lemma_ring_fresh(buffer@);
            assert(buffer@ =~= Seq::new(N as nat, |i: int| empty_node::<T>()));
        }
        Self { buffer, head: 0 }
    }

    /// Sends a message. If the channel is full, the oldest message is overwritten.
    pub fn push(&mut self, value: T)
        requires
            old(self).valid(),
            0 < N,
        ensures
            final(self).valid(),
            final(self)@ == old(self)@.push(value),
            final(self).memory() == core_impl::pushed(old(self).memory(), value),
    {
        core_impl::push(&mut self.buffer, &mut self.head, value);
    }

    /// Sends a message as [`push`](InnerChannel::push) does, and gives back the one that was
    /// overwritten.
    pub fn replace(&mut self, value: T) -> (r: Option<T>)
        requires
            old(self).valid(),
            0 < N,
        ensures
            final(self).valid(),
            final(self)@ == old(self)@.push(value),
            final(self).memory() == core_impl::pushed(old(self).memory(), value),
            r == old(self)@.displaced(),
    {
        core_impl::replace(&mut self.buffer, &mut self.head, value)
    }
}

impl<T: Clone, const N: usize> InnerChannel<T, N> {
    /// Receives the message at a cursor, or the oldest one left, and moves the cursor past it.
    pub fn pop(&mut self, reader: &mut ReaderData) -> (r: Option<T>)
        requires
            old(self).valid(),
            old(reader).fits(N as int),
            old(reader).lap * N <= old(self)@.next,
        ensures
            final(self).valid(),
            final(self)@ == old(self)@,
            final(self).memory() == old(self).memory(),
            received(old(self)@, *old(reader), *final(reader), r),
    {
        proof {
            lemma_ring_laps(self.buffer@, self.head, *reader);
        }
        core_impl::pop(&mut self.buffer, &self.head, reader)
    }
}

/// What holds of a channel whenever nobody is sending or receiving: its backlog is what the sends
/// so far, which are its history, leave of its origin, an empty channel of capacity `N`.
pub struct Quiet<T> {
    /// The backlog of which sends have made what the channel holds.
    pub origin: Backlog<T>,
    /// Which channel it is.
    pub channel: int,
}

impl<T, const N: usize> RwLockPredicate<Recorded<T, N>> for Quiet<T> {
    open spec fn inv(self, v: Recorded<T, N>) -> bool {
        &&& v.valid()
        &&& v.channel() == self.channel
        &&& self.origin == Backlog::<T>::empty(N as int)
        &&& follows(self.origin, v@)
    }
}

/// The sender of the channel.
///
/// This is the main channel component: the `Sender` is the owner of the memory.
/// You can use it from multiple locations by reference.
///
/// `static_mem` doesn't have something like the [`channel`](crate::heap::channel) function,
/// because there is no heap to store the sender in. So the user has to create the `receiver`
/// from the `sender` manually.
///
/// Use [`new_receiver`](Sender::new_receiver) to create a receiver.
/// It will start from the same point as the sender.
///
/// Broadcast messages sent by using the [`send`](Sender::send) method.
pub struct Sender<T, const N: usize> {
    queue: RwLock<Recorded<T, N>, Quiet<T>>,
}

impl<T, const N: usize> Sender<T, N> {
    /// The channel that the sender sends to.
    pub closed spec fn queue(self) -> RwLock<Recorded<T, N>, Quiet<T>> {
        self.queue
    }

    /// The backlog of which sends have made what the channel holds.
    pub open spec fn origin(self) -> Backlog<T> {
        self.queue().pred().origin
    }

    /// Which channel it is.
    pub open spec fn channel(self) -> int {
        self.queue().pred().channel
    }
}

impl<T, const N: usize> Sender<T, N> {
    /// Sends a message to the channel.
    /// If the channel is full, the oldest message will be overwritten.
    /// So the receiver must be quick or it will lose the old data.
    ///
    /// At some moment during the call the message is added, once, to the history of the channel,
    /// and the channel holds the latest messages of its history from then on. The receipt is for
    /// that. What others send before this returns is not known here. There must be room for at
    /// least one message.
    pub fn send(&self, value: T) -> (r: Receipt<T>)
        requires
            0 < N,
        ensures
            r.channel() == self.channel(),
            r.sent() == r.earlier().push(value),
            push_all(self.origin(), r.sent()).kept == last_of(
                r.earlier().push(value),
                N as int,
            ),
    {
        let (mut queue, handle) = self.queue.acquire_write();
        proof {
            queue.lemma_valid();
            lemma_push_follows(self.origin(), queue@, value);
            law_holds_the_latest_of_its_history(N as int, queue.history().push(value));
        }
        // What is overwritten is dropped when the channel is free again.
        let (receipt, _discard) = queue.append(value);
        handle.release_write(queue);
        receipt
    }
}

impl<T: Clone, const N: usize> Sender<T, N> {
    /// Creates a new channel with a buffer of size `N`.
    ///
    /// Whatever state the channel is found in later is what some sends leave of an empty channel
    /// of capacity `N`. That there has been no send yet is not stated: the contract of a shared
    /// channel does not see what the lock holds at a given time.
    pub fn new() -> (r: Self)
        requires
            N <= MAX_LEN,
        ensures
            r.origin() == Backlog::<T>::empty(N as int),
    {
        let recorded = Recorded::<T, N>::new();
        proof {
            recorded.lemma_valid();
            lemma_follows_itself(Backlog::<T>::empty(N as int));
        }
        let ghost quiet = Quiet {
            origin: Backlog::<T>::empty(N as int),
            channel: recorded.channel(),
        };
        Self { queue: RwLock::new(recorded, Ghost(quiet)) }
    }

    /// Creates a new channel with a buffer of size `N`, as [`new`](Sender::new) does.
    pub fn default() -> (r: Self)
        requires
            N <= MAX_LEN,
        ensures
            r.origin() == Backlog::<T>::empty(N as int),
    {
        Self::new()
    }

    /// Creates a new receiver that starts from the same point as the sender, which is the
    /// position that the sends until some moment during the call have led to.
    pub fn new_receiver(&self) -> (r: Receiver<'_, T, N>)
        ensures
            r.queue() == self.queue(),
            self.origin() == Backlog::<T>::empty(N as int),
            r.looks() == 0,
            push_all(self.origin(), r.seen()).next == r.cursor().position(N as int),
            exists|sent: Seq<T>|
                (#[trigger] push_all(self.origin(), sent)).next == r.cursor().position(N as int),
    {
        let handle = self.queue.acquire_read();
        proof {
            handle.view().lemma_valid();
        }
        let (reader, witness): (ReaderData, Witness<T>) = handle.borrow().end();
        handle.release_read();
        assert(push_all(self.origin(), witness.seen()).next == reader.position(N as int));
        Receiver { queue: &self.queue, reader, witness }
    }
}

/// The receiver of the channel.
///
/// Can be created with the [`new_receiver`](Sender::new_receiver) method of the [`Sender`].
///
/// This is a cloneable receiver, so you can have multiple receivers that start from the same
/// point.
///
/// Broadcast messages sent by the channel are received by the [`recv`](Receiver::recv) method.
pub struct Receiver<'a, T, const N: usize> {
    queue: &'a RwLock<Recorded<T, N>, Quiet<T>>,
    reader: ReaderData,
    witness: Witness<T>,
}

impl<'a, T, const N: usize> Receiver<'a, T, N> {
    /// The channel that the receiver receives from.
    pub closed spec fn queue(self) -> RwLock<Recorded<T, N>, Quiet<T>> {
        *self.queue
    }

    /// The backlog of which sends have made what the channel holds.
    pub open spec fn origin(self) -> Backlog<T> {
        self.queue().pred().origin
    }

    /// Which channel it is.
    pub open spec fn channel(self) -> int {
        self.queue().pred().channel
    }

    /// The position of the next message to receive.
    pub closed spec fn cursor(self) -> ReaderData {
        self.reader
    }

    /// How often the receiver has looked at the channel.
    pub closed spec fn looks(self) -> nat {
        self.witness.looks()
    }

    /// The history of the channel when the receiver last looked at it.
    pub closed spec fn seen(self) -> Seq<T> {
        self.witness.seen()
    }

    #[verifier::type_invariant]
    spec fn cursor_fits(self) -> bool {
        &&& self.reader.fits(N as int)
        &&& self.witness.channel() == (*self.queue).pred().channel
    }
}

impl<'a, T: Clone, const N: usize> Receiver<'a, T, N> {
    /// Receives a message from the channel.
    ///
    /// If there is no message available, this method will return `None`.
    ///
    /// The receiver looks at the channel once. What it receives is what its history at that moment
    /// has for it. A receiver that is a lap ahead of the channel,
    /// because the positions have started again from zero, receives nothing.
    pub fn recv(&mut self) -> (r: Option<T>)
        ensures
            final(self).queue() == old(self).queue(),
            old(self).origin() == Backlog::<T>::empty(N as int),
            final(self).looks() == old(self).looks() + 1,
            received(
                push_all(old(self).origin(), final(self).seen()),
                old(self).cursor(),
                final(self).cursor(),
                r,
            ),
            exists|sent: Seq<T>|
                received(
                    #[trigger] push_all(old(self).origin(), sent),
                    old(self).cursor(),
                    final(self).cursor(),
                    r,
                ),
    {
        proof {
            use_type_invariant(&*self);
        }
        let handle = self.queue.acquire_read();
        proof {
            handle.view().lemma_valid();
        }
        let mut witness = self.witness.clone();
        let (result, reader): (Option<T>, ReaderData) = match handle.borrow().look(
            &self.reader,
            &mut witness,
        ) {
            Some((message, later)) => (Some(message.clone()), later),
            None => (None, self.reader),
        };
        handle.release_read();
        self.reader = reader;
        self.witness = witness;
        assert(received(
            push_all(old(self).origin(), self.seen()),
            old(self).cursor(),
            self.cursor(),
            result,
        ));
        result
    }
}

impl<'a, T: Clone, const N: usize> Clone for Receiver<'a, T, N> {
    fn clone(&self) -> (r: Self)
        ensures
            r.queue() == self.queue(),
            r.cursor() == self.cursor(),
            r.looks() == self.looks(),
            r.seen() == self.seen(),
    {
        proof {
            use_type_invariant(self);
        }
        Self {
            queue: self.queue,
            reader: self.reader.clone(),
            witness: self.witness.clone(),
        }
    }
}

} // verus!
