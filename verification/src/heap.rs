//! A channel implemented with heap allocated buffers.
//!
//! The channel holds shared pointers to the messages. A send has it to itself while it puts in a
//! pointer, and receivers share it while they take a copy of one. A message is cloned or dropped
//! only when the channel is free again, so its `Clone` and its `Drop` may use the channel.
//!
//! The buffer is not freed when the last handle is dropped, and the messages in it are not dropped:
//! the lock that guards the channel does not drop what it holds.

use std::sync::Arc;
use vstd::prelude::*;
use vstd::rwlock::{RwLock, RwLockPredicate};

use crate::backlog::{
    at_rest, finds, follows, lemma_follows_itself, lemma_push_follows, lemma_ring_empty,
    lemma_ring_fresh, lemma_ring_laps, lemma_ring_valid, push_all, received, ring, Backlog,
};
use crate::core_impl;
use crate::heap_record::Recorded;
use crate::laws::{last_of, law_holds_the_latest_of_its_history};
use crate::ledger::{Receipt, Witness};
use crate::memory::{empty_node, Memory, Node};
use crate::reader::ReaderData;
use crate::word::{unpack_data_index, MAX_LEN};

verus! {

/// The buffer of a channel and its head.
pub struct InnerChannel<T, const N: usize> {
    buffer: Vec<Node<T>>,
    head: usize,
}

impl<T, const N: usize> View for InnerChannel<T, N> {
    type V = Backlog<T>;

    closed spec fn view(&self) -> Backlog<T> {
        ring(self.buffer@, self.head)
    }
}

impl<T, const N: usize> InnerChannel<T, N> {
    /// Whether the buffer has `N` nodes and nobody is using it.
    pub closed spec fn valid(self) -> bool {
        self.buffer@.len() == N && at_rest(self.buffer@, self.head)
    }

    /// The nodes and the head.
    pub closed spec fn memory(self) -> Memory<T> {
        Memory { nodes: self.buffer@, head: self.head }
    }

    /// The memory of a valid channel has `N` nodes, nobody is using it, and it stands for the
    /// backlog.
    pub proof fn lemma_memory(self)
        requires
            self.valid(),
        ensures
            self.memory().nodes.len() == N,
            at_rest(self.memory().nodes, self.memory().head),
            self@ == ring(self.memory().nodes, self.memory().head),
    {
    }

    /// In a valid channel that holds an empty backlog, nothing was ever written to any of the `N`
    /// nodes, and the head is at the first one.
    pub proof fn lemma_empty(self)
        requires
            self.valid(),
            self@ == Backlog::<T>::empty(N as int),
        ensures
            self.memory() == (Memory {
                nodes: Seq::new(N as nat, |i: int| empty_node::<T>()),
                head: 0,
            }),
    {
        lemma_ring_empty(self.buffer@, self.head);
    }

    /// A valid channel holds a valid backlog of capacity `N`.
    pub proof fn lemma_valid(self)
        requires
            self.valid(),
        ensures
            self@.valid(),
            self@.capacity == N,
    {
        lemma_ring_valid(self.buffer@, self.head);
    }

    /// Whether a cursor is in a lap that has not begun.
    pub fn is_behind(&self, reader: &ReaderData) -> (r: bool)
        requires
            self.valid(),
            reader.fits(N as int),
        ensures
            r == (self@.next < reader.lap * N),
    {
        proof {
            lemma_ring_laps(self.buffer@, self.head, *reader);
        }
        let (lap, _): (usize, usize) = unpack_data_index(self.head);
        lap < reader.lap
    }

    /// Finds the message that [`pop`](InnerChannel::pop) would clone at a cursor, and where it
    /// would move the cursor. At a cursor that is in a lap which has not begun, there is none.
    pub fn peek(&self, reader: &ReaderData) -> (r: Option<(&T, ReaderData)>)
        requires
            self.valid(),
            reader.fits(N as int),
        ensures
            finds(
                self@,
                *reader,
                match r {
                    None => None,
                    Some((message, later)) => Some((*message, later)),
                },
            ),
    {
        proof {
            lemma_ring_laps(self.buffer@, self.head, *reader);
        }
        if self.is_behind(reader) {
            return None;
        }
        match core_impl::find(self.buffer.as_slice(), self.head, *reader) {
            Some((slot, later)) => match &self.buffer[slot].data {
                Some(message) => Some((message, later)),
                None => None,
            },
            None => None,
        }
    }
}

impl<T: Clone, const N: usize> InnerChannel<T, N> {
    /// Creates a channel to which nothing was sent.
    pub fn new() -> (r: Self)
        requires
            N <= MAX_LEN,
        ensures
            r.valid(),
            r@ == Backlog::<T>::empty(N as int),
            r.memory() == (Memory {
                nodes: Seq::new(N as nat, |i: int| empty_node::<T>()),
                head: 0,
            }),
    {
        let mut buffer: Vec<Node<T>> = Vec::with_capacity(N);
        let mut i: usize = 0;
        while i < N
            invariant
                i <= N,
                buffer@.len() == i,
                forall|j: int| 0 <= j < i ==> #[trigger] buffer@[j] == empty_node::<T>(),
            decreases N - i,
        {
            buffer.push(Default::default());
            i += 1;
        }
        proof {
            lemma_ring_fresh(buffer@);
            assert(buffer@ =~= Seq::new(N as nat, |i: int| empty_node::<T>()));
        }
        Self { buffer, head: 0 }
    }

    /// Sends a message. If the channel is full, the oldest message is overwritten.
    pub fn push(&mut self, value: T)
        requires
            old(self).valid(),
            0 < N,
        ensures
            final(self).valid(),
            final(self)@ == old(self)@.push(value),
            final(self).memory() == core_impl::pushed(old(self).memory(), value),
    {
        core_impl::push(self.buffer.as_mut_slice(), &mut self.head, value);
    }

    /// Sends a message as [`push`](InnerChannel::push) does, and gives back the one that was
    /// overwritten.
    pub fn replace(&mut self, value: T) -> (r: Option<T>)
        requires
            old(self).valid(),
            0 < N,
        ensures
            final(self).valid(),
            final(self)@ == old(self)@.push(value),
            final(self).memory() == core_impl::pushed(old(self).memory(), value),
            r == old(self)@.displaced(),
    {
        core_impl::replace(self.buffer.as_mut_slice(), &mut self.head, value)
    }

    /// Receives the message at a cursor, or the oldest one left, and moves the cursor past it.
    pub fn pop(&mut self, reader: &mut ReaderData) -> (r: Option<T>)
        requires
            old(self).valid(),
            old(reader).fits(N as int),
            old(reader).lap * N <= old(self)@.next,
        ensures
            final(self).valid(),
            final(self)@ == old(self)@,
            final(self).memory() == old(self).memory(),
            received(old(self)@, *old(reader), *final(reader), r),
    {
        proof {
            lemma_ring_laps(self.buffer@, self.head, *reader);
        }
        core_impl::pop(self.buffer.as_mut_slice(), &self.head, reader)
    }
}

/// What holds of a channel whenever nobody is sending or receiving: its backlog is what the sends
/// so far, which are its history, leave of its origin, an empty channel of capacity `N`.
pub struct Quiet<T> {
    /// The backlog of which sends have made what the channel holds.
    pub origin: Backlog<T>,
    /// Which channel it is.
    pub channel: int,
}

impl<T, const N: usize> RwLockPredicate<Recorded<T, N>> for Quiet<T> {
    open spec fn inv(self, v: Recorded<T, N>) -> bool {
        &&& v.valid()
        &&& v.channel() == self.channel
        &&& self.origin == Backlog::<T>::empty(N as int)
        &&& follows(self.origin, v@)
    }
}

/// The sender of the [`channel`].
///
/// This is a cloneable sender, so you can have multiple senders that will send to the same
/// channel.
///
/// Broadcast messages sent by using the [`send`](Sender::send) method.
pub struct Sender<T, const N: usize> {
    queue: Arc<RwLock<Recorded<T, N>, Quiet<T>>>,
}

impl<T, const N: usize> Sender<T, N> {
    /// The channel that the sender sends to.
    pub closed spec fn queue(self) -> RwLock<Recorded<T, N>, Quiet<T>> {
        *self.queue
    }

    /// The backlog of which sends have made what the channel holds.
    pub open spec fn origin(self) -> Backlog<T> {
        self.queue().pred().origin
    }

    /// Which channel it is.
    pub open spec fn channel(self) -> int {
        self.queue().pred().channel
    }
}

impl<T, const N: usize> Sender<T, N> {
    /// Sends a message to the channel.
    /// If the channel is full, the oldest message will be overwritten.
    /// So the receiver must be quick or it will lose the old data.
    ///
    /// At some moment during the call the message is added, once, to the history of the channel,
    /// and the channel holds the latest messages of its history from then on. The receipt is for
    /// that. What others send before this returns is not known here. There must be room for at
    /// least one message.
    pub fn send(&self, value: T) -> (r: Receipt<T>)
        requires
            0 < N,
        ensures
            r.channel() == self.channel(),
            r.sent() == r.earlier().push(value),
            push_all(self.origin(), r.sent()).kept == last_of(
                r.earlier().push(value),
                N as int,
            ),
    {
        let (mut queue, handle) = self.queue.acquire_write();
        proof {
            queue.lemma_valid();
            lemma_push_follows(self.origin(), queue@, value);
            law_holds_the_latest_of_its_history(N as int, queue.history().push(value));
        }
        // What is overwritten is dropped when the channel is free again.
        let (receipt, _discard) = queue.append(value);
        handle.release_write(queue);
        receipt
    }
}

impl<T, const N: usize> Clone for Sender<T, N> {
    fn clone(&self) -> (r: Self)
        ensures
            r.queue() == self.queue(),
    {
        Self { queue: self.queue.clone() }
    }
}

/// The receiver of the [`channel`].
///
/// This is a cloneable receiver, so you can have multiple receivers that start from the same
/// point.
///
/// Broadcast messages sent by the channel are received by the [`recv`](Receiver::recv) method.
pub struct Receiver<T, const N: usize> {
    queue: Arc<RwLock<Recorded<T, N>, Quiet<T>>>,
    reader: ReaderData,
    witness: Witness<T>,
}

impl<T, const N: usize> Receiver<T, N> {
    /// The channel that the receiver receives from.
    pub closed spec fn queue(self) -> RwLock<Recorded<T, N>, Quiet<T>> {
        *self.queue
    }

    /// The backlog of which sends have made what the channel holds.
    pub open spec fn origin(self) -> Backlog<T> {
        self.queue().pred().origin
    }

    /// Which channel it is.
    pub open spec fn channel(self) -> int {
        self.queue().pred().channel
    }

    /// The position of the next message to receive.
    pub closed spec fn cursor(self) -> ReaderData {
        self.reader
    }

    /// How often the receiver has looked at the channel.
    pub closed spec fn looks(self) -> nat {
        self.witness.looks()
    }

    /// The history of the channel when the receiver last looked at it.
    pub closed spec fn seen(self) -> Seq<T> {
        self.witness.seen()
    }

    #[verifier::type_invariant]
    spec fn cursor_fits(self) -> bool {
        &&& self.reader.fits(N as int)
        &&& self.witness.channel() == (*self.queue).pred().channel
    }
}

impl<T: Clone, const N: usize> Receiver<T, N> {
    /// Receives a message from the channel.
    ///
    /// If there is no message available, this method will return `None`.
    ///
    /// The receiver looks at the channel once. What it receives is what its history at that moment
    /// has for it. A receiver that is a lap ahead of the channel,
    /// because the positions have started again from zero, receives nothing.
    pub fn recv(&mut self) -> (r: Option<T>)
        ensures
            final(self).queue() == old(self).queue(),
            old(self).origin() == Backlog::<T>::empty(N as int),
            final(self).looks() == old(self).looks() + 1,
            received(
                push_all(old(self).origin(), final(self).seen()),
                old(self).cursor(),
                final(self).cursor(),
                r,
            ),
            exists|sent: Seq<T>|
                received(
                    #[trigger] push_all(old(self).origin(), sent),
                    old(self).cursor(),
                    final(self).cursor(),
                    r,
                ),
    {
        proof {
            use_type_invariant(&*self);
        }
        let handle = self.queue.acquire_read();
        proof {
            handle.view().lemma_valid();
        }
        let mut witness = self.witness.clone();
        let found: Option<(Arc<T>, ReaderData)> = handle.borrow().look(&self.reader, &mut witness);
        handle.release_read();
        // The message is cloned when the channel is free again.
        let (result, reader): (Option<T>, ReaderData) = match found {
            Some((message, later)) => (Some((*message).clone()), later),
            None => (None, self.reader),
        };
        self.reader = reader;
        self.witness = witness;
        assert(received(
            push_all(old(self).origin(), self.seen()),
            old(self).cursor(),
            self.cursor(),
            result,
        ));
        result
    }
}

impl<T: Clone, const N: usize> Clone for Receiver<T, N> {
    fn clone(&self) -> (r: Self)
        ensures
            r.queue() == self.queue(),
            r.cursor() == self.cursor(),
            r.looks() == self.looks(),
            r.seen() == self.seen(),
    {
        proof {
            use_type_invariant(self);
        }
        Self {
            queue: self.queue.clone(),
            reader: self.reader.clone(),
            witness: self.witness.clone(),
        }
    }
}

/// Creates a new channel, returning the [`Sender`] and [`Receiver`] for it.
///
/// Both of the sender and receiver are cloneable, so you can have multiple senders and
/// receivers.
pub fn channel<T: Clone, const N: usize>() -> (r: (Sender<T, N>, Receiver<T, N>))
    requires
        N <= MAX_LEN,
    ensures
        r.0.queue() == r.1.queue(),
        r.0.origin() == Backlog::<T>::empty(N as int),
        r.1.cursor() == (ReaderData { index: 0, lap: 0 }),
        r.1.looks() == 0,
        r.1.seen() == Seq::<T>::empty(),
{
    let recorded = Recorded::<T, N>::new();
    let witness = recorded.witness();
    proof {
        recorded.lemma_valid();
        lemma_follows_itself(Backlog::<T>::empty(N as int));
    }
    let ghost quiet = Quiet {
        origin: Backlog::<T>::empty(N as int),
        channel: recorded.channel(),
    };
    let queue = Arc::new(RwLock::new(recorded, Ghost(quiet)));
    (
        Sender { queue: queue.clone() },
        Receiver { queue, reader: ReaderData { index: 0, lap: 0 }, witness },
    )
}

} // verus!
