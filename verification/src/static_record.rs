//! A channel of [`static_mem`](crate::static_mem) together with its history.
//!
//! This is what senders and receivers share. Nothing can be done to the channel but to append a
//! message to it, which adds the message to the history, and to look at it.

use vstd::prelude::*;

use crate::backlog::{
    finds, lemma_push_all_push, push_all, Backlog,
};
use crate::static_mem::InnerChannel;
use crate::ledger::{Discard, Ledger, Receipt, Witness};
use crate::reader::ReaderData;
use crate::word::MAX_LEN;

verus! {

/// A channel and its history.
pub struct Recorded<T, const N: usize> {
    inner: InnerChannel<T, N>,
    ledger: Ledger<T>,
}

impl<T, const N: usize> View for Recorded<T, N> {
    type V = Backlog<T>;

    closed spec fn view(&self) -> Backlog<T> {
        self.inner@
    }
}

impl<T, const N: usize> Recorded<T, N> {
    /// Whether nobody is using the channel, and it holds what its history leaves of an empty
    /// channel.
    pub closed spec fn valid(self) -> bool {
        &&& self.inner.valid()
        &&& self@ == push_all(Backlog::<T>::empty(N as int), self.history())
    }

    /// Which channel this is.
    pub closed spec fn channel(self) -> int {
        self.ledger.channel()
    }

    /// Every message sent so far, in order.
    pub closed spec fn history(self) -> Seq<T> {
        self.ledger.history()
    }

    /// A valid channel holds a valid backlog of capacity `N`, which is what the history leaves.
    pub proof fn lemma_valid(self)
        requires
            self.valid(),
        ensures
            self@.valid(),
            self@.capacity == N,
            self@ == push_all(Backlog::<T>::empty(N as int), self.history()),
    {
        self.inner.lemma_valid();
    }

    /// Creates a channel to which nothing was sent.
    pub fn new() -> (r: Self)
        requires
            N <= MAX_LEN,
        ensures
            r.valid(),
            r.history() == Seq::<T>::empty(),
    {
        Self { inner: InnerChannel::new(), ledger: Ledger::new() }
    }

    /// Sends a message. If the channel is full, the oldest message is overwritten.
    pub fn append(&mut self, value: T) -> (r: (Receipt<T>, Discard<T>))
        requires
            old(self).valid(),
            0 < N,
        ensures
            final(self).valid(),
            final(self).channel() == old(self).channel(),
            final(self).history() == old(self).history().push(value),
            final(self)@ == old(self)@.push(value),
            r.0.channel() == old(self).channel(),
            r.0.earlier() == old(self).history(),
            r.0.sent() == old(self).history().push(value),
    {
        proof {
            self.inner.lemma_valid();
            lemma_push_all_push(Backlog::<T>::empty(N as int), self.history(), value);
        }
        let receipt = self.ledger.append(&value);
        let replaced: Option<T> = self.inner.replace(value);
        (receipt, Discard::new(replaced))
    }

    /// Finds the message for a receiver with the given cursor, and where the cursor goes from
    /// there. The witness of the receiver is shown the history.
    pub fn look(&self, reader: &ReaderData, witness: &mut Witness<T>) -> (r: Option<
        (&T, ReaderData),
    >)
        requires
            self.valid(),
            reader.fits(N as int),
            old(witness).channel() == self.channel(),
        ensures
            final(witness).channel() == old(witness).channel(),
            final(witness).looks() == old(witness).looks() + 1,
            final(witness).seen() == self.history(),
            finds(
                self@,
                *reader,
                match r {
                    None => None,
                    Some((message, later)) => Some((*message, later)),
                },
            ),
    {
        self.ledger.show(witness);
        self.inner.peek(reader)
    }

    /// The cursor of a receiver that is to receive the next message sent, and its witness.
    pub fn end(&self) -> (r: (ReaderData, Witness<T>))
        requires
            self.valid(),
        ensures
            r.0.fits(N as int),
            r.0.position(N as int) == self@.next,
            r.1.channel() == self.channel(),
            r.1.looks() == 0,
            r.1.seen() == self.history(),
    {
        (self.inner.end(), self.ledger.witness())
    }
}

} // verus!
