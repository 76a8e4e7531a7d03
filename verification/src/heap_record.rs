//! A channel of [`heap`](crate::heap) together with its history.
//!
//! This is what senders and receivers share. Nothing can be done to the channel but to append a
//! message to it, which adds the message to the history, and to look at it.

use std::sync::Arc;
use vstd::prelude::*;

use crate::backlog::{
    finds, lemma_pointees_empty, lemma_pointees_found, lemma_pointees_push, lemma_push_all_push,
    pointees, push_all, Backlog,
};
use crate::heap::InnerChannel;
use crate::ledger::{Discard, Ledger, Receipt, Witness};
use crate::reader::ReaderData;
use crate::word::MAX_LEN;

verus! {

/// A channel and its history.
pub struct Recorded<T, const N: usize> {
    inner: InnerChannel<Arc<T>, N>,
    ledger: Ledger<T>,
}

impl<T, const N: usize> View for Recorded<T, N> {
    type V = Backlog<T>;

    closed spec fn view(&self) -> Backlog<T> {
        pointees(self.inner@)
    }
}

impl<T, const N: usize> Recorded<T, N> {
    /// Whether nobody is using the channel, and it holds what its history leaves of an empty
    /// channel.
    pub closed spec fn valid(self) -> bool {
        &&& self.inner.valid()
        &&& self@ == push_all(Backlog::<T>::empty(N as int), self.history())
    }

    /// Which channel this is.
    pub closed spec fn channel(self) -> int {
        self.ledger.channel()
    }

    /// Every message sent so far, in order.
    pub closed spec fn history(self) -> Seq<T> {
        self.ledger.history()
    }

    /// A valid channel holds a valid backlog of capacity `N`, which is what the history leaves.
    pub proof fn lemma_valid(self)
        requires
            self.valid(),
        ensures
            self@.valid(),
            self@.capacity == N,
            self@ == push_all(Backlog::<T>::empty(N as int), self.history()),
    {
        self.inner.lemma_valid();
    }

    /// Creates a channel to which nothing was sent.
    pub fn new() -> (r: Self)
        requires
            N <= MAX_LEN,
        ensures
            r.valid(),
            r.history() == Seq::<T>::empty(),
    {
        proof {
            lemma_pointees_empty::<T>(N as int);
        }
        Self { inner: InnerChannel::new(), ledger: Ledger::new() }
    }

    /// Sends a message. If the channel is full, the oldest message is overwritten.
    pub fn append(&mut self, value: T) -> (r: (Receipt<T>, Discard<Arc<T>>))
        requires
            old(self).valid(),
            0 < N,
        ensures
            final(self).valid(),
            final(self).channel() == old(self).channel(),
            final(self).history() == old(self).history().push(value),
            final(self)@ == old(self)@.push(value),
            r.0.channel() == old(self).channel(),
            r.0.earlier() == old(self).history(),
            r.0.sent() == old(self).history().push(value),
    {
        proof {
            self.inner.lemma_valid();
            lemma_push_all_push(Backlog::<T>::empty(N as int), self.history(), value);
        }
        let receipt = self.ledger.append(&value);
        let message = Arc::new(value);
        proof {
            lemma_pointees_push(self.inner@, message);
        }
        let replaced: Option<Arc<T>> = self.inner.replace(message);
        (receipt, Discard::new(replaced))
    }

    /// Finds the message for a receiver with the given cursor, and where the cursor goes from
    /// there. The witness of the receiver is shown the history.
    pub fn look(&self, reader: &ReaderData, witness: &mut Witness<T>) -> (r: Option<
        (Arc<T>, ReaderData),
    >)
        requires
            self.valid(),
            reader.fits(N as int),
            old(witness).channel() == self.channel(),
        ensures
            final(witness).channel() == old(witness).channel(),
            final(witness).looks() == old(witness).looks() + 1,
            final(witness).seen() == self.history(),
            finds(
                self@,
                *reader,
                match r {
                    None => None,
                    Some((message, later)) => Some((*message, later)),
                },
            ),
    {
        self.ledger.show(witness);
        let found: Option<(Arc<T>, ReaderData)> = match self.inner.peek(reader) {
            Some((message, later)) => Some((message.clone(), later)),
            None => None,
        };
        proof {
            self.inner.lemma_valid();
            lemma_pointees_found(self.inner@, *reader, found);
        }
        found
    }

    /// Makes a witness for a receiver that has not looked yet.
    pub fn witness(&self) -> (r: Witness<T>)
        ensures
            r.channel() == self.channel(),
            r.looks() == 0,
            r.seen() == self.history(),
    {
        self.ledger.witness()
    }
}

} // verus!
