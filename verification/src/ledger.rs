//! What has been sent on a channel, and what those who use it know of that.
//!
//! The *history* of a channel is every message that was sent on it, in order. A [`Ledger`] goes
//! with the channel and knows its history, to which messages are only ever added, at the end. A
//! [`Receipt`] is had only for a message that was added, and a [`Witness`] learns of the history
//! only by being shown it. Each of them belongs to one channel, and can be made nowhere but here.
//!
//! All of them are there for what can be said of a shared channel. They take no room and no time
//! when the program runs.

use vstd::prelude::*;

verus! {

/// The history of a channel.
pub struct Ledger<T> {
    channel: Ghost<int>,
    history: Ghost<Seq<T>>,
}

/// What a sender gets for a message that it has sent.
pub struct Receipt<T> {
    channel: Ghost<int>,
    earlier: Ghost<Seq<T>>,
    sent: Ghost<Seq<T>>,
}

/// What a receiver knows of the history of its channel.
pub struct Witness<T> {
    channel: Ghost<int>,
    looks: Ghost<nat>,
    seen: Ghost<Seq<T>>,
}

/// A message that was overwritten and waits to be dropped.
pub struct Discard<T> {
    message: Option<T>,
}

impl<T> Receipt<T> {
    /// The channel on which the message was sent.
    pub closed spec fn channel(self) -> int {
        self.channel@
    }

    /// The history of the channel when the message was sent, without the message.
    pub closed spec fn earlier(self) -> Seq<T> {
        self.earlier@
    }

    /// The history of the channel when the message was sent, with the message.
    pub closed spec fn sent(self) -> Seq<T> {
        self.sent@
    }
}

impl<T> Witness<T> {
    /// The channel of whose history this knows.
    pub closed spec fn channel(self) -> int {
        self.channel@
    }

    /// How often the receiver has looked at the channel.
    pub closed spec fn looks(self) -> nat {
        self.looks@
    }

    /// The history of the channel when the receiver last looked.
    pub closed spec fn seen(self) -> Seq<T> {
        self.seen@
    }
}

impl<T> Clone for Witness<T> {
    fn clone(&self) -> (r: Self)
        ensures
            r.channel() == self.channel(),
            r.looks() == self.looks(),
            r.seen() == self.seen(),
    {
        Self {
            channel: Ghost(self.channel@),
            looks: Ghost(self.looks@),
            seen: Ghost(self.seen@),
        }
    }
}

impl<T> Discard<T> {
    /// Keeps a message that was overwritten, if one was, until this is dropped.
    pub fn new(message: Option<T>) -> (r: Self)
        ensures
            r.message() == message,
    {
        Self { message }
    }

    /// The message, if there is one.
    pub closed spec fn message(self) -> Option<T> {
        self.message
    }
}

impl<T> Ledger<T> {
    /// The channel whose history this is. Of two channels, it is not known whether they are the
    /// same unless one was made from the other.
    pub closed spec fn channel(self) -> int {
        self.channel@
    }

    /// Every message sent so far, in order.
    pub closed spec fn history(self) -> Seq<T> {
        self.history@
    }

    /// The ledger of a channel to which nothing was sent.
    pub fn new() -> (r: Self)
        ensures
            r.history() == Seq::<T>::empty(),
    {
        Self { channel: Ghost(arbitrary()), history: Ghost(Seq::empty()) }
    }

    /// Adds a message to the history.
    pub fn append(&mut self, message: &T) -> (r: Receipt<T>)
        ensures
            final(self).channel() == old(self).channel(),
            final(self).history() == old(self).history().push(*message),
            r.channel() == old(self).channel(),
            r.earlier() == old(self).history(),
            r.sent() == old(self).history().push(*message),
    {
        let ghost earlier = self.history@;
        let ghost sent = earlier.push(*message);
        self.history = Ghost(sent);
        Receipt { channel: Ghost(self.channel@), earlier: Ghost(earlier), sent: Ghost(sent) }
    }

    /// Makes a witness that has been shown the history once, before any look of its own.
    pub fn witness(&self) -> (r: Witness<T>)
        ensures
            r.channel() == self.channel(),
            r.looks() == 0,
            r.seen() == self.history(),
    {
        Witness {
            channel: Ghost(self.channel@),
            looks: Ghost(0),
            seen: Ghost(self.history@),
        }
    }

    /// Shows the history to a witness.
    pub fn show(&self, witness: &mut Witness<T>)
        requires
            old(witness).channel() == self.channel(),
        ensures
            final(witness).channel() == old(witness).channel(),
            final(witness).looks() == old(witness).looks() + 1,
            final(witness).seen() == self.history(),
    {
        witness.looks = Ghost(witness.looks@ + 1);
        witness.seen = Ghost(self.history@);
    }
}

} // verus!
