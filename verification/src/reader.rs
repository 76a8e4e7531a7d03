//! How a message is received: the steps of one reader.
//!
//! A [`Reader`] is what one `recv` has decided so far. Like a
//! [`Writer`](crate::writer::Writer) it never touches the memory itself: [`Reader::request`]
//! names the access to make next and [`Reader::resume`] takes what the access gave back.
//!
//! A reader compares its cursor with the head. If it has been lapped, it moves on to the
//! oldest message that is left. It then registers on the node, which keeps writers away, and
//! looks at the lap of the node: if a writer has been there first, it starts again.

use vstd::prelude::*;

use crate::memory::{Access, Reply};
use crate::word::{
    index_of, is_readable, lap_of, lemma_radix, radix, readable, unpack_data_index,
    STATE_EMPTY, STATE_READING, STATE_WRITING,
};
use crate::writer::{next_index, next_lap, slot_of};

verus! {

/// The position of the next message a receiver will read.
#[derive(Clone, Copy, Debug, PartialEq, Eq, Structural)]
pub struct ReaderData {
    pub index: usize,
    pub lap: usize,
}

/// How far a reader has come. `index` names the node it is after.
#[derive(Clone, Copy, Debug, PartialEq, Eq, Structural)]
pub enum Phase {
    /// Wants to know where the head is.
    Start,
    /// Wants to know the state of the node.
    Probe { index: usize },
    /// Wants to register on the node.
    Register { index: usize },
    /// Has registered on a node that was not readable, wants to undo that.
    Withdraw { index: usize },
    /// Is registered, wants to know the lap of the node.
    Check { index: usize },
    /// Is registered on a node of another lap, wants to leave it and start again.
    Retreat { index: usize },
    /// Is registered, wants to clone the message.
    Copy { index: usize },
    /// Has cloned the message, wants to leave the node.
    Leave { index: usize },
    /// The message is received.
    Delivered,
    /// There is no message to receive.
    Empty,
}

/// A cursor and how far its reader has come.
#[derive(Clone, Copy, Debug, PartialEq, Eq, Structural)]
pub struct Reader {
    pub cursor: ReaderData,
    pub phase: Phase,
}

impl ReaderData {
    /// Whether the cursor has reached the head, or is beyond it in the same lap.
    pub open spec fn caught_up(self, head: usize) -> bool {
        self.lap == lap_of(head) && self.index >= index_of(head)
    }

    /// Whether the message at the cursor has been overwritten: the head is more than one lap
    /// further on.
    pub open spec fn lapped(self, head: usize) -> bool {
        self.lap < lap_of(head) && (index_of(head) > self.index || lap_of(head) - self.lap > 1)
    }

    /// The cursor at the position after `index` in the lap it is in.
    pub open spec fn moved_past(self, index: int, len: int) -> ReaderData {
        ReaderData {
            index: next_index(index, len) as usize,
            lap: next_lap(self.lap as int, index, len) as usize,
        }
    }
}

impl Reader {
    /// The access a reader makes next on a buffer of `len` nodes, or `None` once it is done.
    pub open spec fn requested(self, len: int) -> Option<Access> {
        match self.phase {
            Phase::Start => Some(Access::LoadHead),
            Phase::Probe { index } => Some(
                Access::LoadState { slot: slot_of(index as int, len) as usize },
            ),
            Phase::Register { index } => Some(
                Access::AddState {
                    slot: slot_of(index as int, len) as usize,
                    amount: STATE_READING,
                },
            ),
            Phase::Withdraw { index } => Some(
                Access::SubState {
                    slot: slot_of(index as int, len) as usize,
                    amount: STATE_READING,
                },
            ),
            Phase::Check { index } => Some(
                Access::LoadLap { slot: slot_of(index as int, len) as usize },
            ),
            Phase::Retreat { index } => Some(
                Access::SubState {
                    slot: slot_of(index as int, len) as usize,
                    amount: STATE_READING,
                },
            ),
            Phase::Copy { index } => Some(
                Access::CloneMessage { slot: slot_of(index as int, len) as usize },
            ),
            Phase::Leave { index } => Some(
                Access::SubState {
                    slot: slot_of(index as int, len) as usize,
                    amount: STATE_READING,
                },
            ),
            Phase::Delivered => None,
            Phase::Empty => None,
        }
    }

    /// Whether a reply fits the access that was requested and can be acted on. A reader is
    /// never a lap ahead of the head, no node is in a state that is none of the states, and a
    /// reader that steps over a taken node must be able to name the next index.
    pub open spec fn accepts(self, reply: Reply, len: int) -> bool {
        match self.phase {
            Phase::Start => reply matches Reply::Word(head) && self.cursor.lap <= lap_of(head) && (
            self.cursor.caught_up(head) || 0 < len),
            Phase::Probe { index } => reply matches Reply::Word(state) && {
                ||| readable(state)
                ||| state == STATE_EMPTY
                ||| state == STATE_WRITING && index + 1 < usize::MAX
            },
            Phase::Register { .. } => reply is Word,
            Phase::Withdraw { .. } => reply is Done,
            Phase::Check { .. } => reply is Word,
            Phase::Retreat { .. } => reply is Done,
            Phase::Copy { .. } => reply is Done,
            Phase::Leave { .. } => reply is Done,
            Phase::Delivered => false,
            Phase::Empty => false,
        }
    }

    /// What a reader has come to once it has got the reply to the access it requested.
    ///
    /// It steps over a node that a writer has taken. If it then comes to a node to which nothing
    /// was ever written, there is no message for it yet.
    pub open spec fn resumed(self, reply: Reply, len: int) -> Reader {
        let cursor = self.cursor;
        match self.phase {
            Phase::Start => {
                let head = reply->Word_0;
                if cursor.caught_up(head) {
                    Reader { cursor, phase: Phase::Empty }
                } else if cursor.lapped(head) {
                    Reader {
                        cursor: ReaderData { index: cursor.index, lap: (lap_of(head) - 1) as usize },
                        phase: Phase::Probe { index: slot_of(index_of(head), len) as usize },
                    }
                } else {
                    Reader { cursor, phase: Phase::Probe { index: cursor.index } }
                }
            },
            Phase::Probe { index } => if readable(reply->Word_0) {
                Reader { cursor, phase: Phase::Register { index } }
            } else if reply->Word_0 == STATE_EMPTY {
                Reader { cursor, phase: Phase::Empty }
            } else {
                Reader { cursor, phase: Phase::Probe { index: (index + 1) as usize } }
            },
            Phase::Register { index } => if readable(reply->Word_0) {
                Reader { cursor, phase: Phase::Check { index } }
            } else {
                Reader { cursor, phase: Phase::Withdraw { index } }
            },
            Phase::Withdraw { index } => Reader { cursor, phase: Phase::Probe { index } },
            Phase::Check { index } => if reply->Word_0 == cursor.lap {
                Reader { cursor, phase: Phase::Copy { index } }
            } else {
                Reader { cursor, phase: Phase::Retreat { index } }
            },
            Phase::Retreat { .. } => Reader { cursor, phase: Phase::Start },
            Phase::Copy { index } => Reader {
                cursor: cursor.moved_past(index as int, len),
                phase: Phase::Leave { index },
            },
            Phase::Leave { .. } => Reader { cursor, phase: Phase::Delivered },
            _ => self,
        }
    }

    /// The index of the node that the reader is about to use, if it is about to use one.
    pub open spec fn index(self) -> Option<int> {
        match self.phase {
            Phase::Start => None,
            Phase::Probe { index } => Some(index as int),
            Phase::Register { index } => Some(index as int),
            Phase::Withdraw { index } => Some(index as int),
            Phase::Check { index } => Some(index as int),
            Phase::Retreat { index } => Some(index as int),
            Phase::Copy { index } => Some(index as int),
            Phase::Leave { index } => Some(index as int),
            Phase::Delivered => None,
            Phase::Empty => None,
        }
    }

    /// There is a node to use when the reader is about to use one, its index can be counted
    /// up, and its lap is one that a head word can hold until it has moved past the message.
    pub open spec fn valid(self, len: int) -> bool {
        &&& self.cursor.index < radix()
        &&& self.index() matches Some(index) ==> {
            &&& 0 < len <= radix()
            &&& index < usize::MAX
            &&& !(self.phase is Leave) ==> self.cursor.lap < radix()
        }
    }

    /// A reader that has done nothing yet.
    pub fn new(cursor: ReaderData) -> (r: Reader)
        requires
            cursor.index < radix(),
        ensures
            r == (Reader { cursor, phase: Phase::Start }),
            forall|len: int| r.valid(len),
    {
        Reader { cursor, phase: Phase::Start }
    }

    /// Names the access to make next.
    pub fn request(&self, len: usize) -> (r: Option<Access>)
        requires
            self.valid(len as int),
        ensures
            r == self.requested(len as int),
            r matches Some(access) ==> access.within(len as int),
    {
        match self.phase {
            Phase::Start => Some(Access::LoadHead),
            Phase::Probe { index } => Some(Access::LoadState { slot: index % len }),
            Phase::Register { index } => Some(
                Access::AddState { slot: index % len, amount: STATE_READING },
            ),
            Phase::Withdraw { index } => Some(
                Access::SubState { slot: index % len, amount: STATE_READING },
            ),
            Phase::Check { index } => Some(Access::LoadLap { slot: index % len }),
            Phase::Retreat { index } => Some(
                Access::SubState { slot: index % len, amount: STATE_READING },
            ),
            Phase::Copy { index } => Some(Access::CloneMessage { slot: index % len }),
            Phase::Leave { index } => Some(
                Access::SubState { slot: index % len, amount: STATE_READING },
            ),
            Phase::Delivered => None,
            Phase::Empty => None,
        }
    }

    /// Whether the reader can act on a reply.
    pub fn can_resume(&self, reply: Reply, len: usize) -> (r: bool)
        ensures
            r == self.accepts(reply, len as int),
    {
        match (self.phase, reply) {
            (Phase::Start, Reply::Word(head)) => {
                let (lap, index): (usize, usize) = unpack_data_index(head);
                self.cursor.lap <= lap && ((self.cursor.lap == lap && self.cursor.index >= index)
                    || 0 < len)
            },
            (Phase::Probe { index }, Reply::Word(state)) => {
                is_readable(state) || state == STATE_EMPTY || (state == STATE_WRITING && index
                    < usize::MAX - 1)
            },
            (Phase::Register { .. }, Reply::Word(_)) => true,
            (Phase::Withdraw { .. }, Reply::Done) => true,
            (Phase::Check { .. }, Reply::Word(_)) => true,
            (Phase::Retreat { .. }, Reply::Done) => true,
            (Phase::Copy { .. }, Reply::Done) => true,
            (Phase::Leave { .. }, Reply::Done) => true,
            _ => false,
        }
    }

    /// Takes the reply to the access that was requested.
    pub fn resume(self, reply: Reply, len: usize) -> (r: Reader)
        requires
            self.valid(len as int),
            self.accepts(reply, len as int),
            len <= radix(),
        ensures
            r == self.resumed(reply, len as int),
            r.valid(len as int),
    {
        proof {
            lemma_radix();
        }
        let cursor = self.cursor;
        match (self.phase, reply) {
            (Phase::Start, Reply::Word(head)) => self.locate(head, len),
            (Phase::Probe { index }, Reply::Word(state)) => {
                if is_readable(state) {
                    Reader { cursor, phase: Phase::Register { index } }
                } else if state == STATE_EMPTY {
                    Reader { cursor, phase: Phase::Empty }
                } else {
                    Reader { cursor, phase: Phase::Probe { index: index + 1 } }
                }
            },
            (Phase::Register { index }, Reply::Word(state)) => {
                if is_readable(state) {
                    Reader { cursor, phase: Phase::Check { index } }
                } else {
                    Reader { cursor, phase: Phase::Withdraw { index } }
                }
            },
            (Phase::Withdraw { index }, _) => Reader { cursor, phase: Phase::Probe { index } },
            (Phase::Check { index }, Reply::Word(lap)) => {
                if lap == cursor.lap {
                    Reader { cursor, phase: Phase::Copy { index } }
                } else {
                    Reader { cursor, phase: Phase::Retreat { index } }
                }
            },
            (Phase::Retreat { .. }, _) => Reader { cursor, phase: Phase::Start },
            (Phase::Copy { index }, _) => {
                let next: usize = (index + 1) % len;
                let lap: usize = if next == 0 {
                    cursor.lap + 1
                } else {
                    cursor.lap
                };
                Reader { cursor: ReaderData { index: next, lap }, phase: Phase::Leave { index } }
            },
            _ => Reader { cursor, phase: Phase::Delivered },
        }
    }

    /// Finds the message to read when the head is known.
    fn locate(self, head: usize, len: usize) -> (r: Reader)
        requires
            self.phase is Start,
            self.valid(len as int),
            self.accepts(Reply::Word(head), len as int),
            len <= radix(),
        ensures
            r == self.resumed(Reply::Word(head), len as int),
            r.valid(len as int),
    {
        proof {
            lemma_radix();
            crate::word::law_pack_after_unpack(head);
        }
        let cursor = self.cursor;
        let (producer_lap, producer_index): (usize, usize) = unpack_data_index(head);
        if cursor.lap < producer_lap {
            // The reader is before the writer, so there must be something to read.
            if producer_index > cursor.index || producer_lap - cursor.lap > 1 {
                // The message was overwritten: take the oldest one that is left, which is the
                // furthest from the writer.
                Reader {
                    cursor: ReaderData { index: cursor.index, lap: producer_lap - 1 },
                    phase: Phase::Probe { index: producer_index % len },
                }
            } else {
                Reader { cursor, phase: Phase::Probe { index: cursor.index } }
            }
        } else if cursor.index >= producer_index {
            Reader { cursor, phase: Phase::Empty }
        } else {
            Reader { cursor, phase: Phase::Probe { index: cursor.index } }
        }
    }
}

} // verus!
