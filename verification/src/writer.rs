//! How a message is sent: the steps of one writer.
//!
//! A [`Writer`] is what one `send` has decided so far. It never touches the memory itself:
//! [`Writer::request`] names the access to make next and [`Writer::resume`] takes what the
//! access gave back. Any number of writers and readers may interleave their accesses.
//!
//! A writer first looks for a node that it can take, starting where the head points; takes
//! it; and then moves the head over it. If somebody else moved the head meanwhile, it gives
//! the node back and starts again from where the head is now. Once it has moved the head, the
//! position is its own, and it writes its message there.

use vstd::prelude::*;

use crate::memory::{Access, Reply};
use crate::word::{
    index_of, is_reading, lap_of, lemma_radix, pack_data_index, packed, radix, reading,
    unpack_data_index, INDEX_MASK, MAX_LEN, STATE_AVAILABLE, STATE_EMPTY, STATE_WRITING,
};

verus! {

/// How far a writer has come. `lap` and `index` name the position it is after, `state` is
/// the state in which it found the node there.
#[derive(Clone, Copy, Debug, PartialEq, Eq, Structural)]
pub enum Writer {
    /// Wants to know where the head is.
    Start,
    /// Wants to know the state of the node.
    Probe { lap: usize, index: usize },
    /// Wants to take the node.
    Claim { lap: usize, index: usize, state: usize },
    /// Has the node, wants to move the head over it.
    Advance { lap: usize, index: usize, state: usize },
    /// Has the node but not the head, which was at `head`; wants to give the node back.
    Rollback { index: usize, state: usize, head: usize },
    /// Has the position, wants to note the lap in the node.
    Stamp { lap: usize, index: usize, state: usize },
    /// Has the position, wants to put the message into the node.
    Fill { lap: usize, index: usize, state: usize },
    /// Has put the message into the node, wants to hand the node to the readers.
    Publish { lap: usize, index: usize },
    /// The message is sent.
    Finished,
}

/// The node for an index.
pub open spec fn slot_of(index: int, len: int) -> int {
    index % len
}

/// The lap of the position that follows a position in a buffer of `len` nodes.
pub open spec fn next_lap(lap: int, index: int, len: int) -> int {
    if next_index(index, len) == 0 {
        lap + 1
    } else {
        lap
    }
}

/// The index of the position that follows a position in a buffer of `len` nodes.
pub open spec fn next_index(index: int, len: int) -> int {
    (index + 1) % len
}

impl Writer {
    /// The access a writer makes next on a buffer of `len` nodes, or `None` once the message
    /// is sent.
    pub open spec fn requested(self, len: int) -> Option<Access> {
        match self {
            Writer::Start => Some(Access::LoadHead),
            Writer::Probe { index, .. } => Some(
                Access::LoadState { slot: slot_of(index as int, len) as usize },
            ),
            Writer::Claim { index, state, .. } => Some(
                Access::SwapState {
                    slot: slot_of(index as int, len) as usize,
                    from: state,
                    to: STATE_WRITING,
                },
            ),
            Writer::Advance { lap, index, .. } => Some(
                Access::SwapHead {
                    from: packed(lap as int, index as int) as usize,
                    to: packed(
                        next_lap(lap as int, index as int, len),
                        next_index(index as int, len),
                    ) as usize,
                },
            ),
            Writer::Rollback { index, state, .. } => Some(
                Access::StoreState { slot: slot_of(index as int, len) as usize, state },
            ),
            Writer::Stamp { lap, index, .. } => Some(
                Access::StoreLap { slot: slot_of(index as int, len) as usize, lap },
            ),
            Writer::Fill { index, state, .. } => Some(
                Access::PutMessage {
                    slot: slot_of(index as int, len) as usize,
                    replaces: state == STATE_AVAILABLE,
                },
            ),
            Writer::Publish { index, .. } => Some(
                Access::StoreState {
                    slot: slot_of(index as int, len) as usize,
                    state: STATE_AVAILABLE,
                },
            ),
            Writer::Finished => None,
        }
    }

    /// Whether a reply fits the access that was requested and can be acted on. No node is
    /// ever in a state other than empty, available, taken by a writer or counted by readers;
    /// and a writer that steps over a taken node must be able to name the next index.
    pub open spec fn accepts(self, reply: Reply) -> bool {
        match self {
            Writer::Start => reply is Word,
            Writer::Probe { index, .. } => reply matches Reply::Word(state) && {
                ||| reading(state)
                ||| state == STATE_EMPTY
                ||| state == STATE_AVAILABLE
                ||| state == STATE_WRITING && index < INDEX_MASK
            },
            Writer::Claim { .. } => reply is Swapped || reply is Found,
            Writer::Advance { .. } => reply is Swapped || reply is Found,
            Writer::Rollback { .. } => reply is Done,
            Writer::Stamp { .. } => reply is Done,
            Writer::Fill { .. } => reply is Done,
            Writer::Publish { .. } => reply is Done,
            Writer::Finished => false,
        }
    }

    /// The writer that looks at the position a head word names.
    pub open spec fn probing(head: usize) -> Writer {
        Writer::Probe { lap: lap_of(head) as usize, index: index_of(head) as usize }
    }

    /// What a writer has come to once it has got the reply to the access it requested.
    ///
    /// It waits while readers are reading the node, takes an empty or available one, and
    /// steps over one that another writer has taken.
    pub open spec fn resumed(self, reply: Reply) -> Writer {
        match self {
            Writer::Start => Writer::probing(reply->Word_0),
            Writer::Probe { lap, index } => {
                let state = reply->Word_0;
                if reading(state) {
                    self
                } else if state == STATE_WRITING {
                    Writer::Probe { lap, index: (index + 1) as usize }
                } else {
                    Writer::Claim { lap, index, state }
                }
            },
            Writer::Claim { lap, index, state } => if reply is Swapped {
                Writer::Advance { lap, index, state }
            } else {
                Writer::Probe { lap, index }
            },
            Writer::Advance { lap, index, state } => if reply is Swapped {
                Writer::Stamp { lap, index, state }
            } else {
                Writer::Rollback { index, state, head: reply->Found_0 }
            },
            Writer::Rollback { head, .. } => Writer::probing(head),
            Writer::Stamp { lap, index, state } => Writer::Fill { lap, index, state },
            Writer::Fill { lap, index, .. } => Writer::Publish { lap, index },
            Writer::Publish { .. } => Writer::Finished,
            Writer::Finished => Writer::Finished,
        }
    }

    /// The index in a writer fits in half a word, and the lap does too.
    pub open spec fn valid(self) -> bool {
        match self {
            Writer::Probe { lap, index } => lap < radix() && index < radix(),
            Writer::Claim { lap, index, state } => lap < radix() && index < radix() && (state
                == STATE_EMPTY || state == STATE_AVAILABLE),
            Writer::Advance { lap, index, state } => lap < radix() && index < radix() && (state
                == STATE_EMPTY || state == STATE_AVAILABLE),
            Writer::Rollback { index, state, .. } => index < radix() && (state == STATE_EMPTY
                || state == STATE_AVAILABLE),
            Writer::Stamp { lap, index, state } => lap < radix() && index < radix() && (state
                == STATE_EMPTY || state == STATE_AVAILABLE),
            Writer::Fill { lap, index, state } => lap < radix() && index < radix() && (state
                == STATE_EMPTY || state == STATE_AVAILABLE),
            Writer::Publish { lap, index } => lap < radix() && index < radix(),
            _ => true,
        }
    }

    /// The head word that a writer moves the head to has a lap and an index that fit in half a
    /// word each: the lap after the last one is lap zero.
    proof fn lemma_next_head_fits(self, len: int, lap: usize, index: usize)
        requires
            self.valid(),
            self is Advance,
            0 < len <= MAX_LEN,
            index == next_index(self->Advance_index as int, len),
            lap == if index != 0 {
                self->Advance_lap as int
            } else if self->Advance_lap < INDEX_MASK {
                self->Advance_lap + 1
            } else {
                0
            },
        ensures
            lap <= INDEX_MASK,
            index <= INDEX_MASK,
            packed(lap as int, index as int) == packed(
                next_lap(self->Advance_lap as int, self->Advance_index as int, len),
                index as int,
            ),
    {
        lemma_radix();
        let at = self->Advance_index as int;
        vstd::arithmetic::div_mod::lemma_mod_bound(at + 1, len);
        vstd::arithmetic::div_mod::lemma_mod_self_0(radix());
        vstd::arithmetic::div_mod::lemma_small_mod(0, radix() as nat);
    }

    /// A writer that has done nothing yet.
    pub fn new() -> (r: Writer)
        ensures
            r == Writer::Start,
            r.valid(),
    {
        Writer::Start
    }

    /// Names the access to make next.
    pub fn request(&self, len: usize) -> (r: Option<Access>)
        requires
            self.valid(),
            0 < len <= MAX_LEN,
        ensures
            r == self.requested(len as int),
            r matches Some(access) ==> access.within(len as int),
    {
        proof {
            lemma_radix();
        }
        match *self {
            Writer::Start => Some(Access::LoadHead),
            Writer::Probe { index, .. } => Some(Access::LoadState { slot: index % len }),
            Writer::Claim { index, state, .. } => Some(
                Access::SwapState { slot: index % len, from: state, to: STATE_WRITING },
            ),
            Writer::Advance { lap, index, .. } => {
                let next_index: usize = (index + 1) % len;
                let next_lap: usize = if next_index != 0 {
                    lap
                } else if lap < INDEX_MASK {
                    lap + 1
                } else {
                    // After the last lap comes lap zero again.
                    0
                };
                proof {
                    self.lemma_next_head_fits(len as int, next_lap, next_index);
                }
                Some(
                    Access::SwapHead {
                        from: pack_data_index(lap, index),
                        to: pack_data_index(next_lap, next_index),
                    },
                )
            },
            Writer::Rollback { index, state, .. } => Some(
                Access::StoreState { slot: index % len, state },
            ),
            Writer::Stamp { lap, index, .. } => Some(Access::StoreLap { slot: index % len, lap }),
            Writer::Fill { index, state, .. } => Some(
                Access::PutMessage { slot: index % len, replaces: state == STATE_AVAILABLE },
            ),
            Writer::Publish { index, .. } => Some(
                Access::StoreState { slot: index % len, state: STATE_AVAILABLE },
            ),
            Writer::Finished => None,
        }
    }

    /// Whether the writer can act on a reply.
    pub fn can_resume(&self, reply: Reply) -> (r: bool)
        ensures
            r == self.accepts(reply),
    {
        match (*self, reply) {
            (Writer::Start, Reply::Word(_)) => true,
            (Writer::Probe { index, .. }, Reply::Word(state)) => {
                is_reading(state) || state == STATE_EMPTY || state == STATE_AVAILABLE || (state
                    == STATE_WRITING && index < INDEX_MASK)
            },
            (Writer::Claim { .. }, Reply::Swapped) => true,
            (Writer::Claim { .. }, Reply::Found(_)) => true,
            (Writer::Advance { .. }, Reply::Swapped) => true,
            (Writer::Advance { .. }, Reply::Found(_)) => true,
            (Writer::Rollback { .. }, Reply::Done) => true,
            (Writer::Stamp { .. }, Reply::Done) => true,
            (Writer::Fill { .. }, Reply::Done) => true,
            (Writer::Publish { .. }, Reply::Done) => true,
            _ => false,
        }
    }

    /// Takes the reply to the access that was requested.
    pub fn resume(self, reply: Reply) -> (r: Writer)
        requires
            self.valid(),
            self.accepts(reply),
        ensures
            r == self.resumed(reply),
            r.valid(),
    {
        proof {
            lemma_radix();
        }
        match (self, reply) {
            (Writer::Start, Reply::Word(head)) => Self::probe(head),
            (Writer::Probe { lap, index }, Reply::Word(state)) => {
                if is_reading(state) {
                    self
                } else if state == STATE_WRITING {
                    Writer::Probe { lap, index: index + 1 }
                } else {
                    Writer::Claim { lap, index, state }
                }
            },
            (Writer::Claim { lap, index, state }, Reply::Swapped) => Writer::Advance {
                lap,
                index,
                state,
            },
            (Writer::Claim { lap, index, .. }, _) => Writer::Probe { lap, index },
            (Writer::Advance { lap, index, state }, Reply::Found(head)) => Writer::Rollback {
                index,
                state,
                head,
            },
            (Writer::Advance { lap, index, state }, _) => Writer::Stamp { lap, index, state },
            (Writer::Rollback { head, .. }, _) => Self::probe(head),
            (Writer::Stamp { lap, index, state }, _) => Writer::Fill { lap, index, state },
            (Writer::Fill { lap, index, .. }, _) => Writer::Publish { lap, index },
            _ => Writer::Finished,
        }
    }

    /// Turns to the position that a head word names.
    fn probe(head: usize) -> (r: Writer)
        ensures
            r == Writer::probing(head),
            r.valid(),
    {
        proof {
            crate::word::law_pack_after_unpack(head);
        }
        let (lap, index): (usize, usize) = unpack_data_index(head);
        Writer::Probe { lap, index }
    }
}

} // verus!
