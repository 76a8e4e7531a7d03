//! The memory the writers and readers of a channel work on, and the accesses they make.
//!
//! Each [`Access`] is one indivisible operation. [`after`] and [`answer`] say what it does to
//! the memory and what it gives back; [`perform`] carries it out on memory that the caller
//! owns.

use vstd::prelude::*;

use crate::word::STATE_EMPTY;

verus! {

/// One place of the buffer.
#[derive(Debug)]
pub struct Node<T> {
    /// The last message written here.
    pub data: Option<T>,
    /// What may be done with the node, see the `STATE_` constants.
    pub state: usize,
    /// The lap in which the last message was written here.
    pub lap: usize,
}

/// A node to which nothing was ever written.
pub open spec fn empty_node<T>() -> Node<T> {
    Node { data: None, state: STATE_EMPTY, lap: 0 }
}

impl<T> Node<T> {
    /// Creates a node to which nothing was ever written.
    pub fn empty() -> (r: Self)
        ensures
            r == empty_node::<T>(),
    {
        Self { data: None, state: STATE_EMPTY, lap: 0 }
    }
}

impl<T> Default for Node<T> {
    fn default() -> (r: Self)
        ensures
            r == empty_node::<T>(),
    {
        Self { data: None, state: STATE_EMPTY, lap: 0 }
    }
}

/// The nodes of a channel together with its head word.
#[verifier::ext_equal]
pub struct Memory<T> {
    pub nodes: Seq<Node<T>>,
    pub head: usize,
}

/// One indivisible operation on the memory of a channel.
#[derive(Clone, Copy, Debug, PartialEq, Eq, Structural)]
pub enum Access {
    /// Read the head word.
    LoadHead,
    /// Set the head word to `to` if it is `from`.
    SwapHead { from: usize, to: usize },
    /// Read the state of a node.
    LoadState { slot: usize },
    /// Set the state of a node to `to` if it is `from`; may be refused for no reason.
    SwapState { slot: usize, from: usize, to: usize },
    /// Set the state of a node.
    StoreState { slot: usize, state: usize },
    /// Add to the state of a node, wrapping around, and give back what it was.
    AddState { slot: usize, amount: usize },
    /// Subtract from the state of a node, wrapping around.
    SubState { slot: usize, amount: usize },
    /// Read the lap of a node.
    LoadLap { slot: usize },
    /// Set the lap of a node.
    StoreLap { slot: usize, lap: usize },
    /// Put the message into a node; `replaces` says whether one is there to be dropped.
    PutMessage { slot: usize, replaces: bool },
    /// Clone the message in a node.
    CloneMessage { slot: usize },
}

/// What an access gives back.
#[derive(Clone, Copy, Debug, PartialEq, Eq, Structural)]
pub enum Reply {
    /// The word that was read.
    Word(usize),
    /// The word was as expected and has been replaced.
    Swapped,
    /// The word was left alone; this is what it is.
    Found(usize),
    /// The access is done and gives nothing back.
    Done,
}

impl Access {
    /// Whether the node that the access is about is one of `len` nodes.
    pub open spec fn within(self, len: int) -> bool {
        match self {
            Access::LoadHead => true,
            Access::SwapHead { .. } => true,
            Access::LoadState { slot } => slot < len,
            Access::SwapState { slot, .. } => slot < len,
            Access::StoreState { slot, .. } => slot < len,
            Access::AddState { slot, .. } => slot < len,
            Access::SubState { slot, .. } => slot < len,
            Access::LoadLap { slot } => slot < len,
            Access::StoreLap { slot, .. } => slot < len,
            Access::PutMessage { slot, .. } => slot < len,
            Access::CloneMessage { slot } => slot < len,
        }
    }

    /// Whether the access moves a message.
    pub open spec fn moves_message(self) -> bool {
        self is PutMessage || self is CloneMessage
    }
}

/// Memory with the state of one node replaced.
pub open spec fn with_state<T>(m: Memory<T>, slot: int, state: usize) -> Memory<T> {
    Memory { nodes: m.nodes.update(slot, Node { state, ..m.nodes[slot] }), head: m.head }
}

/// Memory with the lap of one node replaced.
pub open spec fn with_lap<T>(m: Memory<T>, slot: int, lap: usize) -> Memory<T> {
    Memory { nodes: m.nodes.update(slot, Node { lap, ..m.nodes[slot] }), head: m.head }
}

/// Memory with the message of one node replaced.
pub open spec fn with_message<T>(m: Memory<T>, slot: int, message: T) -> Memory<T> {
    Memory {
        nodes: m.nodes.update(slot, Node { data: Some(message), ..m.nodes[slot] }),
        head: m.head,
    }
}

/// The memory once an access that moves no message has been carried out.
pub open spec fn after<T>(m: Memory<T>, access: Access) -> Memory<T> {
    match access {
        Access::SwapHead { from, to } => if m.head == from {
            Memory { nodes: m.nodes, head: to }
        } else {
            m
        },
        Access::SwapState { slot, from, to } => if m.nodes[slot as int].state == from {
            with_state(m, slot as int, to)
        } else {
            m
        },
        Access::StoreState { slot, state } => with_state(m, slot as int, state),
        Access::AddState { slot, amount } => with_state(
            m,
            slot as int,
            m.nodes[slot as int].state.wrapping_add(amount),
        ),
        Access::SubState { slot, amount } => with_state(
            m,
            slot as int,
            m.nodes[slot as int].state.wrapping_sub(amount),
        ),
        Access::StoreLap { slot, lap } => with_lap(m, slot as int, lap),
        _ => m,
    }
}

/// What an access that moves no message gives back.
pub open spec fn answer<T>(m: Memory<T>, access: Access) -> Reply {
    match access {
        Access::LoadHead => Reply::Word(m.head),
        Access::SwapHead { from, .. } => if m.head == from {
            Reply::Swapped
        } else {
            Reply::Found(m.head)
        },
        Access::LoadState { slot } => Reply::Word(m.nodes[slot as int].state),
        Access::SwapState { slot, from, .. } => if m.nodes[slot as int].state == from {
            Reply::Swapped
        } else {
            Reply::Found(m.nodes[slot as int].state)
        },
        Access::AddState { slot, .. } => Reply::Word(m.nodes[slot as int].state),
        Access::LoadLap { slot } => Reply::Word(m.nodes[slot as int].lap),
        _ => Reply::Done,
    }
}

/// Carries out an access that moves no message on memory that nobody else is using.
pub fn perform<T>(buffer: &mut [Node<T>], head: &mut usize, access: Access) -> (reply: Reply)
    requires
        access.within(old(buffer)@.len() as int),
        !access.moves_message(),
    ensures
        (Memory { nodes: final(buffer)@, head: *final(head) }) == after(
            Memory { nodes: old(buffer)@, head: *old(head) },
            access,
        ),
        reply == answer(Memory { nodes: old(buffer)@, head: *old(head) }, access),
{
    match access {
        Access::LoadHead => Reply::Word(*head),
        Access::SwapHead { from, to } => {
            if *head == from {
                *head = to;
                Reply::Swapped
            } else {
                Reply::Found(*head)
            }
        },
        Access::LoadState { slot } => Reply::Word(buffer[slot].state),
        Access::SwapState { slot, from, to } => {
            if buffer[slot].state == from {
                buffer[slot].state = to;
                Reply::Swapped
            } else {
                Reply::Found(buffer[slot].state)
            }
        },
        Access::StoreState { slot, state } => {
            buffer[slot].state = state;
            Reply::Done
        },
        Access::AddState { slot, amount } => {
            let state: usize = buffer[slot].state;
            buffer[slot].state = state.wrapping_add(amount);
            Reply::Word(state)
        },
        Access::SubState { slot, amount } => {
            let state: usize = buffer[slot].state;
            buffer[slot].state = state.wrapping_sub(amount);
            Reply::Done
        },
        Access::LoadLap { slot } => Reply::Word(buffer[slot].lap),
        Access::StoreLap { slot, lap } => {
            buffer[slot].lap = lap;
            Reply::Done
        },
        Access::PutMessage { .. } => Reply::Done,
        Access::CloneMessage { .. } => Reply::Done,
    }
}

} // verus!
