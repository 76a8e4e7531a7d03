//! Sending and receiving on a buffer that nobody else is using at the moment.
//!
//! [`push`] and [`pop`] run a [`Writer`] and a [`Reader`] to the end. Left alone, neither has
//! to wait or to start again.

use vstd::arithmetic::div_mod::lemma_small_mod;
use vstd::prelude::*;

use crate::backlog::{
    at_rest, finds, lemma_position_next, lemma_ring_push, lemma_ring_read, received, ring, target,
    vacant,
};
use crate::memory::{perform, Access, Memory, Node, Reply};
use crate::reader::{Phase, Reader, ReaderData};
use crate::word::{
    index_of, lap_of, law_pack_after_unpack, lemma_packed_fits, lemma_radix, packed, STATE_AVAILABLE,
    STATE_READING, STATE_WRITING,
};
use crate::writer::{next_index, next_lap, Writer};

verus! {

/// The head word after a head word in a buffer of `len` nodes.
pub open spec fn moved_head(head: usize, len: int) -> usize {
    packed(next_lap(lap_of(head), index_of(head), len), next_index(index_of(head), len)) as usize
}

/// The memory once a message was sent: the node that the head points to holds the message and
/// the lap, the head has moved on, and everything else is as it was.
pub open spec fn pushed<T>(m: Memory<T>, message: T) -> Memory<T> {
    Memory {
        nodes: m.nodes.update(
            index_of(m.head),
            Node { data: Some(message), state: STATE_AVAILABLE, lap: lap_of(m.head) as usize },
        ),
        head: moved_head(m.head, m.nodes.len() as int),
    }
}

/// How many accesses a writer that is left alone still has to make.
spec fn writer_distance(writer: Writer) -> int {
    match writer {
        Writer::Start => 7,
        Writer::Probe { .. } => 6,
        Writer::Claim { .. } => 5,
        Writer::Advance { .. } => 4,
        Writer::Rollback { .. } => 8,
        Writer::Stamp { .. } => 3,
        Writer::Fill { .. } => 2,
        Writer::Publish { .. } => 1,
        Writer::Finished => 0,
    }
}

/// What the memory is like while a writer that is left alone is at work: `start` is the memory
/// it started on, `m` the memory now.
spec fn writer_alone<T>(writer: Writer, start: Memory<T>, m: Memory<T>, message: T) -> bool {
    let len = start.nodes.len() as int;
    let i = index_of(start.head);
    let node = start.nodes[i];
    let here = lap_of(start.head) as usize;
    let moved = moved_head(start.head, len);
    match writer {
        Writer::Start => m == start,
        Writer::Probe { lap, index } => m == start && lap == here && index == i,
        Writer::Claim { lap, index, state } => m == start && lap == here && index == i && state
            == node.state,
        Writer::Advance { lap, index, state } => lap == here && index == i && state == node.state
            && m == (Memory {
            nodes: start.nodes.update(i, Node { state: STATE_WRITING, ..node }),
            head: start.head,
        }),
        Writer::Rollback { .. } => false,
        Writer::Stamp { lap, index, state } => lap == here && index == i && state == node.state
            && m == (Memory {
            nodes: start.nodes.update(i, Node { state: STATE_WRITING, ..node }),
            head: moved,
        }),
        Writer::Fill { lap, index, state } => lap == here && index == i && state == node.state
            && m == (Memory {
            nodes: start.nodes.update(i, Node { state: STATE_WRITING, lap: here, ..node }),
            head: moved,
        }),
        Writer::Publish { lap, index } => lap == here && index == i && m == (Memory {
            nodes: start.nodes.update(
                i,
                Node { data: Some(message), state: STATE_WRITING, lap: here },
            ),
            head: moved,
        }),
        Writer::Finished => m == pushed(start, message),
    }
}

/// Sends a message and gives back the one that it replaces, which is the oldest message if the
/// buffer is full, and none otherwise.
pub fn replace<T>(buffer: &mut [Node<T>], head: &mut usize, value: T) -> (r: Option<T>)
    requires
        at_rest(old(buffer)@, *old(head)),
        0 < old(buffer)@.len(),
    ensures
        (Memory { nodes: final(buffer)@, head: *final(head) }) == pushed(
            Memory { nodes: old(buffer)@, head: *old(head) },
            value,
        ),
        at_rest(final(buffer)@, *final(head)),
        ring(final(buffer)@, *final(head)) == ring(old(buffer)@, *old(head)).push(value),
        r == ring(old(buffer)@, *old(head)).displaced(),
{
    let len: usize = buffer.len();
    let ghost start = Memory { nodes: buffer@, head: *head };
    let mut pending: Option<T> = Some(value);
    let mut replaced: Option<T> = None;
    let mut writer = Writer::new();
    loop
        invariant
            start == (Memory { nodes: old(buffer)@, head: *old(head) }),
            len == start.nodes.len(),
            0 < len,
            at_rest(start.nodes, start.head),
            writer.valid(),
            writer_alone(writer, start, Memory { nodes: buffer@, head: *head }, value),
            if writer is Publish || writer is Finished {
                replaced == start.nodes[index_of(start.head)].data
            } else {
                pending == Some(value)
            },
        decreases writer_distance(writer),
    {
        proof {
            lemma_radix();
            law_pack_after_unpack(start.head);
            let i = index_of(start.head);
            lemma_small_mod(i as nat, len as nat);
            lemma_packed_fits(
                next_lap(lap_of(start.head), i, len as int),
                next_index(i, len as int),
            );
            assert(start.nodes[i].state == STATE_AVAILABLE || vacant(start.nodes[i]));
        }
        match writer.request(len) {
            None => {
                proof {
                    lemma_ring_push(start.nodes, start.head, value, *head);
                    let log = ring(start.nodes, start.head);
                    assert(log.displaced() == start.nodes[index_of(start.head)].data);
                }
                return replaced;
            },
            Some(Access::PutMessage { slot, .. }) => {
                replaced = buffer[slot].data.take();
                buffer[slot].data = pending.take();
                writer = writer.resume(Reply::Done);
                assert(buffer@ =~= start.nodes.update(slot as int, buffer@[slot as int]));
            },
            Some(access) => {
                let reply = perform(buffer, head, access);
                writer = writer.resume(reply);
                proof {
                    let i = index_of(start.head);
                    assert(buffer@ =~= start.nodes.update(i, buffer@[i]));
                    assert(start.nodes.update(i, start.nodes[i]) =~= start.nodes);
                }
            },
        }
    }
}

/// Sends a message.
/// If the buffer is full, the oldest message is overwritten and dropped.
pub fn push<T>(buffer: &mut [Node<T>], head: &mut usize, value: T)
    requires
        at_rest(old(buffer)@, *old(head)),
        0 < old(buffer)@.len(),
    ensures
        (Memory { nodes: final(buffer)@, head: *final(head) }) == pushed(
            Memory { nodes: old(buffer)@, head: *old(head) },
            value,
        ),
        at_rest(final(buffer)@, *final(head)),
        ring(final(buffer)@, *final(head)) == ring(old(buffer)@, *old(head)).push(value),
{
    let _replaced: Option<T> = replace(buffer, head, value);
}

/// How many accesses a reader that is left alone still has to make.
spec fn reader_distance(reader: Reader) -> int {
    match reader.phase {
        Phase::Start => 6,
        Phase::Probe { .. } => 5,
        Phase::Register { .. } => 4,
        Phase::Withdraw { .. } => 7,
        Phase::Check { .. } => 3,
        Phase::Retreat { .. } => 7,
        Phase::Copy { .. } => 2,
        Phase::Leave { .. } => 1,
        Phase::Delivered => 0,
        Phase::Empty => 0,
    }
}

/// What the nodes are like while a reader that is left alone is at work: `start` are the nodes
/// it started on, `nodes` the nodes now, `cursor` is where the receiver was.
spec fn reader_alone<T>(
    reader: Reader,
    start: Seq<Node<T>>,
    nodes: Seq<Node<T>>,
    head: usize,
    cursor: ReaderData,
) -> bool {
    let found = target(cursor, head);
    let i = found.index as int;
    let resting = nodes == start;
    let counted = nodes == start.update(
        i,
        Node { state: (STATE_AVAILABLE + STATE_READING) as usize, ..start[i] },
    );
    let read = !cursor.caught_up(head);
    let moved = found.moved_past(i, start.len() as int);
    match reader.phase {
        Phase::Start => resting && reader.cursor == cursor,
        Phase::Probe { index } => read && resting && index == i && reader.cursor.lap == found.lap,
        Phase::Register { index } => read && resting && index == i && reader.cursor.lap
            == found.lap,
        Phase::Check { index } => read && counted && index == i && reader.cursor.lap == found.lap,
        Phase::Copy { index } => read && counted && index == i && reader.cursor.lap == found.lap,
        Phase::Leave { index } => read && counted && index == i && reader.cursor == moved,
        Phase::Delivered => read && resting && reader.cursor == moved,
        Phase::Empty => !read && resting && reader.cursor == cursor,
        Phase::Withdraw { .. } => false,
        Phase::Retreat { .. } => false,
    }
}

/// Receives the message at a cursor, or the oldest message that is left if that one has been
/// overwritten, and moves the cursor past it. The message stays in the buffer.
///
/// If there is no message to receive, this returns `None`.
pub fn pop<T: Clone>(buffer: &mut [Node<T>], head: &usize, reader: &mut ReaderData) -> (r: Option<
    T,
>)
    requires
        at_rest(old(buffer)@, *head),
        old(reader).fits(old(buffer)@.len() as int),
        old(reader).lap <= lap_of(*head),
    ensures
        final(buffer)@ == old(buffer)@,
        received(ring(old(buffer)@, *head), *old(reader), *final(reader), r),
{
    let len: usize = buffer.len();
    let mut word: usize = *head;
    let ghost start = buffer@;
    let ghost cursor = *reader;
    let ghost log = ring(start, word);
    let ghost at = cursor.position(len as int);
    let mut result: Option<T> = None;
    let mut machine = Reader::new(*reader);
    loop
        invariant
            start == old(buffer)@,
            cursor == *old(reader),
            word == *head,
            len == start.len(),
            at_rest(start, word),
            cursor.fits(len as int),
            cursor.lap <= lap_of(word),
            log == ring(start, word),
            at == cursor.position(len as int),
            machine.valid(len as int),
            reader_alone(machine, start, buffer@, word, cursor),
            if machine.phase is Leave || machine.phase is Delivered {
                result is Some && cloned(log.message(log.source(at)), result->0)
            } else {
                result is None
            },
        decreases reader_distance(machine),
    {
        let ghost found = target(cursor, word);
        let ghost i = found.index as int;
        proof {
            lemma_radix();
            law_pack_after_unpack(word);
            lemma_ring_read(start, word, cursor);
            if 0 < len {
                lemma_small_mod(i as nat, len as nat);
                lemma_small_mod(index_of(word) as nat, len as nat);
                if i < len {
                    lemma_position_next(found.lap as int, i, len as int);
                }
            }
        }
        match machine.request(len) {
            None => {
                *reader = machine.cursor;
                return result;
            },
            Some(Access::CloneMessage { slot }) => {
                result =
                match &buffer[slot].data {
                    Some(message) => Some(message.clone()),
                    None => None,
                };
                machine = machine.resume(Reply::Done, len);
            },
            Some(access) => {
                let reply = perform(buffer, &mut word, access);
                machine = machine.resume(reply, len);
                proof {
                    if i < len {
                        assert(buffer@ =~= start.update(i, buffer@[i]));
                        assert(start.update(i, start[i]) =~= start);
                    }
                }
            },
        }
    }
}

/// Finds the message at a cursor, or the oldest message that is left if that one has been
/// overwritten: its place in the buffer, and the cursor moved past it. This is what a [`Reader`]
/// decides when the nodes are there to be read and need not be registered on.
///
/// If there is no message to receive, this returns `None`.
pub fn find<T>(buffer: &[Node<T>], head: usize, reader: ReaderData) -> (r: Option<
    (usize, ReaderData),
>)
    requires
        at_rest(buffer@, head),
        reader.fits(buffer@.len() as int),
        reader.lap <= lap_of(head),
    ensures
        r matches Some((slot, _)) ==> slot < buffer@.len() && buffer@[slot as int].data is Some,
        finds(
            ring(buffer@, head),
            reader,
            match r {
                None => None,
                Some((slot, later)) => Some((buffer@[slot as int].data->0, later)),
            },
        ),
{
    let len: usize = buffer.len();
    proof {
        lemma_radix();
        law_pack_after_unpack(head);
        lemma_ring_read(buffer@, head, reader);
        if 0 < len {
            let found = target(reader, head);
            lemma_small_mod(index_of(head) as nat, len as nat);
            if found.index < len {
                lemma_small_mod(found.index as nat, len as nat);
                lemma_position_next(found.lap as int, found.index as int, len as int);
            }
        }
    }
    let machine = Reader::new(reader).resume(Reply::Word(head), len);
    match machine.phase {
        Phase::Probe { index } => {
            let copying = Reader { cursor: machine.cursor, phase: Phase::Copy { index } };
            let moved = copying.resume(Reply::Done, len);
            Some((index, moved.cursor))
        },
        _ => None,
    }
}

} // verus!
