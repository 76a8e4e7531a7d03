//! What a channel is for: the messages it still holds, in the order in which they were sent.
//!
//! Every message has a position: the first one sent has position zero, the next one position
//! one, and so on. A [`Backlog`] knows the position of the next message and the messages sent
//! last, as many as fit. [`ring`] says which backlog a buffer and a head word stand for.

use std::sync::Arc;
use vstd::arithmetic::div_mod::{lemma_mod_bound, lemma_small_mod};
use vstd::prelude::*;

use crate::memory::{empty_node, Node};
use crate::reader::ReaderData;
use crate::word::{
    index_of, lap_of, law_pack_after_unpack, law_unpack_after_pack, lemma_radix, lemma_zero,
    packed, radix, MAX_LEN, STATE_AVAILABLE,
};
use crate::writer::{next_index, next_lap};

verus! {

/// The number of positions that can be told apart in a channel of the given capacity. The
/// position after the last one is zero again.
pub open spec fn positions(capacity: int) -> int {
    radix() * capacity
}

/// The messages that a channel holds.
#[verifier::ext_equal]
pub struct Backlog<T> {
    /// How many messages fit.
    pub capacity: int,
    /// The position of the next message to be sent.
    pub next: int,
    /// The messages sent last, oldest first.
    pub kept: Seq<T>,
}

impl<T> Backlog<T> {
    /// A channel holds every message sent so far, or as many as fit.
    pub open spec fn valid(self) -> bool {
        &&& 0 <= self.capacity <= MAX_LEN
        &&& 0 <= self.next
        &&& self.next == 0 || self.next < positions(self.capacity)
        &&& self.kept.len() <= self.capacity
        &&& self.kept.len() == self.capacity || self.kept.len() == self.next
    }

    /// A channel to which nothing was sent.
    pub open spec fn empty(capacity: int) -> Backlog<T> {
        Backlog { capacity, next: 0, kept: Seq::empty() }
    }

    /// The channel once a message was sent: the oldest message makes room if there is none.
    pub open spec fn push(self, message: T) -> Backlog<T> {
        Backlog {
            capacity: self.capacity,
            next: (self.next + 1) % positions(self.capacity),
            kept: if self.kept.len() < self.capacity {
                self.kept.push(message)
            } else {
                self.kept.drop_first().push(message)
            },
        }
    }

    /// The message that makes room when the next one is sent, if one has to.
    pub open spec fn displaced(self) -> Option<T> {
        if self.kept.len() < self.capacity {
            None
        } else {
            Some(self.kept[0])
        }
    }

    /// The position of the oldest message that a receiver can still get.
    pub open spec fn horizon(self) -> int {
        if self.next < self.capacity {
            0
        } else {
            self.next - self.capacity
        }
    }

    /// The message at a position between the horizon and the next position.
    pub open spec fn message(self, position: int) -> T {
        self.kept[self.kept.len() - (self.next - position)]
    }

    /// The position of the message that a receiver gets whose next position is given.
    pub open spec fn source(self, position: int) -> int {
        if position < self.horizon() {
            self.horizon()
        } else {
            position
        }
    }

    /// Whether there is a message for a receiver whose next position is given.
    pub open spec fn has_message_for(self, position: int) -> bool {
        position < self.next
    }
}

/// The channel once several messages were sent, one after the other.
pub open spec fn push_all<T>(log: Backlog<T>, sent: Seq<T>) -> Backlog<T>
    decreases sent.len(),
{
    if sent.len() == 0 {
        log
    } else {
        push_all(log, sent.drop_last()).push(sent.last())
    }
}

/// Sending one more message after several is one more push.
pub proof fn lemma_push_all_push<T>(log: Backlog<T>, sent: Seq<T>, message: T)
    ensures
        push_all(log, sent.push(message)) == push_all(log, sent).push(message),
{
    assert(sent.push(message).drop_last() =~= sent);
}

/// Whether a backlog is what some sends leave of a channel that had another backlog before.
pub open spec fn follows<T>(origin: Backlog<T>, log: Backlog<T>) -> bool {
    exists|sent: Seq<T>| log == #[trigger] push_all(origin, sent)
}

/// One more send keeps a backlog one that follows from the same origin.
pub proof fn lemma_push_follows<T>(origin: Backlog<T>, log: Backlog<T>, message: T)
    requires
        follows(origin, log),
    ensures
        follows(origin, log.push(message)),
{
    let sent = choose|sent: Seq<T>| log == #[trigger] push_all(origin, sent);
    let more = sent.push(message);
    assert(more.drop_last() =~= sent);
    assert(log.push(message) == push_all(origin, more));
}

/// The messages themselves, where a channel holds shared pointers to them.
pub open spec fn pointees<T>(log: Backlog<Arc<T>>) -> Backlog<T> {
    Backlog {
        capacity: log.capacity,
        next: log.next,
        kept: Seq::new(log.kept.len(), |i: int| *log.kept[i]),
    }
}

/// Sending a pointer to a message is sending the message.
pub proof fn lemma_pointees_push<T>(log: Backlog<Arc<T>>, message: Arc<T>)
    requires
        log.valid(),
        0 < log.capacity,
    ensures
        pointees(log.push(message)) == pointees(log).push(*message),
{
    assert(pointees(log.push(message)).kept =~= pointees(log).push(*message).kept);
}

/// A channel of pointers that is empty is empty.
pub proof fn lemma_pointees_empty<T>(capacity: int)
    ensures
        pointees(Backlog::<Arc<T>>::empty(capacity)) == Backlog::<T>::empty(capacity),
{
    assert(pointees(Backlog::<Arc<T>>::empty(capacity)).kept =~= Seq::<T>::empty());
}

/// Finding a pointer to a message is finding the message.
pub proof fn lemma_pointees_found<T>(
    log: Backlog<Arc<T>>,
    cursor: ReaderData,
    found: Option<(Arc<T>, ReaderData)>,
)
    requires
        log.valid(),
        cursor.fits(log.capacity),
        finds(log, cursor, found),
    ensures
        finds(
            pointees(log),
            cursor,
            match found {
                None => None,
                Some((message, later)) => Some((*message, later)),
            },
        ),
{
    let at = cursor.position(log.capacity);
    if found is Some {
        assert(0 <= cursor.lap * log.capacity) by (nonlinear_arith)
            requires
                0 <= cursor.lap,
                0 <= log.capacity,
        ;
        crate::laws::law_receiving_moves_on(log, at);
    }
}

/// No sends at all leave a channel as it was.
pub proof fn lemma_follows_itself<T>(origin: Backlog<T>)
    ensures
        follows(origin, origin),
{
    assert(origin == push_all(origin, Seq::empty()));
}

impl ReaderData {
    /// The position a cursor stands for in a buffer of `len` nodes.
    pub open spec fn position(self, len: int) -> int {
        position(self.lap as int, self.index as int, len)
    }

    /// Whether the cursor points into a buffer of `len` nodes.
    pub open spec fn fits(self, len: int) -> bool {
        self.index < len || len == 0 && self.index == 0 && self.lap == 0
    }
}

/// Whether a receive on a channel with this backlog may take a cursor from `before` to `later`
/// and give this result: nothing if there is no message for the receiver, and otherwise a
/// clone of the message at its position, or of the oldest one left.
pub open spec fn received<T: Clone>(
    log: Backlog<T>,
    before: ReaderData,
    later: ReaderData,
    result: Option<T>,
) -> bool {
    let at = before.position(log.capacity);
    match result {
        None => !log.has_message_for(at) && later == before,
        Some(value) => {
            &&& log.has_message_for(at)
            &&& cloned(log.message(log.source(at)), value)
            &&& later.fits(log.capacity)
            &&& later.position(log.capacity) == log.source(at) + 1
        },
    }
}

/// Whether this is what a receiver finds on a channel with this backlog: nothing if there is no
/// message for it, and otherwise the message at its position, or the oldest one left, with the
/// cursor moved past the message.
pub open spec fn finds<T>(
    log: Backlog<T>,
    cursor: ReaderData,
    found: Option<(T, ReaderData)>,
) -> bool {
    let at = cursor.position(log.capacity);
    match found {
        None => !log.has_message_for(at),
        Some((message, later)) => {
            &&& log.has_message_for(at)
            &&& message == log.message(log.source(at))
            &&& later.fits(log.capacity)
            &&& later.position(log.capacity) == log.source(at) + 1
        },
    }
}

/// The position with the given lap and index in a buffer of `len` nodes.
pub open spec fn position(lap: int, index: int, len: int) -> int {
    lap * len + index
}

/// The lap before a lap.
pub open spec fn lap_before(lap: int) -> int {
    if lap == 0 {
        radix() - 1
    } else {
        lap - 1
    }
}

/// Whether a node holds a message of the given lap and nobody is using it.
pub open spec fn settled<T>(node: Node<T>, lap: int) -> bool {
    &&& node.state == STATE_AVAILABLE
    &&& node.lap == lap
    &&& node.data is Some
}

/// Whether nothing was ever written to a node and nobody is using it.
pub open spec fn vacant<T>(node: Node<T>) -> bool {
    node == empty_node::<T>()
}

/// Whether the node that the head points to holds a message, that is, whether the buffer has
/// been filled once.
pub open spec fn filled<T>(nodes: Seq<Node<T>>, head: usize) -> bool {
    nodes.len() > 0 && nodes[index_of(head)].state == STATE_AVAILABLE
}

/// Whether a buffer and a head word belong to a channel that nobody is using at the moment:
/// up to the head the nodes hold messages of the current lap, from there on messages of the
/// lap before, or none if there was no lap before.
pub open spec fn at_rest<T>(nodes: Seq<Node<T>>, head: usize) -> bool {
    let len = nodes.len() as int;
    &&& len <= MAX_LEN
    &&& len == 0 ==> head == 0
    &&& len > 0 ==> index_of(head) < len
    &&& forall|i: int| 0 <= i < index_of(head) ==> settled(#[trigger] nodes[i], lap_of(head))
    &&& filled(nodes, head) ==> forall|i: int|
        index_of(head) <= i < len ==> settled(#[trigger] nodes[i], lap_before(lap_of(head)))
    &&& !filled(nodes, head) ==> lap_of(head) == 0 && forall|i: int|
        index_of(head) <= i < len ==> vacant(#[trigger] nodes[i])
}

/// The messages in some nodes.
pub open spec fn messages<T>(nodes: Seq<Node<T>>) -> Seq<T> {
    Seq::new(nodes.len(), |i: int| nodes[i].data->0)
}

/// The backlog that a buffer and a head word stand for.
pub open spec fn ring<T>(nodes: Seq<Node<T>>, head: usize) -> Backlog<T> {
    let len = nodes.len() as int;
    let index = index_of(head);
    Backlog {
        capacity: len,
        next: position(lap_of(head), index, len),
        kept: if filled(nodes, head) {
            messages(nodes.subrange(index, len)) + messages(nodes.subrange(0, index))
        } else {
            messages(nodes.subrange(0, index))
        },
    }
}

/// Positions are ordered by lap first and by index second.
pub proof fn lemma_position_order(lap1: int, index1: int, lap2: int, index2: int, len: int)
    requires
        0 <= index1 < len,
        0 <= index2 < len,
    ensures
        position(lap1, index1, len) < position(lap2, index2, len) <==> (lap1 < lap2 || lap1 == lap2
            && index1 < index2),
        position(lap1, index1, len) == position(lap2, index2, len) <==> (lap1 == lap2 && index1
            == index2),
{
    if lap1 < lap2 {
        assert(lap1 * len + len <= lap2 * len) by (nonlinear_arith)
            requires
                lap1 + 1 <= lap2,
                0 < len,
        ;
    }
    if lap2 < lap1 {
        assert(lap2 * len + len <= lap1 * len) by (nonlinear_arith)
            requires
                lap2 + 1 <= lap1,
                0 < len,
        ;
    }
}

/// A lap has begun by a position exactly if it is not later than the lap of the position.
pub proof fn lemma_lap_begun(begun: int, lap: int, index: int, len: int)
    requires
        0 <= index < len,
    ensures
        begun * len <= position(lap, index, len) <==> begun <= lap,
{
    lemma_position_order(lap, index, begun, 0, len);
}

/// The next lap and the next index name the position after a position.
pub proof fn lemma_position_next(lap: int, index: int, len: int)
    requires
        0 <= index < len,
    ensures
        0 <= next_index(index, len) < len,
        position(next_lap(lap, index, len), next_index(index, len), len) == position(
            lap,
            index,
            len,
        ) + 1,
{
    assert((lap + 1) * len == lap * len + len) by (nonlinear_arith);
    if index + 1 < len {
        lemma_small_mod((index + 1) as nat, len as nat);
    } else {
        vstd::arithmetic::div_mod::lemma_mod_self_0(len);
    }
}

/// The head word after a head word names the next position, and is again a head word that
/// points into the buffer.
pub proof fn lemma_head_moves(head: usize, len: int, moved: usize)
    requires
        0 < len <= MAX_LEN,
        index_of(head) < len,
        moved == packed(
            next_lap(lap_of(head), index_of(head), len),
            next_index(index_of(head), len),
        ),
    ensures
        index_of(moved) == next_index(index_of(head), len),
        lap_of(moved) == next_lap(lap_of(head), index_of(head), len) % radix(),
        position(lap_of(moved), index_of(moved), len) == (position(
            lap_of(head),
            index_of(head),
            len,
        ) + 1) % positions(len),
        0 <= position(lap_of(head), index_of(head), len) < positions(len),
        lap_before(lap_of(moved)) == lap_of(head) || index_of(moved) != 0,
{
    lemma_radix();
    law_pack_after_unpack(head);
    let lap = lap_of(head);
    let index = index_of(head);
    let r = radix();
    if index + 1 < len {
        lemma_small_mod((index + 1) as nat, len as nat);
        lemma_small_mod(lap as nat, r as nat);
        law_unpack_after_pack(lap, index + 1, moved);
    } else {
        assert(index + 1 == len);
        assert(len % len == 0) by {
            vstd::arithmetic::div_mod::lemma_mod_self_0(len);
        }
        if lap + 1 < r {
            lemma_small_mod((lap + 1) as nat, r as nat);
            law_unpack_after_pack(lap + 1, 0, moved);
        } else {
            vstd::arithmetic::div_mod::lemma_mod_self_0(r);
            lemma_small_mod(0, r as nat);
            assert(packed(0, 0) == packed(lap + 1, 0));
            law_unpack_after_pack(0, 0, moved);
        }
    }
    assert(0 <= lap * len && lap * len + len <= r * len) by (nonlinear_arith)
        requires
            0 <= lap,
            lap + 1 <= r,
            0 < len,
    ;
    assert((lap + 1) * len == lap * len + len) by (nonlinear_arith);
    if lap + 1 == r && index + 1 == len {
        vstd::arithmetic::div_mod::lemma_mod_self_0(r * len);
        assert((r - 1) * len + len == r * len) by (nonlinear_arith);
        assert(0 * len == 0) by (nonlinear_arith);
    } else {
        if index + 1 == len {
            assert((lap + 1) * len + len <= r * len) by (nonlinear_arith)
                requires
                    lap + 2 <= r,
                    0 < len,
            ;
        }
        lemma_small_mod((lap * len + index + 1) as nat, (r * len) as nat);
    }
}

/// A buffer at rest stands for a valid backlog.
pub proof fn lemma_ring_valid<T>(nodes: Seq<Node<T>>, head: usize)
    requires
        at_rest(nodes, head),
    ensures
        ring(nodes, head).valid(),
{
    lemma_radix();
    law_pack_after_unpack(head);
    let len = nodes.len() as int;
    if len == 0 {
        lemma_zero();
    } else {
        let lap = lap_of(head);
        assert(0 <= lap * len && lap * len + len <= radix() * len) by (nonlinear_arith)
            requires
                0 <= lap,
                lap + 1 <= radix(),
                0 < len,
        ;
    }
    assert(0 * len == 0) by (nonlinear_arith);
}

/// The lap of a cursor has begun exactly if it is not later than the lap of the head.
pub proof fn lemma_ring_laps<T>(nodes: Seq<Node<T>>, head: usize, cursor: ReaderData)
    requires
        at_rest(nodes, head),
        cursor.fits(nodes.len() as int),
    ensures
        cursor.lap * nodes.len() <= ring(nodes, head).next <==> cursor.lap <= lap_of(head),
{
    law_pack_after_unpack(head);
    if 0 < nodes.len() {
        lemma_lap_begun(cursor.lap as int, lap_of(head), index_of(head), nodes.len() as int);
    } else {
        lemma_zero();
        lemma_ring_valid(nodes, head);
    }
}

/// A fresh buffer stands for an empty backlog.
pub proof fn lemma_ring_fresh<T>(nodes: Seq<Node<T>>)
    requires
        nodes.len() <= MAX_LEN,
        forall|i: int| 0 <= i < nodes.len() ==> #[trigger] nodes[i] == empty_node::<T>(),
    ensures
        at_rest(nodes, 0),
        ring(nodes, 0) == Backlog::<T>::empty(nodes.len() as int),
{
    lemma_zero();
    assert(0 * nodes.len() == 0) by (nonlinear_arith);
    assert(ring(nodes, 0).kept =~= Seq::empty());
}

/// A buffer at rest that stands for an empty backlog is a fresh one.
pub proof fn lemma_ring_empty<T>(nodes: Seq<Node<T>>, head: usize)
    requires
        at_rest(nodes, head),
        ring(nodes, head) == Backlog::<T>::empty(nodes.len() as int),
    ensures
        head == 0,
        forall|i: int| 0 <= i < nodes.len() ==> #[trigger] nodes[i] == empty_node::<T>(),
{
    let len = nodes.len() as int;
    lemma_radix();
    law_pack_after_unpack(head);
    if 0 < len {
        assert(ring(nodes, head).kept.len() == 0);
        lemma_position_order(0, 0, lap_of(head), index_of(head), len);
        assert(0 * len == 0) by (nonlinear_arith);
        lemma_small_mod(0, radix() as nat);
        assert(0 * radix() == 0) by (nonlinear_arith);
        assert forall|i: int| 0 <= i < len implies #[trigger] nodes[i] == empty_node::<T>() by {
            assert(vacant(nodes[i]));
        }
    }
}

/// Writing a message into the node that the head points to and moving the head on is what
/// sending is about.
pub proof fn lemma_ring_push<T>(nodes: Seq<Node<T>>, head: usize, message: T, moved: usize)
    requires
        at_rest(nodes, head),
        0 < nodes.len(),
        moved == packed(
            next_lap(lap_of(head), index_of(head), nodes.len() as int),
            next_index(index_of(head), nodes.len() as int),
        ),
    ensures
        ({
            let written = Node {
                data: Some(message),
                state: STATE_AVAILABLE,
                lap: lap_of(head) as usize,
            };
            let changed = nodes.update(index_of(head), written);
            &&& at_rest(changed, moved)
            &&& ring(changed, moved) == ring(nodes, head).push(message)
        }),
{
    let len = nodes.len() as int;
    let index = index_of(head);
    let lap = lap_of(head);
    let written = Node { data: Some(message), state: STATE_AVAILABLE, lap: lap as usize };
    let changed = nodes.update(index, written);
    lemma_radix();
    law_pack_after_unpack(head);
    law_pack_after_unpack(moved);
    lemma_head_moves(head, len, moved);
    lemma_mod_bound(index + 1, len);
    if index + 1 < len {
        lemma_small_mod((index + 1) as nat, len as nat);
        lemma_small_mod(lap as nat, radix() as nat);
        assert(changed[index + 1] == nodes[index + 1]);
    } else {
        vstd::arithmetic::div_mod::lemma_mod_self_0(len);
        if index > 0 {
            assert(settled(nodes[0], lap));
        }
        assert(settled(changed[0], lap));
    }
    assert(settled(changed[index], lap));
    assert forall|i: int| 0 <= i < index_of(moved) implies settled(
        #[trigger] changed[i],
        lap_of(moved),
    ) by {
        if i < index {
            assert(settled(nodes[i], lap));
        }
    }
    if filled(changed, moved) {
        assert forall|i: int| index_of(moved) <= i < len implies settled(
            #[trigger] changed[i],
            lap_before(lap_of(moved)),
        ) by {
            if i != index {
                assert(changed[i] == nodes[i]);
            }
        }
    }
    assert(ring(changed, moved).kept =~= ring(nodes, head).push(message).kept);
}

/// Where a receiver finds its message: at its cursor, or at the head but one lap earlier if
/// the receiver was lapped.
pub open spec fn target(cursor: ReaderData, head: usize) -> ReaderData {
    if cursor.lapped(head) {
        ReaderData { index: index_of(head) as usize, lap: (lap_of(head) - 1) as usize }
    } else {
        cursor
    }
}

/// A receiver that has not caught up with the head finds the message it is due in a settled
/// node of the right lap.
pub proof fn lemma_ring_read<T>(nodes: Seq<Node<T>>, head: usize, cursor: ReaderData)
    requires
        at_rest(nodes, head),
        cursor.fits(nodes.len() as int),
        cursor.lap <= lap_of(head),
    ensures
        ({
            let len = nodes.len() as int;
            let log = ring(nodes, head);
            let at = cursor.position(len);
            let found = target(cursor, head);
            &&& cursor.caught_up(head) <==> !log.has_message_for(at)
            &&& !cursor.caught_up(head) ==> {
                &&& found.index < len
                &&& settled(nodes[found.index as int], found.lap as int)
                &&& found.position(len) == log.source(at)
                &&& nodes[found.index as int].data == Some(log.message(log.source(at)))
            }
        }),
{
    let len = nodes.len() as int;
    let log = ring(nodes, head);
    let lap = lap_of(head);
    let index = index_of(head);
    let at = cursor.position(len);
    lemma_radix();
    law_pack_after_unpack(head);
    if len == 0 {
        lemma_zero();
        assert(cursor.lap as int * 0 == 0);
        assert(lap * 0 == 0);
    } else {
        lemma_position_order(cursor.lap as int, cursor.index as int, lap, index, len);
        if !cursor.caught_up(head) {
            assert((lap - 1) * len == lap * len - len) by (nonlinear_arith);
            assert(0 * len == 0) by (nonlinear_arith);
            if cursor.lap < lap {
                assert(filled(nodes, head));
                assert(len <= lap * len) by (nonlinear_arith)
                    requires
                        1 <= lap,
                        0 < len,
                ;
                lemma_position_order(cursor.lap as int, cursor.index as int, lap - 1, index, len);
                let found = target(cursor, head);
                assert(found.lap == lap - 1);
                assert(settled(nodes[found.index as int], found.lap as int));
                assert(log.kept[found.index - index] == nodes[found.index as int].data->0);
            } else {
                assert(settled(nodes[cursor.index as int], lap));
                assert(log.next - at == index - cursor.index);
                assert(log.horizon() <= at);
                if filled(nodes, head) {
                    assert(log.kept[len - index + cursor.index]
                        == nodes[cursor.index as int].data->0);
                } else {
                    assert(log.kept[cursor.index as int] == nodes[cursor.index as int].data->0);
                }
            }
        }
    }
}

} // verus!
