//! Writers and readers at work on the same memory.
//!
//! A [`World`] is a memory with any number of writers and readers that are under way. In each
//! [`step`] one of them makes the access it requested and resumes with the reply, or another
//! `send` or `recv` begins. A [`run`] is any interleaving of such steps. The laws say what
//! holds in every world of every run.
//!
//! In a run each access sees what all accesses before it have left: the accesses are taken to be
//! sequentially consistent. Of accesses in weaker memory orders the laws say nothing.

use vstd::arithmetic::div_mod::{lemma_mod_bound, lemma_small_mod};
use vstd::multiset::Multiset;
use vstd::prelude::*;

use crate::backlog::{
    lemma_head_moves, lemma_position_next, lemma_position_order, position, positions,
};
use crate::core_impl::moved_head;
use crate::memory::{after, answer, empty_node, with_message, Access, Memory, Reply};
use crate::reader::{Phase, Reader, ReaderData};
use crate::word::{
    index_of, lap_of, law_pack_after_unpack, law_unpack_after_pack, lemma_packed_fits,
    lemma_radix, lemma_zero, radix, MAX_LEN, STATE_AVAILABLE, STATE_EMPTY, STATE_READING,
    STATE_WRITING,
};
use crate::writer::{next_index, next_lap, slot_of, Writer};

verus! {

/// A memory and those at work on it.
#[verifier::ext_equal]
pub struct World<T> {
    pub memory: Memory<T>,
    /// The sends under way or finished.
    pub writers: Seq<Writer>,
    /// The message of each send.
    pub outgoing: Seq<T>,
    /// The receives under way or finished.
    pub readers: Seq<Reader>,
    /// The messages of the sends that have moved the head, in the order in which they did.
    pub log: Seq<T>,
}

impl<T> World<T> {
    /// The number of nodes.
    pub open spec fn len(self) -> int {
        self.memory.nodes.len() as int
    }
}

/// Whether an access that moves no message may give this reply and leave this memory. To take
/// a node may fail although its state is as expected.
pub open spec fn may_reply<T>(
    before: Memory<T>,
    access: Access,
    reply: Reply,
    later: Memory<T>,
) -> bool {
    ||| reply == answer(before, access) && later == after(before, access)
    ||| access matches Access::SwapState { slot, .. } && reply == Reply::Found(
        before.nodes[slot as int].state,
    ) && later == before
}

/// Writer `k` makes the access it requested and resumes with the reply.
pub open spec fn writer_step<T>(a: World<T>, b: World<T>, k: int, reply: Reply) -> bool {
    &&& 0 <= k < a.writers.len()
    &&& a.writers[k].accepts(reply)
    &&& b.writers == a.writers.update(k, a.writers[k].resumed(reply))
    &&& b.outgoing == a.outgoing
    &&& b.readers == a.readers
    &&& a.writers[k].requested(a.len()) matches Some(access) && {
        &&& if access is PutMessage {
            reply is Done && b.memory == with_message(
                a.memory,
                access->PutMessage_slot as int,
                a.outgoing[k],
            )
        } else {
            may_reply(a.memory, access, reply, b.memory)
        }
        &&& b.log == if access is SwapHead && reply is Swapped {
            a.log.push(a.outgoing[k])
        } else {
            a.log
        }
    }
}

/// Reader `k` makes the access it requested and resumes with the reply.
pub open spec fn reader_step<T>(a: World<T>, b: World<T>, k: int, reply: Reply) -> bool {
    &&& 0 <= k < a.readers.len()
    &&& a.readers[k].accepts(reply, a.len())
    &&& b.readers == a.readers.update(k, a.readers[k].resumed(reply, a.len()))
    &&& b.writers == a.writers
    &&& b.outgoing == a.outgoing
    &&& b.log == a.log
    &&& a.readers[k].requested(a.len()) matches Some(access) && if access is CloneMessage {
        reply is Done && b.memory == a.memory
    } else {
        may_reply(a.memory, access, reply, b.memory)
    }
}

/// Another send begins.
pub open spec fn send_begins<T>(a: World<T>, b: World<T>, message: T) -> bool {
    b == (World {
        writers: a.writers.push(Writer::Start),
        outgoing: a.outgoing.push(message),
        ..a
    })
}

/// Another receive begins, by a receiver with the given cursor, whose lap has begun.
pub open spec fn receive_begins<T>(a: World<T>, b: World<T>, cursor: ReaderData) -> bool {
    &&& cursor.lap <= lap_of(a.memory.head)
    &&& b == (World { readers: a.readers.push(Reader { cursor, phase: Phase::Start }), ..a })
}

/// One step of one of those at work.
pub open spec fn step<T>(a: World<T>, b: World<T>) -> bool {
    ||| exists|k: int, reply: Reply| writer_step(a, b, k, reply)
    ||| exists|k: int, reply: Reply| reader_step(a, b, k, reply)
    ||| exists|message: T| send_begins(a, b, message)
    ||| exists|cursor: ReaderData| receive_begins(a, b, cursor)
}

/// A fresh channel with nobody at work.
pub open spec fn fresh<T>(w: World<T>) -> bool {
    &&& 0 < w.len() <= MAX_LEN
    &&& w.memory.head == 0
    &&& forall|i: int| 0 <= i < w.len() ==> #[trigger] w.memory.nodes[i] == empty_node::<T>()
    &&& w.writers.len() == 0
    &&& w.outgoing.len() == 0
    &&& w.readers.len() == 0
    &&& w.log.len() == 0
}

/// A sequence of worlds that starts with a fresh channel, each world one step after the one
/// before it.
pub open spec fn run<T>(worlds: Seq<World<T>>) -> bool {
    &&& 0 < worlds.len()
    &&& fresh(worlds[0])
    &&& forall|i: int| 0 <= i < worlds.len() - 1 ==> step(#[trigger] worlds[i], worlds[i + 1])
}

/// Whether a writer has taken a node and not yet given it back.
pub open spec fn holding(writer: Writer) -> bool {
    writer is Advance || writer is Rollback || writer is Stamp || writer is Fill
        || writer is Publish
}

/// The index a writer is at.
pub open spec fn index_in(writer: Writer) -> int {
    match writer {
        Writer::Probe { index, .. } => index as int,
        Writer::Claim { index, .. } => index as int,
        Writer::Advance { index, .. } => index as int,
        Writer::Rollback { index, .. } => index as int,
        Writer::Stamp { index, .. } => index as int,
        Writer::Fill { index, .. } => index as int,
        Writer::Publish { index, .. } => index as int,
        _ => 0,
    }
}

/// Whether writer `k` has taken a node.
pub open spec fn holds<T>(w: World<T>, k: int, slot: int) -> bool {
    holding(w.writers[k]) && slot_of(index_in(w.writers[k]), w.len()) == slot
}

/// Whether a node holds a message if its state says so: as long as it was never written, no
/// reader is counted in its state.
pub open spec fn sound_node<T>(w: World<T>, slot: int) -> bool {
    let node = w.memory.nodes[slot];
    if node.data is None {
        node.state == STATE_EMPTY || node.state == STATE_WRITING
    } else {
        node.state as int % 4 == STATE_AVAILABLE || node.state as int % 4 == STATE_WRITING
    }
}

/// Whether a writer that has taken a node knows whether there is a message in it.
pub open spec fn sound_writer<T>(w: World<T>, k: int) -> bool {
    let node = w.memory.nodes[slot_of(index_in(w.writers[k]), w.len())];
    match w.writers[k] {
        Writer::Advance { state, .. } => (state == STATE_EMPTY) == (node.data is None),
        Writer::Rollback { state, .. } => (state == STATE_EMPTY) == (node.data is None),
        Writer::Stamp { state, .. } => (state == STATE_EMPTY) == (node.data is None),
        Writer::Fill { state, .. } => (state == STATE_EMPTY) == (node.data is None),
        Writer::Publish { .. } => node.data is Some,
        _ => true,
    }
}

/// Whether there is a message in the node of a reader that has found the node readable.
pub open spec fn sound_reader<T>(w: World<T>, k: int) -> bool {
    let reader = w.readers[k];
    reader.index() is Some && !(reader.phase is Probe) ==> w.memory.nodes[slot_of(
        reader.index()->0,
        w.len(),
    )].data is Some
}

/// What holds in every world of every run.
pub open spec fn orderly<T>(w: World<T>) -> bool {
    &&& 0 < w.len() <= MAX_LEN
    &&& index_of(w.memory.head) < w.len()
    &&& w.writers.len() == w.outgoing.len()
    &&& position(lap_of(w.memory.head), index_of(w.memory.head), w.len()) == w.log.len() as int
        % positions(w.len())
    &&& forall|k: int| 0 <= k < w.writers.len() ==> (#[trigger] w.writers[k]).valid()
    &&& forall|slot: int| 0 <= slot < w.len() ==> #[trigger] sound_node(w, slot)
    &&& forall|k: int| 0 <= k < w.writers.len() ==> #[trigger] sound_writer(w, k)
    &&& forall|k: int| 0 <= k < w.readers.len() ==> #[trigger] sound_reader(w, k)
    &&& forall|k: int, slot: int|
        0 <= k < w.writers.len() && 0 <= slot < w.len() && #[trigger] holds(w, k, slot)
            ==> w.memory.nodes[slot].state as int % 4 == STATE_WRITING
    &&& forall|j: int, k: int, slot: int|
        0 <= j < w.writers.len() && 0 <= k < w.writers.len() && #[trigger] holds(w, j, slot)
            && #[trigger] holds(w, k, slot) ==> j == k
}

proof fn lemma_fresh_orderly<T>(w: World<T>)
    requires
        fresh(w),
    ensures
        orderly(w),
{
    lemma_zero();
    assert(0 * w.len() == 0) by (nonlinear_arith);
    lemma_positions(w.len());
    lemma_small_mod(0, positions(w.len()) as nat);
    assert forall|slot: int| 0 <= slot < w.len() implies #[trigger] sound_node(w, slot) by {
        assert(w.memory.nodes[slot] == empty_node::<T>());
    }
}

proof fn lemma_positions(len: int)
    requires
        0 < len,
    ensures
        0 < positions(len),
{
    lemma_radix();
    assert(0 < radix() * len) by (nonlinear_arith)
        requires
            0 < radix(),
            0 < len,
    ;
}

/// Counting a reader in or out leaves the two lowest bits of a state alone.
pub(crate) proof fn lemma_counting_keeps_low_bits(state: usize)
    ensures
        state.wrapping_add(STATE_READING) as int % 4 == state as int % 4,
        state.wrapping_sub(STATE_READING) as int % 4 == state as int % 4,
{
    let quarter = (usize::MAX + 1) / 4;
    assert(usize::MAX + 1 == 4 * quarter) by {
        lemma_radix();
    }
    let up = state.wrapping_add(STATE_READING) as int;
    let down = state.wrapping_sub(STATE_READING) as int;
    assert(up == state + 4 || up == state + 4 - 4 * quarter);
    assert(down == state - 4 || down == state - 4 + 4 * quarter);
}

proof fn lemma_writer_step_orderly<T>(a: World<T>, b: World<T>, k: int, reply: Reply)
    requires
        orderly(a),
        writer_step(a, b, k, reply),
    ensures
        orderly(b),
{
    lemma_radix();
    let len = a.len();
    let w = a.writers[k];
    let s = slot_of(index_in(w), len);
    law_pack_after_unpack(a.memory.head);
    lemma_positions(len);
    lemma_mod_bound(index_in(w), len);
    assert(holding(w) ==> holds(a, k, s));
    assert(b.len() == len);
    assert forall|j: int, slot: int|
        0 <= j < b.writers.len() && j != k && #[trigger] holds(b, j, slot) implies holds(
        a,
        j,
        slot,
    ) by {}
    match w {
        Writer::Start => {
            law_pack_after_unpack(reply->Word_0);
        },
        Writer::Rollback { head, .. } => {
            law_pack_after_unpack(head);
        },
        Writer::Advance { lap, index, .. } => {
            lemma_packed_fits(lap as int, index as int);
            if reply is Swapped {
                law_unpack_after_pack(lap as int, index as int, a.memory.head);
                lemma_packed_fits(
                    next_lap(lap as int, index as int, len),
                    next_index(index as int, len),
                );
                lemma_head_moves(a.memory.head, len, b.memory.head);
                lemma_mod_bound(index + 1, len);
                lemma_mod_one(positions(len), a.log.len() as int);
            }
        },
        _ => {},
    }
    assert(sound_writer(a, k));
    assert(sound_node(a, s));
    assert forall|slot: int| 0 <= slot < len implies #[trigger] sound_node(b, slot) by {
        assert(sound_node(a, slot));
    }
    assert forall|j: int| 0 <= j < b.writers.len() implies #[trigger] sound_writer(b, j) by {
        assert(sound_writer(a, j));
        let t = slot_of(index_in(a.writers[j]), len);
        lemma_mod_bound(index_in(a.writers[j]), len);
        if j != k {
            assert(holding(a.writers[j]) ==> holds(a, j, t));
        }
    }
    assert forall|j: int| 0 <= j < b.readers.len() implies #[trigger] sound_reader(b, j) by {
        assert(sound_reader(a, j));
        if a.readers[j].index() is Some {
            lemma_mod_bound(a.readers[j].index()->0, len);
        }
    }
}

/// Taking a remainder before adding one changes nothing.
pub(crate) proof fn lemma_mod_one(m: int, n: int)
    requires
        0 < m,
    ensures
        (n % m + 1) % m == (n + 1) % m,
{
    vstd::arithmetic::div_mod::lemma_add_mod_noop_right(1, n, m);
}

proof fn lemma_reader_step_orderly<T>(a: World<T>, b: World<T>, k: int, reply: Reply)
    requires
        orderly(a),
        reader_step(a, b, k, reply),
    ensures
        orderly(b),
        b.memory.head == a.memory.head,
{
    assert forall|j: int, slot: int| #[trigger] holds(b, j, slot) implies holds(a, j, slot) by {}
    let len = a.len();
    let r = a.readers[k];
    assert(sound_reader(a, k));
    if r.index() is Some {
        lemma_mod_bound(r.index()->0, len);
        assert(sound_node(a, slot_of(r.index()->0, len)));
    }
    assert(b.len() == len);
    assert forall|slot: int| 0 <= slot < len implies (
    #[trigger] b.memory.nodes[slot]).state as int % 4 == a.memory.nodes[slot].state as int % 4 by {
        lemma_counting_keeps_low_bits(a.memory.nodes[slot].state);
    }
    assert forall|slot: int| 0 <= slot < len implies #[trigger] sound_node(b, slot) by {
        assert(sound_node(a, slot));
        assert(b.memory.nodes[slot].state as int % 4 == a.memory.nodes[slot].state as int % 4);
    }
    assert forall|j: int| 0 <= j < b.writers.len() implies #[trigger] sound_writer(b, j) by {
        assert(sound_writer(a, j));
        lemma_mod_bound(index_in(a.writers[j]), len);
    }
    assert forall|j: int| 0 <= j < b.readers.len() implies #[trigger] sound_reader(b, j) by {
        assert(sound_reader(a, j));
        if a.readers[j].index() is Some {
            lemma_mod_bound(a.readers[j].index()->0, len);
        }
    }
}

/// Whatever the interleaving, at every moment each node is held by at most one writer, and no
/// state is ever anything but empty, available, writing or one of these with readers counted
/// on top.
pub proof fn law_one_writer_per_node<T>(worlds: Seq<World<T>>, n: int)
    requires
        run(worlds),
        0 <= n < worlds.len(),
    ensures
        orderly(worlds[n]),
        forall|j: int, k: int, slot: int|
            0 <= j < worlds[n].writers.len() && 0 <= k < worlds[n].writers.len()
                && #[trigger] holds(worlds[n], j, slot) && #[trigger] holds(worlds[n], k, slot)
                ==> j == k,
        forall|slot: int|
            0 <= slot < worlds[n].len() ==> (
            #[trigger] worlds[n].memory.nodes[slot]).state as int % 4 != 3,
    decreases n,
{
    if n == 0 {
        lemma_fresh_orderly(worlds[0]);
    } else {
        law_one_writer_per_node(worlds, n - 1);
        let a = worlds[n - 1];
        let b = worlds[n];
        assert(step(worlds[n - 1], worlds[n - 1 + 1]));
        if exists|k: int, reply: Reply| writer_step(a, b, k, reply) {
            let (k, reply) = choose|k: int, reply: Reply| writer_step(a, b, k, reply);
            lemma_writer_step_orderly(a, b, k, reply);
        } else if exists|k: int, reply: Reply| reader_step(a, b, k, reply) {
            let (k, reply) = choose|k: int, reply: Reply| reader_step(a, b, k, reply);
            lemma_reader_step_orderly(a, b, k, reply);
        } else {
            lemma_begin_orderly(a, b);
        }
    }
    assert forall|slot: int| 0 <= slot < worlds[n].len() implies (
    #[trigger] worlds[n].memory.nodes[slot]).state as int % 4 != 3 by {
        assert(sound_node(worlds[n], slot));
    }
}

proof fn lemma_begin_orderly<T>(a: World<T>, b: World<T>)
    requires
        orderly(a),
        (exists|message: T| send_begins(a, b, message)) || (exists|cursor: ReaderData|
            receive_begins(a, b, cursor)),
    ensures
        orderly(b),
{
    assert forall|j: int, slot: int|
        0 <= j < b.writers.len() && #[trigger] holds(b, j, slot) implies j < a.writers.len()
        && holds(a, j, slot) by {}
    assert(b.len() == a.len());
    assert forall|slot: int| 0 <= slot < b.len() implies #[trigger] sound_node(b, slot) by {
        assert(sound_node(a, slot));
    }
    assert forall|j: int| 0 <= j < b.writers.len() implies #[trigger] sound_writer(b, j) by {
        if j < a.writers.len() {
            assert(sound_writer(a, j));
        }
    }
    assert forall|j: int| 0 <= j < b.readers.len() implies #[trigger] sound_reader(b, j) by {
        if j < a.readers.len() {
            assert(sound_reader(a, j));
        }
    }
}

/// Whatever the interleaving, a reader only ever clones from a node that holds a message, and a
/// writer is told to drop what its message replaces exactly if there is something to drop.
pub proof fn law_no_message_is_missing<T>(worlds: Seq<World<T>>, n: int)
    requires
        run(worlds),
        0 <= n < worlds.len(),
    ensures
        forall|k: int|
            #![trigger worlds[n].readers[k]]
            0 <= k < worlds[n].readers.len() ==> (worlds[n].readers[k].requested(
                worlds[n].len(),
            ) matches Some(Access::CloneMessage { slot }) ==> worlds[n].memory.nodes[slot as int].data
                is Some),
        forall|k: int|
            #![trigger worlds[n].writers[k]]
            0 <= k < worlds[n].writers.len() ==> (worlds[n].writers[k].requested(
                worlds[n].len(),
            ) matches Some(Access::PutMessage { slot, replaces }) ==> replaces == (
            worlds[n].memory.nodes[slot as int].data is Some)),
{
    law_one_writer_per_node(worlds, n);
    let w = worlds[n];
    lemma_radix();
    assert forall|k: int| #![trigger w.readers[k]] 0 <= k < w.readers.len() implies (
    w.readers[k].requested(w.len()) matches Some(Access::CloneMessage { slot })
        ==> w.memory.nodes[slot as int].data is Some) by {
        assert(sound_reader(w, k));
        if w.readers[k].index() is Some {
            lemma_mod_bound(w.readers[k].index()->0, w.len());
        }
    }
    assert forall|k: int| #![trigger w.writers[k]] 0 <= k < w.writers.len() implies (
    w.writers[k].requested(w.len()) matches Some(Access::PutMessage { slot, replaces })
        ==> replaces == (w.memory.nodes[slot as int].data is Some)) by {
        assert(sound_writer(w, k));
        lemma_mod_bound(index_in(w.writers[k]), w.len());
    }
}

/// The head moves one position at a time, and each time by a writer that holds the node at
/// that position. The messages of these writers, in the order in which they moved the head,
/// thus get consecutive positions, and no two of them the same one.
pub proof fn law_positions_are_handed_out_one_by_one<T>(worlds: Seq<World<T>>, n: int)
    requires
        run(worlds),
        0 <= n < worlds.len() - 1,
    ensures
        ({
            let a = worlds[n];
            let b = worlds[n + 1];
            let head = a.memory.head;
            &&& position(lap_of(head), index_of(head), a.len()) == a.log.len() as int % positions(
                a.len(),
            )
            &&& b.memory.head == head && b.log == a.log || exists|k: int|
                0 <= k < a.writers.len() && b.memory.head == moved_head(head, a.len())
                    && #[trigger] holds(a, k, index_of(head)) && b.log == a.log.push(a.outgoing[k])
        }),
{
    law_one_writer_per_node(worlds, n);
    let a = worlds[n];
    let b = worlds[n + 1];
    assert(step(worlds[n], worlds[n + 1]));
    if exists|k: int, reply: Reply| writer_step(a, b, k, reply) {
        let (k, reply) = choose|k: int, reply: Reply| writer_step(a, b, k, reply);
        law_pack_after_unpack(a.memory.head);
        if a.writers[k] is Advance && reply is Swapped {
            let lap = a.writers[k]->Advance_lap as int;
            let index = a.writers[k]->Advance_index as int;
            lemma_radix();
            lemma_packed_fits(lap, index);
            law_unpack_after_pack(lap, index, a.memory.head);
            lemma_small_mod(index as nat, a.len() as nat);
            assert(holds(a, k, index_of(a.memory.head)));
        }
    } else if exists|k: int, reply: Reply| reader_step(a, b, k, reply) {
        let (k, reply) = choose|k: int, reply: Reply| reader_step(a, b, k, reply);
        lemma_reader_step_orderly(a, b, k, reply);
    }
}

/// Whether a writer has moved the head, and so has a position for its message.
pub open spec fn has_position(writer: Writer) -> bool {
    writer is Stamp || writer is Fill || writer is Publish || writer is Finished
}

/// The messages of the writers that have a position, each as often as it was sent.
pub open spec fn placed_messages<T>(writers: Seq<Writer>, outgoing: Seq<T>) -> Multiset<T>
    decreases writers.len(),
{
    if writers.len() == 0 {
        Multiset::empty()
    } else {
        let rest = placed_messages(writers.drop_last(), outgoing.drop_last());
        if has_position(writers.last()) {
            rest.insert(outgoing.last())
        } else {
            rest
        }
    }
}

proof fn lemma_placed_update<T>(writers: Seq<Writer>, outgoing: Seq<T>, k: int, writer: Writer)
    requires
        0 <= k < writers.len(),
        writers.len() == outgoing.len(),
        has_position(writers[k]) ==> has_position(writer),
    ensures
        placed_messages(writers.update(k, writer), outgoing) == if has_position(writer)
            && !has_position(writers[k]) {
            placed_messages(writers, outgoing).insert(outgoing[k])
        } else {
            placed_messages(writers, outgoing)
        },
    decreases writers.len(),
{
    let changed = writers.update(k, writer);
    if k == writers.len() - 1 {
        assert(changed.drop_last() =~= writers.drop_last());
    } else {
        assert(changed.drop_last() =~= writers.drop_last().update(k, writer));
        lemma_placed_update(writers.drop_last(), outgoing.drop_last(), k, writer);
        let rest = placed_messages(writers.drop_last(), outgoing.drop_last());
        assert(rest.insert(outgoing[k]).insert(outgoing.last()) =~= rest.insert(
            outgoing.last(),
        ).insert(outgoing[k]));
    }
}

/// Whatever the interleaving, each send that has moved the head has got exactly one position, and
/// nobody else has one: the messages that have positions are those of these sends, each as often
/// as it was sent. So no message is lost on its way to a position or put at two.
pub proof fn law_every_send_gets_one_position<T>(worlds: Seq<World<T>>, n: int)
    requires
        run(worlds),
        0 <= n < worlds.len(),
    ensures
        worlds[n].log.to_multiset() == placed_messages(worlds[n].writers, worlds[n].outgoing),
    decreases n,
{
    let b = worlds[n];
    if n == 0 {
        b.log.to_multiset_ensures();
        assert(b.log.to_multiset() =~= Multiset::empty());
    } else {
        let a = worlds[n - 1];
        law_every_send_gets_one_position(worlds, n - 1);
        law_one_writer_per_node(worlds, n - 1);
        assert(step(worlds[n - 1], worlds[n - 1 + 1]));
        if exists|k: int, reply: Reply| writer_step(a, b, k, reply) {
            let (k, reply) = choose|k: int, reply: Reply| writer_step(a, b, k, reply);
            lemma_placed_update(a.writers, a.outgoing, k, a.writers[k].resumed(reply));
            a.log.to_multiset_ensures();
        } else if exists|k: int, reply: Reply| reader_step(a, b, k, reply) {
        } else if exists|message: T| send_begins(a, b, message) {
            assert(b.writers.drop_last() =~= a.writers);
            assert(b.outgoing.drop_last() =~= a.outgoing);
        }
    }
}

/// Whether a reader that began at a given cursor has not fallen behind it: unless it has stepped
/// past the end of the buffer, it looks for a message at or after the cursor; and when it has a
/// message, it is past the cursor.
pub open spec fn not_behind(reader: Reader, origin: ReaderData, len: int) -> bool {
    let cursor = reader.cursor;
    match reader.phase {
        Phase::Leave { .. } => cursor.index < len && origin.position(len) < cursor.position(len),
        Phase::Delivered => cursor.index < len && origin.position(len) < cursor.position(len),
        _ => {
            &&& cursor.index == origin.index
            &&& origin.lap <= cursor.lap
            &&& reader.index() matches Some(index) ==> {
                &&& cursor.lap < radix()
                &&& index < len ==> origin.position(len) <= position(
                    cursor.lap as int,
                    index,
                    len,
                )
            }
        },
    }
}

/// Whether reader `k` is about to clone a message from a node that it has come to by stepping
/// over taken nodes and past the end of the buffer.
pub open spec fn copies_past_end<T>(w: World<T>, k: int) -> bool {
    w.readers[k].phase matches Phase::Copy { index } && index >= w.len()
}

proof fn lemma_reader_step_forward<T>(
    a: World<T>,
    b: World<T>,
    k: int,
    reply: Reply,
    origin: ReaderData,
)
    requires
        orderly(a),
        reader_step(a, b, k, reply),
        !copies_past_end(a, k),
        origin.index < a.len(),
        not_behind(a.readers[k], origin, a.len()),
    ensures
        not_behind(b.readers[k], origin, a.len()),
{
    let len = a.len();
    let reader = a.readers[k];
    let cursor = reader.cursor;
    lemma_radix();
    law_pack_after_unpack(a.memory.head);
    if reader.phase is Start {
        lemma_small_mod(index_of(a.memory.head) as nat, len as nat);
        lemma_position_order(
            cursor.lap as int,
            cursor.index as int,
            lap_of(a.memory.head) - 1,
            index_of(a.memory.head),
            len,
        );
        lemma_position_order(
            origin.lap as int,
            origin.index as int,
            cursor.lap as int,
            cursor.index as int,
            len,
        );
    }
    if reader.phase is Copy {
        lemma_position_next(cursor.lap as int, reader.phase->Copy_index as int, len);
    }
}

proof fn lemma_step_forward<T>(a: World<T>, b: World<T>, k: int, origin: ReaderData)
    requires
        orderly(a),
        step(a, b),
        0 <= k < a.readers.len(),
        !copies_past_end(a, k),
        origin.index < a.len(),
        not_behind(a.readers[k], origin, a.len()),
    ensures
        b.len() == a.len(),
        k < b.readers.len(),
        not_behind(b.readers[k], origin, a.len()),
{
    if exists|j: int, reply: Reply| writer_step(a, b, j, reply) {
    } else if exists|j: int, reply: Reply| reader_step(a, b, j, reply) {
        let (j, reply) = choose|j: int, reply: Reply| reader_step(a, b, j, reply);
        if j == k {
            lemma_reader_step_forward(a, b, k, reply, origin);
        }
    }
}

/// Whatever the interleaving, a receive leaves the receiver further on than it was, so no message
/// is handed to a receiver twice. The one exception is a receive that gets its message from a
/// node that it has come to past the end of the buffer.
pub proof fn law_receivers_move_forward<T>(worlds: Seq<World<T>>, m: int, n: int, k: int)
    requires
        run(worlds),
        0 <= m <= n < worlds.len(),
        0 <= k < worlds[m].readers.len(),
        worlds[m].readers[k].phase is Start,
        worlds[m].readers[k].cursor.fits(worlds[m].len()),
        forall|i: int| m <= i < n ==> !copies_past_end(#[trigger] worlds[i], k),
    ensures
        worlds[n].len() == worlds[m].len(),
        k < worlds[n].readers.len(),
        not_behind(worlds[n].readers[k], worlds[m].readers[k].cursor, worlds[m].len()),
        worlds[n].readers[k].phase is Delivered ==> worlds[m].readers[k].cursor.position(
            worlds[m].len(),
        ) < worlds[n].readers[k].cursor.position(worlds[m].len()),
    decreases n - m,
{
    assert(0 < worlds[m].len()) by {
        law_one_writer_per_node(worlds, m);
    }
    if m < n {
        law_receivers_move_forward(worlds, m, n - 1, k);
        law_one_writer_per_node(worlds, n - 1);
        assert(step(worlds[n - 1], worlds[n - 1 + 1]));
        assert(!copies_past_end(worlds[n - 1], k));
        lemma_step_forward(worlds[n - 1], worlds[n], k, worlds[m].readers[k].cursor);
    }
}

} // verus!
