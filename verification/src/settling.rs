//! What many sends at once leave behind.
//!
//! Sends that overlap take effect one after the other, in the order in which they moved the
//! head: once nobody holds a node or is registered on one, the memory is that of a channel at
//! rest to which the messages were sent in this order. Until then, where a message was sent a
//! reader finds one, or a writer at work.

use vstd::arithmetic::div_mod::{lemma_mod_bound, lemma_small_mod};
use vstd::prelude::*;

use crate::backlog::{
    at_rest, filled, lemma_position_order, position, push_all, ring, settled, vacant, Backlog,
};
use crate::calm::{
    calm, count, lemma_calm_run_tidy, lemma_counts, lemma_head_position, registered, tidy,
    tidy_node, tidy_reader, tidy_writer, withdrawing, within_limits,
};
use crate::laws::law_keeps_latest;
use crate::memory::{empty_node, Reply};
use crate::protocol::{
    holding, holds, index_in, lemma_counting_keeps_low_bits, orderly, reader_step,
    receive_begins, run, send_begins, sound_node, step, writer_step, World,
};
use crate::reader::{Reader, ReaderData};
use crate::word::{
    index_of, lap_of, law_pack_after_unpack, law_unpack_after_pack, lemma_packed_fits,
    lemma_radix, readable, STATE_EMPTY, STATE_WRITING,
};
use crate::writer::{slot_of, Writer};

verus! {

/// Whether writer `k` has a position of its own at a node and has not finished writing there.
pub open spec fn writes_at<T>(w: World<T>, k: int, slot: int) -> bool {
    match w.writers[k] {
        Writer::Stamp { index, .. } => index == slot,
        Writer::Fill { index, .. } => index == slot,
        Writer::Publish { index, .. } => index == slot,
        _ => false,
    }
}

/// Whether no later position at the same node has been handed out.
pub open spec fn latest<T>(w: World<T>, lap: usize, slot: int) -> bool {
    w.log.len() <= position(lap as int, slot, w.len()) + w.len()
}

/// Whether a node that has been taken is held by somebody, and the last message sent at a node
/// is there or is being written there.
pub open spec fn settling_node<T>(w: World<T>, slot: int) -> bool {
    let node = w.memory.nodes[slot];
    &&& node.state as int % 4 == STATE_WRITING ==> exists|k: int|
        0 <= k < w.writers.len() && #[trigger] holds(w, k, slot)
    &&& slot >= w.log.len() ==> node.data is None && node.lap == 0
    &&& slot < w.log.len() ==> {
        ||| node.data is Some && latest(w, node.lap, slot)
        ||| exists|k: int| 0 <= k < w.writers.len() && #[trigger] writes_at(w, k, slot)
    }
}

/// Whether a writer with a position of its own has the last one handed out at its node.
pub open spec fn settling_writer<T>(w: World<T>, k: int) -> bool {
    match w.writers[k] {
        Writer::Stamp { lap, index, .. } => latest(w, lap, index as int),
        Writer::Fill { lap, index, .. } => latest(w, lap, index as int),
        Writer::Publish { lap, index } => latest(w, lap, index as int),
        _ => true,
    }
}

/// What holds, on top of tidiness, in every world of every calm run.
pub open spec fn settling<T>(w: World<T>) -> bool {
    &&& forall|slot: int| 0 <= slot < w.len() ==> #[trigger] settling_node(w, slot)
    &&& forall|k: int| 0 <= k < w.writers.len() ==> #[trigger] settling_writer(w, k)
}

/// Handing out a position leaves the last positions at other nodes the last ones there.
proof fn lemma_latest_elsewhere(lap: int, slot: int, next_lap: int, next_slot: int, len: int)
    requires
        0 <= slot < len,
        0 <= next_slot < len,
        slot != next_slot,
        position(next_lap, next_slot, len) <= position(lap, slot, len) + len,
    ensures
        position(next_lap, next_slot, len) + 1 <= position(lap, slot, len) + len,
{
    assert((lap + 1) * len == lap * len + len) by (nonlinear_arith);
    lemma_position_order(lap + 1, slot, next_lap, next_slot, len);
}

proof fn lemma_writer_step_settling<T>(a: World<T>, b: World<T>, k: int, reply: Reply)
    requires
        orderly(a),
        orderly(b),
        tidy(a),
        tidy(b),
        within_limits(a),
        within_limits(b),
        settling(a),
        writer_step(a, b, k, reply),
    ensures
        settling(b),
{
    let len = a.len();
    let w = a.writers[k];
    let s = slot_of(index_in(w), len);
    lemma_radix();
    law_pack_after_unpack(a.memory.head);
    lemma_head_position(a);
    lemma_mod_bound(index_in(w), len);
    assert(b.len() == len);
    assert(tidy_writer(a, k));
    assert(settling_writer(a, k));
    assert(holding(w) ==> holds(a, k, s));
    if index_in(w) < len {
        lemma_small_mod(index_in(w) as nat, len as nat);
    }
    if w is Fill {
        let lap = w->Fill_lap as int;
        assert(0 <= lap * len) by (nonlinear_arith)
            requires
                0 <= lap,
                0 < len,
        ;
    }
    let takes = w is Advance && reply is Swapped;
    if takes {
        let lap = w->Advance_lap as int;
        let index = w->Advance_index as int;
        lemma_packed_fits(lap, index);
        law_unpack_after_pack(lap, index, a.memory.head);
        lemma_small_mod(index as nat, len as nat);
        assert(writes_at(b, k, s));
    }
    assert forall|j: int| 0 <= j < b.writers.len() implies #[trigger] settling_writer(b, j) by {
        assert(settling_writer(a, j));
        assert(tidy_writer(a, j));
        let v = a.writers[j];
        if j != k && takes && (v is Stamp || v is Fill || v is Publish) {
            let t = index_in(v);
            lemma_small_mod(t as nat, len as nat);
            assert(holds(a, j, t));
            assert(t != s);
            lemma_latest_elsewhere(
                match v {
                    Writer::Stamp { lap, .. } => lap as int,
                    Writer::Fill { lap, .. } => lap as int,
                    Writer::Publish { lap, .. } => lap as int,
                    _ => 0,
                },
                t,
                lap_of(a.memory.head),
                index_of(a.memory.head),
                len,
            );
        }
    }
    assert forall|slot: int| 0 <= slot < len implies #[trigger] settling_node(b, slot) by {
        assert(settling_node(a, slot));
        let node = a.memory.nodes[slot];
        if takes && slot == a.log.len() {
            assert(0 * len == 0) by (nonlinear_arith);
            lemma_position_order(
                0,
                slot,
                lap_of(a.memory.head),
                index_of(a.memory.head),
                len,
            );
        }
        if node.state as int % 4 == STATE_WRITING {
            let j = choose|j: int| 0 <= j < a.writers.len() && #[trigger] holds(a, j, slot);
            assert(j != k ==> holds(b, j, slot));
            assert(holding(b.writers[k]) && j == k ==> holds(b, k, slot));
        }
        if w is Claim && reply is Swapped && slot == s {
            assert(holds(b, k, slot));
        }
        if exists|j: int| 0 <= j < a.writers.len() && #[trigger] writes_at(a, j, slot) {
            let j = choose|j: int| 0 <= j < a.writers.len() && #[trigger] writes_at(a, j, slot);
            assert(tidy_writer(a, j));
            assert(j != k ==> writes_at(b, j, slot));
            assert(j == k && !(w is Publish) ==> writes_at(b, k, slot));
        } else if takes && slot != s && slot < a.log.len() {
            lemma_latest_elsewhere(
                node.lap as int,
                slot,
                lap_of(a.memory.head),
                index_of(a.memory.head),
                len,
            );
        }
    }
}

proof fn lemma_reader_step_settling<T>(a: World<T>, b: World<T>, k: int, reply: Reply)
    requires
        orderly(a),
        settling(a),
        reader_step(a, b, k, reply),
    ensures
        settling(b),
{
    let len = a.len();
    let r = a.readers[k];
    if r.index() is Some {
        lemma_mod_bound(r.index()->0, len);
    }
    assert(b.len() == len);
    assert forall|slot: int| 0 <= slot < len implies #[trigger] settling_node(b, slot) by {
        assert(settling_node(a, slot));
        lemma_counting_keeps_low_bits(a.memory.nodes[slot].state);
        if a.memory.nodes[slot].state as int % 4 == STATE_WRITING {
            let j = choose|j: int| 0 <= j < a.writers.len() && #[trigger] holds(a, j, slot);
            assert(holds(b, j, slot));
        }
        if exists|j: int| 0 <= j < a.writers.len() && #[trigger] writes_at(a, j, slot) {
            let j = choose|j: int| 0 <= j < a.writers.len() && #[trigger] writes_at(a, j, slot);
            assert(writes_at(b, j, slot));
        }
    }
    assert forall|j: int| 0 <= j < b.writers.len() implies #[trigger] settling_writer(b, j) by {
        assert(settling_writer(a, j));
    }
}

proof fn lemma_begin_settling<T>(a: World<T>, b: World<T>)
    requires
        orderly(a),
        settling(a),
        (exists|message: T| send_begins(a, b, message)) || (exists|cursor: ReaderData|
            receive_begins(a, b, cursor)),
    ensures
        settling(b),
{
    assert(b.len() == a.len());
    assert forall|slot: int| 0 <= slot < b.len() implies #[trigger] settling_node(b, slot) by {
        assert(settling_node(a, slot));
        if a.memory.nodes[slot].state as int % 4 == STATE_WRITING {
            let j = choose|j: int| 0 <= j < a.writers.len() && #[trigger] holds(a, j, slot);
            assert(holds(b, j, slot));
        }
        if exists|j: int| 0 <= j < a.writers.len() && #[trigger] writes_at(a, j, slot) {
            let j = choose|j: int| 0 <= j < a.writers.len() && #[trigger] writes_at(a, j, slot);
            assert(writes_at(b, j, slot));
        }
    }
    assert forall|j: int| 0 <= j < b.writers.len() implies #[trigger] settling_writer(b, j) by {
        if j < a.writers.len() {
            assert(settling_writer(a, j));
        }
    }
}

proof fn lemma_calm_run_settling<T>(worlds: Seq<World<T>>, n: int)
    requires
        run(worlds),
        0 <= n < worlds.len(),
        calm(worlds, n),
    ensures
        settling(worlds[n]),
    decreases n,
{
    let b = worlds[n];
    if n == 0 {
        assert forall|slot: int| 0 <= slot < b.len() implies #[trigger] settling_node(b, slot) by {
            assert(b.memory.nodes[slot] == empty_node::<T>());
        }
    } else {
        let a = worlds[n - 1];
        lemma_calm_run_settling(worlds, n - 1);
        lemma_calm_run_tidy(worlds, n - 1);
        lemma_calm_run_tidy(worlds, n);
        assert(step(worlds[n - 1], worlds[n - 1 + 1]));
        assert(within_limits(worlds[n - 1]) && within_limits(worlds[n]));
        if exists|k: int, reply: Reply| writer_step(a, b, k, reply) {
            let (k, reply) = choose|k: int, reply: Reply| writer_step(a, b, k, reply);
            lemma_writer_step_settling(a, b, k, reply);
        } else if exists|k: int, reply: Reply| reader_step(a, b, k, reply) {
            let (k, reply) = choose|k: int, reply: Reply| reader_step(a, b, k, reply);
            lemma_reader_step_settling(a, b, k, reply);
        } else {
            lemma_begin_settling(a, b);
        }
    }
}

/// In a calm run, a node is in the empty state only as long as no message was sent at it.
pub proof fn law_empty_nodes_await_their_first_message<T>(worlds: Seq<World<T>>, n: int, slot: int)
    requires
        run(worlds),
        0 <= n < worlds.len(),
        calm(worlds, n),
        0 <= slot < worlds[n].len(),
        worlds[n].memory.nodes[slot].state == STATE_EMPTY,
    ensures
        worlds[n].log.len() <= slot,
{
    let w = worlds[n];
    lemma_calm_run_tidy(worlds, n);
    lemma_calm_run_settling(worlds, n);
    assert(settling_node(w, slot));
    assert(sound_node(w, slot));
    if slot < w.log.len() {
        let k = choose|k: int| 0 <= k < w.writers.len() && #[trigger] writes_at(w, k, slot);
        lemma_small_mod(slot as nat, w.len() as nat);
        assert(holds(w, k, slot));
    }
}

/// In a calm run, a reader that looks at a node at which a message was sent finds that it can
/// register on the node, or that a writer has taken it. It does not end without a message there.
pub proof fn law_reader_finds_what_was_sent<T>(worlds: Seq<World<T>>, n: int, k: int)
    requires
        run(worlds),
        0 <= n < worlds.len(),
        calm(worlds, n),
        0 <= k < worlds[n].readers.len(),
        worlds[n].readers[k].phase is Probe,
        slot_of(worlds[n].readers[k].phase->Probe_index as int, worlds[n].len())
            < worlds[n].log.len(),
    ensures
        ({
            let w = worlds[n];
            let reader = w.readers[k];
            let index = reader.phase->Probe_index;
            let state = w.memory.nodes[slot_of(index as int, w.len())].state;
            &&& readable(state) || state == STATE_WRITING
            &&& index + 1 < usize::MAX ==> reader.accepts(Reply::Word(state), w.len())
            &&& !(reader.resumed(Reply::Word(state), w.len()).phase is Empty)
        }),
{
    let w = worlds[n];
    let slot = slot_of(w.readers[k].phase->Probe_index as int, w.len());
    lemma_calm_run_tidy(worlds, n);
    lemma_mod_bound(w.readers[k].phase->Probe_index as int, w.len());
    assert(tidy_node(w, slot));
    lemma_counts(w, slot);
    if w.memory.nodes[slot].state == STATE_EMPTY {
        law_empty_nodes_await_their_first_message(worlds, n, slot);
    }
}

/// In a calm run, a reader that ends without a message after it has looked at a node has come to
/// a node at which no message was sent. That happens in the first lap only, and the receiver
/// stays where it was.
pub proof fn law_reader_gives_up_beyond_what_was_sent<T>(worlds: Seq<World<T>>, n: int, k: int)
    requires
        run(worlds),
        0 <= n < worlds.len() - 1,
        calm(worlds, n),
        0 <= k < worlds[n].readers.len(),
        worlds[n].readers[k].phase is Probe,
        worlds[n + 1].readers[k].phase is Empty,
    ensures
        ({
            let w = worlds[n];
            let reader = w.readers[k];
            &&& w.log.len() <= slot_of(reader.phase->Probe_index as int, w.len())
            &&& lap_of(w.memory.head) == 0
            &&& reader.cursor.lap == 0
            &&& worlds[n + 1].readers[k].cursor == reader.cursor
        }),
{
    let a = worlds[n];
    let b = worlds[n + 1];
    let slot = slot_of(a.readers[k].phase->Probe_index as int, a.len());
    lemma_calm_run_tidy(worlds, n);
    lemma_radix();
    assert(step(worlds[n], worlds[n + 1]));
    assert(within_limits(worlds[n]));
    lemma_mod_bound(a.readers[k].phase->Probe_index as int, a.len());
    if exists|j: int, reply: Reply| writer_step(a, b, j, reply) {
        assert(false);
    } else if exists|j: int, reply: Reply| reader_step(a, b, j, reply) {
        let (j, reply) = choose|j: int, reply: Reply| reader_step(a, b, j, reply);
        assert(j == k);
        assert(a.memory.nodes[slot].state == STATE_EMPTY);
        law_empty_nodes_await_their_first_message(worlds, n, slot);
        // The head is still among the nodes of the first lap.
        lemma_head_position(a);
        law_pack_after_unpack(a.memory.head);
        assert(0 * a.len() == 0) by (nonlinear_arith);
        lemma_position_order(0, slot, lap_of(a.memory.head), index_of(a.memory.head), a.len());
        assert(tidy_reader(a, k));
    }
}

/// Whether no writer holds a node and no reader is counted on one.
pub open spec fn nodes_free<T>(w: World<T>) -> bool {
    &&& forall|k: int| 0 <= k < w.writers.len() ==> !holding(#[trigger] w.writers[k])
    &&& forall|k: int, slot: int|
        0 <= k < w.readers.len() ==> !(#[trigger] registered(w.readers[k], slot, w.len()))
    &&& forall|k: int, slot: int|
        0 <= k < w.readers.len() ==> !(#[trigger] withdrawing(w.readers[k], slot, w.len()))
}

proof fn lemma_count_none(readers: Seq<Reader>, property: spec_fn(Reader) -> bool)
    requires
        forall|k: int| 0 <= k < readers.len() ==> !property(#[trigger] readers[k]),
    ensures
        count(readers, property) == 0,
    decreases readers.len(),
{
    if readers.len() > 0 {
        assert forall|k: int| 0 <= k < readers.len() - 1 implies !property(
            #[trigger] readers.drop_last()[k],
        ) by {
            assert(!property(readers[k]));
        }
        lemma_count_none(readers.drop_last(), property);
    }
}

/// A free node holds the last message sent at it, or nothing if none was sent there.
proof fn lemma_free_node<T>(w: World<T>, slot: int)
    requires
        orderly(w),
        tidy(w),
        within_limits(w),
        settling(w),
        nodes_free(w),
        0 <= slot < w.len(),
    ensures
        ({
            let node = w.memory.nodes[slot];
            let lap = lap_of(w.memory.head);
            let index = index_of(w.memory.head);
            let last = if slot < index {
                lap
            } else {
                lap - 1
            };
            let at = position(last, slot, w.len());
            if slot < index || 0 < lap {
                settled(node, last) && 0 <= at < w.log.len() && node.data == Some(w.log[at])
            } else {
                vacant(node)
            }
        }),
{
    let len = w.len();
    let node = w.memory.nodes[slot];
    let lap = lap_of(w.memory.head);
    let index = index_of(w.memory.head);
    lemma_radix();
    law_pack_after_unpack(w.memory.head);
    lemma_head_position(w);
    assert(settling_node(w, slot));
    assert(tidy_node(w, slot));
    assert(sound_node(w, slot));
    lemma_count_none(w.readers, |reader: Reader| registered(reader, slot, len));
    lemma_count_none(w.readers, |reader: Reader| withdrawing(reader, slot, len));
    assert forall|k: int| 0 <= k < w.writers.len() implies !(#[trigger] holds(w, k, slot)) && !(
    #[trigger] writes_at(w, k, slot)) by {
        assert(!holding(w.writers[k]));
    }
    assert(0 * len == 0) by (nonlinear_arith);
    // The positions at the node are those below the head with the right remainder.
    lemma_position_order(0, slot, lap, index, len);
    if slot < w.log.len() {
        lemma_position_order(node.lap as int, slot, lap, index, len);
        assert((node.lap + 1) * len == node.lap * len + len) by (nonlinear_arith);
        lemma_position_order(node.lap + 1, slot, lap, index, len);
        assert(0 <= node.lap * len) by (nonlinear_arith)
            requires
                0 <= node.lap,
                0 < len,
        ;
    }
}

/// In a calm run, whenever no writer holds a node and no reader is counted on one, the memory
/// is that of a channel at rest, and the channel holds what sending the messages one after the
/// other leaves, in the order in which their sends moved the head.
pub proof fn law_overlapping_sends_take_effect_in_order<T>(worlds: Seq<World<T>>, n: int)
    requires
        run(worlds),
        0 <= n < worlds.len(),
        calm(worlds, n),
        nodes_free(worlds[n]),
    ensures
        ({
            let w = worlds[n];
            let memory = w.memory;
            &&& at_rest(memory.nodes, memory.head)
            &&& ring(memory.nodes, memory.head) == push_all(Backlog::empty(w.len()), w.log)
        }),
{
    let w = worlds[n];
    let len = w.len();
    let nodes = w.memory.nodes;
    let head = w.memory.head;
    let lap = lap_of(head);
    let index = index_of(head);
    lemma_calm_run_tidy(worlds, n);
    lemma_calm_run_settling(worlds, n);
    assert(within_limits(worlds[n]));
    lemma_radix();
    law_pack_after_unpack(head);
    lemma_head_position(w);
    assert forall|slot: int| 0 <= slot < len && (slot < index || 0 < lap) implies settled(
        #[trigger] nodes[slot],
        if slot < index {
            lap
        } else {
            lap - 1
        },
    ) by {
        lemma_free_node(w, slot);
    }
    assert forall|slot: int| index <= slot < len && lap == 0 implies vacant(
        #[trigger] nodes[slot],
    ) by {
        lemma_free_node(w, slot);
    }
    assert(filled(nodes, head) == (0 < lap));
    assert(at_rest(nodes, head));
    let sent = push_all(Backlog::<T>::empty(len), w.log);
    assert(Backlog::<T>::empty(len).valid());
    law_keeps_latest(Backlog::<T>::empty(len), w.log);
    assert(Seq::<T>::empty() + w.log =~= w.log);
    assert((lap - 1) * len == lap * len - len) by (nonlinear_arith);
    assert(0 * len == 0) by (nonlinear_arith);
    if 0 < lap {
        assert(len <= lap * len) by (nonlinear_arith)
            requires
                1 <= lap,
                0 < len,
        ;
    }
    let held = ring(nodes, head);
    assert(held.kept.len() == sent.kept.len());
    assert forall|j: int| 0 <= j < held.kept.len() implies held.kept[j] == sent.kept[j] by {
        let slot = if lap == 0 {
            j
        } else if j < len - index {
            index + j
        } else {
            j - (len - index)
        };
        lemma_free_node(w, slot);
    }
    assert(held.kept =~= sent.kept);
}

} // verus!
