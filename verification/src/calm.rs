//! What readers and writers can rely on when nobody is disturbed.
//!
//! A reader that registers on a node just after a writer has taken it has to withdraw. A run is
//! [`calm`] as long as no step disturbs such a withdrawal. In a calm run readers and writers
//! keep out of each other's way, readers get the messages they are after, and once everybody
//! is done the channel holds what the sends would have left one after the other.

use vstd::arithmetic::div_mod::{lemma_mod_bound, lemma_small_mod};
use vstd::prelude::*;

use crate::backlog::{lemma_lap_begun, position, positions};
use crate::memory::{empty_node, Reply};
use crate::protocol::{
    holding, holds, index_in, law_one_writer_per_node, lemma_mod_one, orderly, reader_step,
    receive_begins, run, send_begins, sound_node, sound_reader, step, writer_step, World,
};
use crate::reader::{Phase, Reader, ReaderData};
use crate::word::{
    index_of, lap_of, law_pack_after_unpack, law_unpack_after_pack, lemma_packed_fits,
    lemma_radix, STATE_AVAILABLE, STATE_EMPTY, STATE_READING, STATE_WRITING,
};
use crate::writer::{next_index, slot_of, Writer};

verus! {

/// Whether a reader has registered on a node, found it readable, and not yet left it.
pub open spec fn registered(reader: Reader, slot: int, len: int) -> bool {
    match reader.phase {
        Phase::Check { index } => slot_of(index as int, len) == slot,
        Phase::Retreat { index } => slot_of(index as int, len) == slot,
        Phase::Copy { index } => slot_of(index as int, len) == slot,
        Phase::Leave { index } => slot_of(index as int, len) == slot,
        _ => false,
    }
}

/// Whether a reader has registered on a node, found it not readable, and not yet undone that.
pub open spec fn withdrawing(reader: Reader, slot: int, len: int) -> bool {
    reader.phase matches Phase::Withdraw { index } && slot_of(index as int, len) == slot
}

/// How many readers have a property.
pub open spec fn count(readers: Seq<Reader>, property: spec_fn(Reader) -> bool) -> int
    decreases readers.len(),
{
    if readers.len() == 0 {
        0
    } else {
        count(readers.drop_last(), property) + if property(readers.last()) {
            1int
        } else {
            0
        }
    }
}

/// How many readers are registered on a node.
pub open spec fn registrations<T>(w: World<T>, slot: int) -> int {
    count(w.readers, |reader: Reader| registered(reader, slot, w.len()))
}

/// How many readers are about to withdraw from a node.
pub open spec fn withdrawals<T>(w: World<T>, slot: int) -> int {
    count(w.readers, |reader: Reader| withdrawing(reader, slot, w.len()))
}

proof fn lemma_count_bounds(readers: Seq<Reader>, property: spec_fn(Reader) -> bool)
    ensures
        0 <= count(readers, property) <= readers.len(),
        forall|k: int|
            0 <= k < readers.len() && property(#[trigger] readers[k]) ==> 0 < count(
                readers,
                property,
            ),
    decreases readers.len(),
{
    if readers.len() > 0 {
        let rest = readers.drop_last();
        lemma_count_bounds(rest, property);
        assert forall|k: int| 0 <= k < readers.len() && property(#[trigger] readers[k]) implies 0
            < count(readers, property) by {
            if k < rest.len() {
                assert(rest[k] == readers[k]);
            }
        }
    }
}

/// At most every reader is counted on a node, as registered or as about to withdraw.
pub(crate) proof fn lemma_counts<T>(w: World<T>, slot: int)
    ensures
        0 <= registrations(w, slot) <= w.readers.len(),
        0 <= withdrawals(w, slot) <= w.readers.len(),
        forall|k: int|
            0 <= k < w.readers.len() && registered(#[trigger] w.readers[k], slot, w.len()) ==> 0
                < registrations(w, slot),
        forall|k: int|
            0 <= k < w.readers.len() && withdrawing(#[trigger] w.readers[k], slot, w.len()) ==> 0
                < withdrawals(w, slot),
{
    let len = w.len();
    let is_registered = |reader: Reader| registered(reader, slot, len);
    let is_withdrawing = |reader: Reader| withdrawing(reader, slot, len);
    lemma_count_bounds(w.readers, is_registered);
    lemma_count_bounds(w.readers, is_withdrawing);
    assert forall|k: int|
        0 <= k < w.readers.len() && registered(#[trigger] w.readers[k], slot, len) implies 0
        < registrations(w, slot) by {
        assert(is_registered(w.readers[k]));
    }
    assert forall|k: int|
        0 <= k < w.readers.len() && withdrawing(#[trigger] w.readers[k], slot, len) implies 0
        < withdrawals(w, slot) by {
        assert(is_withdrawing(w.readers[k]));
    }
}

proof fn lemma_count_update(
    readers: Seq<Reader>,
    k: int,
    reader: Reader,
    property: spec_fn(Reader) -> bool,
)
    requires
        0 <= k < readers.len(),
    ensures
        count(readers.update(k, reader), property) == count(readers, property) - (if property(
            readers[k],
        ) {
            1int
        } else {
            0
        }) + (if property(reader) {
            1int
        } else {
            0
        }),
    decreases readers.len(),
{
    let changed = readers.update(k, reader);
    if k == readers.len() - 1 {
        assert(changed.drop_last() =~= readers.drop_last());
    } else {
        assert(changed.drop_last() =~= readers.drop_last().update(k, reader));
        lemma_count_update(readers.drop_last(), k, reader, property);
    }
}

/// Whether the positions have not started again from zero, and the readers can be counted in a
/// word.
pub open spec fn within_limits<T>(w: World<T>) -> bool {
    &&& w.log.len() < positions(w.len())
    &&& STATE_READING * w.readers.len() + STATE_WRITING <= usize::MAX
}

/// Whether a step disturbs a reader that is about to withdraw from a node: a writer gives the
/// node back, or another reader registers on it.
pub open spec fn disturbs<T>(a: World<T>, b: World<T>) -> bool {
    ||| exists|k: int, reply: Reply|
        #[trigger] writer_step(a, b, k, reply) && (a.writers[k] is Rollback
            || a.writers[k] is Publish) && 0 < withdrawals(
            a,
            slot_of(index_in(a.writers[k]), a.len()),
        )
    ||| exists|k: int, reply: Reply|
        #[trigger] reader_step(a, b, k, reply) && a.readers[k].phase is Register && 0
            < withdrawals(a, slot_of(a.readers[k].index()->0, a.len()))
}

/// Whether a run up to world `n` stays within the limits and disturbs no withdrawal.
pub open spec fn calm<T>(worlds: Seq<World<T>>, n: int) -> bool {
    &&& forall|i: int| 0 <= i <= n ==> within_limits(#[trigger] worlds[i])
    &&& forall|i: int| 0 <= i < n ==> !disturbs(#[trigger] worlds[i], worlds[i + 1])
}

/// Whether a node holds the message that was sent at the position which its lap and its place
/// in the buffer name.
pub open spec fn faithful_node<T>(w: World<T>, slot: int) -> bool {
    let node = w.memory.nodes[slot];
    let at = position(node.lap as int, slot, w.len());
    at < w.log.len() && node.data == Some(w.log[at])
}

/// What a node is like in a calm run.
pub open spec fn tidy_node<T>(w: World<T>, slot: int) -> bool {
    let node = w.memory.nodes[slot];
    let readers = registrations(w, slot);
    let leaving = withdrawals(w, slot);
    ||| node.state == STATE_WRITING + STATE_READING * leaving && readers == 0
    ||| node.state == STATE_EMPTY && readers == 0 && leaving == 0
    ||| node.state == STATE_AVAILABLE + STATE_READING * readers && leaving == 0 && faithful_node(
        w,
        slot,
    )
}

/// What the node of a writer is like in a calm run.
pub open spec fn tidy_writer<T>(w: World<T>, k: int) -> bool {
    let writer = w.writers[k];
    let slot = slot_of(index_in(writer), w.len());
    let node = w.memory.nodes[slot];
    match writer {
        Writer::Advance { state, .. } => state == STATE_AVAILABLE ==> faithful_node(w, slot),
        Writer::Rollback { state, .. } => state == STATE_AVAILABLE ==> faithful_node(w, slot),
        Writer::Stamp { lap, index, .. } => index < w.len() && owns_position(w, k, lap, index),
        Writer::Fill { lap, index, .. } => index < w.len() && owns_position(w, k, lap, index)
            && node.lap == lap,
        Writer::Publish { lap, index } => index < w.len() && owns_position(w, k, lap, index)
            && node.lap == lap && node.data == Some(w.outgoing[k]),
        _ => true,
    }
}

/// Whether the message of writer `k` is the one sent at a position.
pub open spec fn owns_position<T>(w: World<T>, k: int, lap: usize, index: usize) -> bool {
    let at = position(lap as int, index as int, w.len());
    0 <= at < w.log.len() && w.log[at] == w.outgoing[k]
}

/// What a reader and its node are like in a calm run.
pub open spec fn tidy_reader<T>(w: World<T>, k: int) -> bool {
    let reader = w.readers[k];
    let node = w.memory.nodes[slot_of(reader.index()->0, w.len())];
    &&& reader.cursor.lap <= lap_of(w.memory.head)
    &&& reader.phase is Copy ==> node.lap == reader.cursor.lap
}

/// What holds in every world of every calm run.
pub open spec fn tidy<T>(w: World<T>) -> bool {
    &&& forall|slot: int| 0 <= slot < w.len() ==> #[trigger] tidy_node(w, slot)
    &&& forall|k: int| 0 <= k < w.writers.len() ==> #[trigger] tidy_writer(w, k)
    &&& forall|k: int| 0 <= k < w.readers.len() ==> #[trigger] tidy_reader(w, k)
}

/// The lap of the head does not go down as long as positions do not start again.
proof fn lemma_lap_only_grows<T>(a: World<T>, b: World<T>)
    requires
        orderly(a),
        orderly(b),
        a.len() == b.len(),
        a.log.len() <= b.log.len() < positions(b.len()),
    ensures
        lap_of(a.memory.head) <= lap_of(b.memory.head),
{
    lemma_head_position(a);
    lemma_head_position(b);
    law_pack_after_unpack(a.memory.head);
    law_pack_after_unpack(b.memory.head);
    lemma_lap_begun(
        lap_of(a.memory.head),
        lap_of(b.memory.head),
        index_of(b.memory.head),
        b.len(),
    );
}

/// As long as positions do not start again, the head is at the position of the next message.
pub(crate) proof fn lemma_head_position<T>(w: World<T>)
    requires
        orderly(w),
        w.log.len() < positions(w.len()),
    ensures
        position(lap_of(w.memory.head), index_of(w.memory.head), w.len()) == w.log.len(),
{
    lemma_small_mod(w.log.len(), positions(w.len()) as nat);
}

proof fn lemma_writer_step_tidy<T>(a: World<T>, b: World<T>, k: int, reply: Reply)
    requires
        orderly(a),
        orderly(b),
        tidy(a),
        within_limits(a),
        within_limits(b),
        !disturbs(a, b),
        writer_step(a, b, k, reply),
    ensures
        tidy(b),
{
    let len = a.len();
    let w = a.writers[k];
    let s = slot_of(index_in(w), len);
    lemma_radix();
    law_pack_after_unpack(a.memory.head);
    lemma_mod_bound(index_in(w), len);
    assert(b.len() == len);
    assert(tidy_writer(a, k));
    assert(tidy_node(a, s));
    assert(holding(w) ==> holds(a, k, s));
    lemma_counts(a, s);
    // Only the node of the writer changes, and nobody else holds it or is registered on it.
    assert forall|slot: int| 0 <= slot < len && slot != s implies #[trigger] b.memory.nodes[slot]
        == a.memory.nodes[slot] by {}
    assert forall|slot: int| 0 <= slot < len implies registrations(b, slot) == registrations(
        a,
        slot,
    ) && #[trigger] withdrawals(b, slot) == withdrawals(a, slot) by {}
    assert forall|slot: int| 0 <= slot < len && slot != s implies #[trigger] tidy_node(
        b,
        slot,
    ) by {
        assert(tidy_node(a, slot));
        assert(withdrawals(b, slot) == withdrawals(a, slot));
    }
    if w is Advance && reply is Swapped {
        let lap = w->Advance_lap as int;
        let index = w->Advance_index as int;
        lemma_packed_fits(lap, index);
        law_unpack_after_pack(lap, index, a.memory.head);
        lemma_small_mod(index as nat, len as nat);
        lemma_head_position(a);
        assert(b.log[a.log.len() as int] == a.outgoing[k]);
    }
    lemma_lap_only_grows(a, b);
    assert forall|j: int| 0 <= j < b.writers.len() implies #[trigger] tidy_writer(b, j) by {
        assert(tidy_writer(a, j));
        let t = slot_of(index_in(a.writers[j]), len);
        lemma_mod_bound(index_in(a.writers[j]), len);
        if j != k {
            assert(holding(a.writers[j]) ==> holds(a, j, t));
        }
    }
    assert forall|j: int| 0 <= j < b.readers.len() implies #[trigger] tidy_reader(b, j) by {
        assert(tidy_reader(a, j));
        if a.readers[j].index() is Some {
            let t = slot_of(a.readers[j].index()->0, len);
            lemma_mod_bound(a.readers[j].index()->0, len);
            lemma_counts(a, t);
            assert(tidy_node(a, t));
            if a.readers[j].phase is Copy {
                assert(registered(a.readers[j], t, len));
            }
        }
    }
    if index_in(w) < len {
        lemma_small_mod(index_in(w) as nat, len as nat);
    }
    assert(withdrawals(b, s) == withdrawals(a, s));
    assert(tidy_node(b, s));
}

/// Only the last node is followed by the first one.
proof fn lemma_last_slot(index: int, len: int)
    requires
        0 < len,
        next_index(index, len) == 0,
    ensures
        slot_of(index, len) == len - 1,
{
    let slot = index % len;
    lemma_mod_bound(index, len);
    lemma_mod_one(len, index);
    if slot + 1 < len {
        lemma_small_mod((slot + 1) as nat, len as nat);
    }
}

proof fn lemma_reader_step_tidy<T>(a: World<T>, b: World<T>, k: int, reply: Reply)
    requires
        orderly(a),
        orderly(b),
        tidy(a),
        within_limits(a),
        within_limits(b),
        !disturbs(a, b),
        reader_step(a, b, k, reply),
    ensures
        tidy(b),
{
    let len = a.len();
    let r = a.readers[k];
    let next = r.resumed(reply, len);
    lemma_radix();
    assert(b.len() == len);
    assert(b.readers[k] == next);
    assert(tidy_reader(a, k));
    if r.index() is Some {
        let slot = slot_of(r.index()->0, len);
        lemma_mod_bound(r.index()->0, len);
        assert(tidy_node(a, slot));
        lemma_counts(a, slot);
        assert(r.phase is Withdraw ==> withdrawing(r, slot, len));
        if r.phase is Check || r.phase is Retreat || r.phase is Copy || r.phase is Leave {
            assert(registered(r, slot, len));
        }
        assert(sound_reader(a, k));
        assert(sound_node(a, slot));
    }
    if r.phase is Copy {
        // The message has been sent, so the position after it has been reached.
        let index = r.phase->Copy_index as int;
        let slot = slot_of(index, len);
        lemma_head_position(a);
        law_pack_after_unpack(a.memory.head);
        let lap = r.cursor.lap as int;
        if next_index(index, len) == 0 {
            lemma_last_slot(index, len);
            assert((lap + 1) * len == lap * len + len) by (nonlinear_arith);
            lemma_lap_begun(
                lap + 1,
                lap_of(a.memory.head),
                index_of(a.memory.head),
                len,
            );
        }
    }
    assert forall|slot: int| 0 <= slot < len implies #[trigger] tidy_node(b, slot) by {
        assert(tidy_node(a, slot));
        let is_registered = |reader: Reader| registered(reader, slot, len);
        let is_withdrawing = |reader: Reader| withdrawing(reader, slot, len);
        lemma_count_update(a.readers, k, next, is_registered);
        lemma_count_update(a.readers, k, next, is_withdrawing);
        lemma_counts(a, slot);
        lemma_counts(b, slot);
    }
    assert forall|j: int| 0 <= j < b.writers.len() implies #[trigger] tidy_writer(b, j) by {
        assert(tidy_writer(a, j));
        lemma_mod_bound(index_in(a.writers[j]), len);
    }
    assert forall|j: int| 0 <= j < b.readers.len() implies #[trigger] tidy_reader(b, j) by {
        assert(tidy_reader(a, j));
        if a.readers[j].index() is Some {
            lemma_mod_bound(a.readers[j].index()->0, len);
        }
    }
}

proof fn lemma_begin_tidy<T>(a: World<T>, b: World<T>)
    requires
        orderly(a),
        tidy(a),
        (exists|message: T| send_begins(a, b, message)) || (exists|cursor: ReaderData|
            receive_begins(a, b, cursor)),
    ensures
        tidy(b),
{
    let len = a.len();
    assert(b.len() == len);
    assert forall|slot: int| 0 <= slot < len implies #[trigger] tidy_node(b, slot) by {
        assert(tidy_node(a, slot));
        if b.readers.len() > a.readers.len() {
            assert(b.readers.drop_last() =~= a.readers);
        }
        assert(registrations(b, slot) == registrations(a, slot));
        assert(withdrawals(b, slot) == withdrawals(a, slot));
    }
    assert forall|j: int| 0 <= j < b.writers.len() implies #[trigger] tidy_writer(b, j) by {
        if j < a.writers.len() {
            assert(tidy_writer(a, j));
        }
    }
    assert forall|j: int| 0 <= j < b.readers.len() implies #[trigger] tidy_reader(b, j) by {
        if j < a.readers.len() {
            assert(tidy_reader(a, j));
        }
    }
}

pub(crate) proof fn lemma_calm_run_tidy<T>(worlds: Seq<World<T>>, n: int)
    requires
        run(worlds),
        0 <= n < worlds.len(),
        calm(worlds, n),
    ensures
        orderly(worlds[n]),
        tidy(worlds[n]),
    decreases n,
{
    law_one_writer_per_node(worlds, n);
    let b = worlds[n];
    if n == 0 {
        assert forall|slot: int| 0 <= slot < b.len() implies #[trigger] tidy_node(b, slot) by {
            assert(b.memory.nodes[slot] == empty_node::<T>());
        }
    } else {
        lemma_calm_run_tidy(worlds, n - 1);
        let a = worlds[n - 1];
        assert(step(worlds[n - 1], worlds[n - 1 + 1]));
        assert(within_limits(worlds[n - 1]) && within_limits(worlds[n]));
        assert(!disturbs(worlds[n - 1], worlds[n - 1 + 1]));
        if exists|k: int, reply: Reply| writer_step(a, b, k, reply) {
            let (k, reply) = choose|k: int, reply: Reply| writer_step(a, b, k, reply);
            lemma_writer_step_tidy(a, b, k, reply);
        } else if exists|k: int, reply: Reply| reader_step(a, b, k, reply) {
            let (k, reply) = choose|k: int, reply: Reply| reader_step(a, b, k, reply);
            lemma_reader_step_tidy(a, b, k, reply);
        } else {
            lemma_begin_tidy(a, b);
        }
    }
}

/// As long as the run is calm, no writer holds a node on which a reader is registered.
pub proof fn law_readers_keep_writers_away<T>(worlds: Seq<World<T>>, n: int)
    requires
        run(worlds),
        0 <= n < worlds.len(),
        calm(worlds, n),
    ensures
        forall|j: int, k: int, slot: int|
            0 <= j < worlds[n].writers.len() && 0 <= k < worlds[n].readers.len() && 0 <= slot
                < worlds[n].len() && #[trigger] holds(worlds[n], j, slot) ==> !registered(
                #[trigger] worlds[n].readers[k],
                slot,
                worlds[n].len(),
            ),
{
    lemma_calm_run_tidy(worlds, n);
    let w = worlds[n];
    assert forall|j: int, k: int, slot: int|
        0 <= j < w.writers.len() && 0 <= k < w.readers.len() && 0 <= slot < w.len()
            && #[trigger] holds(w, j, slot) implies !registered(
        #[trigger] w.readers[k],
        slot,
        w.len(),
    ) by {
        assert(tidy_node(w, slot));
        lemma_counts(w, slot);
    }
}

/// As long as the run is calm, no receiver is ever a lap ahead of the head, so its next receive
/// can begin.
pub proof fn law_receivers_stay_behind_the_head<T>(worlds: Seq<World<T>>, n: int, k: int)
    requires
        run(worlds),
        0 <= n < worlds.len(),
        calm(worlds, n),
        0 <= k < worlds[n].readers.len(),
    ensures
        worlds[n].readers[k].cursor.lap <= lap_of(worlds[n].memory.head),
{
    lemma_calm_run_tidy(worlds, n);
    assert(tidy_reader(worlds[n], k));
}

/// As long as the run is calm, what a reader clones is the message sent at the very position
/// that the lap of its cursor and the place of the node name.
pub proof fn law_reader_gets_the_message_sent_there<T>(worlds: Seq<World<T>>, n: int, k: int)
    requires
        run(worlds),
        0 <= n < worlds.len(),
        calm(worlds, n),
        0 <= k < worlds[n].readers.len(),
        worlds[n].readers[k].phase is Copy,
    ensures
        ({
            let w = worlds[n];
            let reader = w.readers[k];
            let slot = slot_of(reader.phase->Copy_index as int, w.len());
            let at = position(reader.cursor.lap as int, slot, w.len());
            &&& 0 <= at < w.log.len()
            &&& w.memory.nodes[slot].data == Some(w.log[at])
        }),
{
    lemma_calm_run_tidy(worlds, n);
    let w = worlds[n];
    let reader = w.readers[k];
    let index = reader.phase->Copy_index as int;
    let slot = slot_of(index, w.len());
    lemma_mod_bound(index, w.len());
    assert(tidy_reader(w, k));
    assert(tidy_node(w, slot));
    assert(registered(reader, slot, w.len()));
    lemma_counts(w, slot);
    let lap = reader.cursor.lap as int;
    assert(0 <= lap * w.len()) by (nonlinear_arith)
        requires
            0 <= lap,
            0 <= w.len(),
    ;
}

} // verus!
