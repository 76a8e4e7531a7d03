//! What senders and receivers can rely on.
//!
//! The laws are about a [`Backlog`], in whose terms sending and receiving are specified. Those
//! that compare positions leave out channels in which the positions start again from zero,
//! which takes as many laps as fit in half a word.

use vstd::prelude::*;

use crate::backlog::{finds, lemma_position_order, positions, push_all, received, Backlog};
use crate::reader::ReaderData;
use crate::word::MAX_LEN;

verus! {

/// What a receiver whose next position is given receives until there is nothing left.
pub open spec fn drained<T>(log: Backlog<T>, position: int) -> Seq<T>
    decreases
            if position < log.next {
                log.next - position
            } else {
                0
            },
{
    if log.has_message_for(position) {
        seq![log.message(log.source(position))] + drained(log, log.source(position) + 1)
    } else {
        Seq::empty()
    }
}

/// The last messages of a sequence, `n` of them or all if there are fewer.
pub open spec fn last_of<T>(sent: Seq<T>, n: int) -> Seq<T> {
    if sent.len() <= n {
        sent
    } else {
        sent.skip(sent.len() - n)
    }
}

/// A channel stays valid when a message is sent.
pub proof fn law_push_keeps_valid<T>(log: Backlog<T>, message: T)
    requires
        log.valid(),
        0 < log.capacity,
    ensures
        log.push(message).valid(),
{
    let all = positions(log.capacity);
    assert(log.capacity <= all) by (nonlinear_arith)
        requires
            0 < log.capacity,
            1 <= crate::word::radix(),
            all == crate::word::radix() * log.capacity,
    ;
    vstd::arithmetic::div_mod::lemma_mod_bound(log.next + 1, all);
    if log.next + 1 < all {
        vstd::arithmetic::div_mod::lemma_small_mod((log.next + 1) as nat, all as nat);
    } else {
        vstd::arithmetic::div_mod::lemma_mod_self_0(all);
    }
}

/// However many messages are sent, the channel holds the last ones, as many as fit, in the
/// order in which they were sent.
pub proof fn law_keeps_latest<T>(log: Backlog<T>, sent: Seq<T>)
    requires
        log.valid(),
        0 < log.capacity,
    ensures
        push_all(log, sent).valid(),
        push_all(log, sent).capacity == log.capacity,
        push_all(log, sent).kept == last_of(log.kept + sent, log.capacity),
        log.next + sent.len() < positions(log.capacity) ==> push_all(log, sent).next == log.next
            + sent.len(),
    decreases sent.len(),
{
    if sent.len() == 0 {
        assert(log.kept + sent =~= log.kept);
    } else {
        let before = push_all(log, sent.drop_last());
        law_keeps_latest(log, sent.drop_last());
        law_push_keeps_valid(before, sent.last());
        assert(log.kept + sent =~= (log.kept + sent.drop_last()).push(sent.last()));
        assert(push_all(log, sent).kept =~= last_of(log.kept + sent, log.capacity));
        if log.next + sent.len() < positions(log.capacity) {
            vstd::arithmetic::div_mod::lemma_small_mod(
                (log.next + sent.len()) as nat,
                positions(log.capacity) as nat,
            );
        }
    }
}

/// A receiver is handed a message it has not been handed before, and no message that has not
/// been sent: its position only ever grows, and never beyond the next position.
pub proof fn law_receiving_moves_on<T>(log: Backlog<T>, position: int)
    requires
        log.valid(),
        0 <= position,
        log.has_message_for(position),
    ensures
        position <= log.source(position) < log.source(position) + 1 <= log.next,
        log.horizon() <= log.source(position),
        log.horizon() <= position ==> log.source(position) == position,
{
    if log.capacity == 0 {
        assert(crate::word::radix() * 0 == 0);
    }
}

/// What a receiver finds, and where that takes it, is determined by what the channel holds and by
/// where the receiver is. Channels that hold the same, such as any two fresh ones of the same
/// capacity, cannot be told apart by receiving.
pub proof fn law_receiving_is_determined<T>(
    log: Backlog<T>,
    cursor: ReaderData,
    one: Option<(T, ReaderData)>,
    other: Option<(T, ReaderData)>,
)
    requires
        finds(log, cursor, one),
        finds(log, cursor, other),
    ensures
        one == other,
{
    if let (Some((_, a)), Some((_, b))) = (one, other) {
        if 0 < log.capacity {
            lemma_position_order(
                a.lap as int,
                a.index as int,
                b.lap as int,
                b.index as int,
                log.capacity,
            );
        }
    }
}

/// A receiver that is not ahead of the channel never gets ahead of it, neither by receiving nor
/// by what is sent, and can therefore always receive.
pub proof fn law_receiver_never_gets_ahead<T>(log: Backlog<T>, cursor: ReaderData, message: T)
    requires
        log.valid(),
        0 < log.capacity,
        cursor.fits(log.capacity),
        cursor.position(log.capacity) <= log.next,
    ensures
        cursor.lap * log.capacity <= log.next,
        log.has_message_for(cursor.position(log.capacity)) ==> log.source(
            cursor.position(log.capacity),
        ) + 1 <= log.next,
        log.next + 1 < positions(log.capacity) ==> cursor.position(log.capacity) <= log.push(
            message,
        ).next,
{
    let at = cursor.position(log.capacity);
    assert(0 <= cursor.lap * log.capacity) by (nonlinear_arith)
        requires
            0 <= cursor.lap,
            0 < log.capacity,
    ;
    if log.has_message_for(at) {
        law_receiving_moves_on(log, at);
    }
    if log.next + 1 < positions(log.capacity) {
        vstd::arithmetic::div_mod::lemma_small_mod(
            (log.next + 1) as nat,
            positions(log.capacity) as nat,
        );
    }
}

/// A receiver is handed every message from its position on that the channel still holds, in
/// the order in which they were sent, and each of them once.
pub proof fn law_drains_in_order<T>(log: Backlog<T>, position: int)
    requires
        log.valid(),
        0 <= position,
    ensures
        drained(log, position) == if log.has_message_for(position) {
            last_of(log.kept, log.next - log.source(position))
        } else {
            Seq::empty()
        },
    decreases log.next - position,
{
    if log.has_message_for(position) {
        let at = log.source(position);
        law_receiving_moves_on(log, position);
        law_drains_in_order(log, at + 1);
        assert(drained(log, position) =~= last_of(log.kept, log.next - at));
    }
}

/// A receiver is handed what it had not yet received and then what was sent meanwhile, in
/// order. If that is more than fits in the channel, it is handed the last of it, as much as
/// fits: the oldest messages are lost.
pub proof fn law_lossy_broadcast<T>(log: Backlog<T>, position: int, sent: Seq<T>)
    requires
        log.valid(),
        0 < log.capacity,
        0 <= position <= log.next,
        log.next + sent.len() < positions(log.capacity),
    ensures
        drained(push_all(log, sent), position) == last_of(
            drained(log, position) + sent,
            log.capacity,
        ),
{
    let later = push_all(log, sent);
    law_keeps_latest(log, sent);
    law_drains_in_order(log, position);
    law_drains_in_order(later, position);
    assert(drained(later, position) =~= last_of(drained(log, position) + sent, log.capacity));
}

/// A receiver that has received everything, or was made just now, is handed exactly the
/// messages sent from then on, in order, as long as no more are sent than fit.
pub proof fn law_up_to_date_receiver_misses_nothing<T>(log: Backlog<T>, sent: Seq<T>)
    requires
        log.valid(),
        0 < log.capacity,
        sent.len() <= log.capacity,
        log.next + sent.len() < positions(log.capacity),
    ensures
        drained(log, log.next) == Seq::<T>::empty(),
        drained(push_all(log, sent), log.next) == sent,
{
    law_lossy_broadcast(log, log.next, sent);
    assert(Seq::<T>::empty() + sent =~= sent);
}

/// A channel holds the latest messages of its history, as many as fit, in the order in which they
/// were sent; and until positions start again, its next position is the number of messages sent.
pub proof fn law_holds_the_latest_of_its_history<T>(capacity: int, history: Seq<T>)
    requires
        0 < capacity <= MAX_LEN,
    ensures
        push_all(Backlog::<T>::empty(capacity), history).valid(),
        push_all(Backlog::<T>::empty(capacity), history).capacity == capacity,
        push_all(Backlog::<T>::empty(capacity), history).kept == last_of(history, capacity),
        history.len() < positions(capacity) ==> push_all(
            Backlog::<T>::empty(capacity),
            history,
        ).next == history.len(),
{
    let fresh = Backlog::<T>::empty(capacity);
    law_keeps_latest(fresh, history);
    assert(fresh.kept + history =~= history);
}

/// Whatever was sent before, a message that is sent is the latest one that the channel holds.
/// The messages that were there stay, except that the oldest one goes if the channel was full.
pub proof fn law_send_overwrites_the_oldest<T>(capacity: int, earlier: Seq<T>, value: T)
    requires
        0 < capacity <= MAX_LEN,
    ensures
        ({
            let before = push_all(Backlog::<T>::empty(capacity), earlier).kept;
            let after = push_all(Backlog::<T>::empty(capacity), earlier.push(value)).kept;
            &&& after.last() == value
            &&& before.len() < capacity ==> after == before.push(value)
            &&& before.len() == capacity ==> after == before.skip(1).push(value)
            &&& before.len() == capacity <==> capacity <= earlier.len()
        }),
{
    law_holds_the_latest_of_its_history(capacity, earlier);
    law_holds_the_latest_of_its_history(capacity, earlier.push(value));
    let before = last_of(earlier, capacity);
    let after = last_of(earlier.push(value), capacity);
    if earlier.len() < capacity {
        assert(after =~= before.push(value));
    } else {
        assert(after =~= before.skip(1).push(value));
    }
}

/// What a receive gives, told in the history of the channel: nothing if the receiver has reached
/// the end of the history, and otherwise a clone of the message at its position, or of the oldest
/// of the latest messages, as many as fit, if it has fallen behind those. The receiver then stands
/// right after that message.
pub proof fn law_receive_reads_the_history<T: Clone>(
    capacity: int,
    history: Seq<T>,
    before: ReaderData,
    later: ReaderData,
    result: Option<T>,
)
    requires
        0 < capacity <= MAX_LEN,
        history.len() < positions(capacity),
        before.fits(capacity),
        received(push_all(Backlog::<T>::empty(capacity), history), before, later, result),
    ensures
        ({
            let at = before.position(capacity);
            let oldest = history.len() - capacity;
            let read = if at < oldest {
                oldest
            } else {
                at
            };
            if history.len() <= at {
                result is None && later == before
            } else {
                &&& result is Some
                &&& 0 <= read < history.len()
                &&& cloned(history[read], result->0)
                &&& later.position(capacity) == read + 1
            }
        }),
{
    let log = push_all(Backlog::<T>::empty(capacity), history);
    law_holds_the_latest_of_its_history(capacity, history);
    assert(0 <= before.lap * capacity) by (nonlinear_arith)
        requires
            0 <= before.lap,
            0 < capacity,
    ;
}

/// What is sent is received: a receiver whose turn it is to get the message that a send has put at
/// the end of the history gets a clone of it, however many messages come after it, as long as the
/// message is among the latest ones, as many as fit, when the receiver looks.
pub proof fn law_sent_messages_are_received<T: Clone>(
    capacity: int,
    earlier: Seq<T>,
    value: T,
    meanwhile: Seq<T>,
    before: ReaderData,
    later: ReaderData,
    result: Option<T>,
)
    requires
        0 < capacity <= MAX_LEN,
        earlier.len() + 1 + meanwhile.len() < positions(capacity),
        meanwhile.len() < capacity,
        before.fits(capacity),
        before.position(capacity) == earlier.len(),
        received(
            push_all(Backlog::<T>::empty(capacity), earlier.push(value) + meanwhile),
            before,
            later,
            result,
        ),
    ensures
        result is Some && cloned(value, result->0),
        later.position(capacity) == earlier.len() + 1,
{
    law_receive_reads_the_history(
        capacity,
        earlier.push(value) + meanwhile,
        before,
        later,
        result,
    );
}

} // verus!
