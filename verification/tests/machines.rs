use blinkcast::core_impl::{pop, push};
use blinkcast::memory::{perform, Access, Node, Reply};
use blinkcast::reader::{Phase, Reader, ReaderData};
use blinkcast::word::{
    pack_data_index, INDEX_MASK, STATE_AVAILABLE, STATE_EMPTY, STATE_READING, STATE_WRITING,
};
use blinkcast::writer::Writer;

fn nodes(len: usize) -> Vec<Node<i32>> {
    (0..len).map(|_| Node::empty()).collect()
}

/// One step of a writer of `message`.
fn write(writer: Writer, buffer: &mut [Node<i32>], head: &mut usize, message: i32) -> Writer {
    let access = writer.request(buffer.len()).unwrap();
    let reply = match access {
        Access::PutMessage { slot, replaces } => {
            assert_eq!(buffer[slot].data.is_some(), replaces);
            buffer[slot].data = Some(message);
            Reply::Done
        }
        _ => perform(buffer, head, access),
    };
    assert!(writer.can_resume(reply));
    writer.resume(reply)
}

/// One step of a reader.
fn read(
    reader: Reader,
    buffer: &mut [Node<i32>],
    head: &mut usize,
    received: &mut Option<i32>,
) -> Reader {
    let access = reader.request(buffer.len()).unwrap();
    let reply = match access {
        Access::CloneMessage { slot } => {
            *received = buffer[slot].data;
            Reply::Done
        }
        _ => perform(buffer, head, access),
    };
    assert!(reader.can_resume(reply, buffer.len()));
    reader.resume(reply, buffer.len())
}

#[test]
fn empty_and_default_nodes() {
    let node = Node::<i32>::empty();
    assert!(node.data.is_none() && node.state == STATE_EMPTY && node.lap == 0);
    let node = Node::<i32>::default();
    assert!(node.data.is_none() && node.state == STATE_EMPTY && node.lap == 0);
}

#[test]
fn accesses() {
    let mut buffer = nodes(2);
    let mut head = 7;
    assert_eq!(perform(&mut buffer, &mut head, Access::LoadHead), Reply::Word(7));
    let swap = Access::SwapHead { from: 7, to: 9 };
    assert_eq!(perform(&mut buffer, &mut head, swap), Reply::Swapped);
    assert_eq!(perform(&mut buffer, &mut head, swap), Reply::Found(9));
    let swap = Access::SwapState { slot: 1, from: 0, to: 2 };
    assert_eq!(perform(&mut buffer, &mut head, swap), Reply::Swapped);
    assert_eq!(perform(&mut buffer, &mut head, swap), Reply::Found(2));
    let add = Access::AddState { slot: 1, amount: 4 };
    assert_eq!(perform(&mut buffer, &mut head, add), Reply::Word(2));
    assert_eq!(buffer[1].state, 6);
    let store = Access::StoreState { slot: 1, state: 1 };
    assert_eq!(perform(&mut buffer, &mut head, store), Reply::Done);
    let take = Access::SubState { slot: 1, amount: 4 };
    assert_eq!(perform(&mut buffer, &mut head, take), Reply::Done);
    let load = Access::LoadState { slot: 1 };
    assert_eq!(perform(&mut buffer, &mut head, load), Reply::Word(usize::MAX - 2));
    let store = Access::StoreLap { slot: 0, lap: 5 };
    assert_eq!(perform(&mut buffer, &mut head, store), Reply::Done);
    let load = Access::LoadLap { slot: 0 };
    assert_eq!(perform(&mut buffer, &mut head, load), Reply::Word(5));
}

#[test]
fn push_and_pop() {
    let mut buffer = nodes(2);
    let mut head = 0;
    push(&mut buffer, &mut head, 10);
    assert_eq!(head, pack_data_index(0, 1));
    assert_eq!(buffer[0].data, Some(10));
    assert_eq!(buffer[0].state, STATE_AVAILABLE);
    push(&mut buffer, &mut head, 11);
    push(&mut buffer, &mut head, 12);
    assert_eq!(head, pack_data_index(1, 1));
    assert_eq!(buffer[0].data, Some(12));
    assert_eq!(buffer[0].lap, 1);

    let mut cursor = ReaderData { index: 0, lap: 0 };
    assert_eq!(pop(&mut buffer, &head, &mut cursor), Some(11));
    assert_eq!(cursor, ReaderData { index: 0, lap: 1 });
    assert_eq!(pop(&mut buffer, &head, &mut cursor), Some(12));
    assert_eq!(pop(&mut buffer, &head, &mut cursor), None);
    assert_eq!(buffer[1].state, STATE_AVAILABLE);
}

#[test]
fn after_the_last_lap_comes_lap_zero() {
    let mut buffer: Vec<Node<i32>> = (0..2)
        .map(|i| Node { data: Some(i), state: STATE_AVAILABLE, lap: INDEX_MASK })
        .collect();
    buffer[1].lap = INDEX_MASK - 1;
    let mut head = pack_data_index(INDEX_MASK, 1);
    push(&mut buffer, &mut head, 7);
    assert_eq!(head, 0);
    let mut cursor = ReaderData { index: 0, lap: 0 };
    assert_eq!(pop(&mut buffer, &head, &mut cursor), None);
    push(&mut buffer, &mut head, 8);
    assert_eq!(head, 1);
    assert_eq!(pop(&mut buffer, &head, &mut cursor), Some(8));
    assert_eq!(pop(&mut buffer, &head, &mut cursor), None);
}

#[test]
fn writer_moves_the_head_from_the_last_lap_to_lap_zero() {
    let writer = Writer::Advance { lap: INDEX_MASK, index: 1, state: STATE_AVAILABLE };
    let last = pack_data_index(INDEX_MASK, 1);
    assert_eq!(writer.request(2), Some(Access::SwapHead { from: last, to: 0 }));
    let next = pack_data_index(INDEX_MASK, 2);
    assert_eq!(writer.request(3), Some(Access::SwapHead { from: last, to: next }));
    let writer = Writer::Advance { lap: INDEX_MASK - 1, index: 1, state: STATE_AVAILABLE };
    let before = pack_data_index(INDEX_MASK - 1, 1);
    let first = pack_data_index(INDEX_MASK, 0);
    assert_eq!(writer.request(2), Some(Access::SwapHead { from: before, to: first }));
}

#[test]
fn push_leaves_the_other_nodes_alone() {
    let mut buffer = nodes(3);
    let mut head = 0;
    push(&mut buffer, &mut head, 10);
    for node in buffer[1..].iter() {
        assert!(node.data.is_none() && node.state == STATE_EMPTY && node.lap == 0);
    }
    for i in 11..14 {
        push(&mut buffer, &mut head, i);
    }
    push(&mut buffer, &mut head, 14);
    let laps: Vec<usize> = buffer.iter().map(|node| node.lap).collect();
    let data: Vec<Option<i32>> = buffer.iter().map(|node| node.data).collect();
    assert_eq!(laps, vec![1, 1, 0]);
    assert_eq!(data, vec![Some(13), Some(14), Some(12)]);
    assert!(buffer.iter().all(|node| node.state == STATE_AVAILABLE));
}

#[test]
fn writer_left_alone() {
    let mut buffer = nodes(3);
    let mut head = 0;
    let mut writer = Writer::new();
    let mut steps = 0;
    while writer != Writer::Finished {
        writer = write(writer, &mut buffer, &mut head, 1);
        steps += 1;
    }
    assert_eq!(steps, 7);
    assert_eq!(writer.request(3), None);
}

#[test]
fn second_writer_steps_over_a_taken_node() {
    let mut buffer = nodes(3);
    let mut head = 0;
    let mut first = Writer::new();
    for _ in 0..3 {
        first = write(first, &mut buffer, &mut head, 1);
    }
    assert_eq!(first, Writer::Advance { lap: 0, index: 0, state: STATE_EMPTY });
    let mut second = Writer::new();
    for _ in 0..4 {
        second = write(second, &mut buffer, &mut head, 2);
    }
    assert_eq!(second, Writer::Advance { lap: 0, index: 1, state: STATE_EMPTY });
    // The head has not been moved over the first node, so the second writer has to go back.
    second = write(second, &mut buffer, &mut head, 2);
    assert_eq!(second, Writer::Rollback { index: 1, state: STATE_EMPTY, head: 0 });
    second = write(second, &mut buffer, &mut head, 2);
    assert_eq!(second, Writer::Probe { lap: 0, index: 0 });
    assert_eq!(buffer[1].state, STATE_EMPTY);
    while first != Writer::Finished {
        first = write(first, &mut buffer, &mut head, 1);
    }
    // The first node is available again, but the head has moved on.
    for _ in 0..2 {
        second = write(second, &mut buffer, &mut head, 2);
    }
    assert_eq!(second, Writer::Advance { lap: 0, index: 0, state: STATE_AVAILABLE });
    while second != Writer::Finished {
        second = write(second, &mut buffer, &mut head, 2);
    }
    let mut cursor = ReaderData { index: 0, lap: 0 };
    assert_eq!(pop(&mut buffer, &head, &mut cursor), Some(1));
    assert_eq!(pop(&mut buffer, &head, &mut cursor), Some(2));
    assert_eq!(pop(&mut buffer, &head, &mut cursor), None);
}

#[test]
fn interleaved_writers_leave_what_one_after_the_other_would() {
    let mut buffer = nodes(4);
    let mut head = 0;
    let mut writers = vec![Writer::new(); 6];
    let mut log = Vec::new();
    let mut turn = 0;
    while writers.iter().any(|w| *w != Writer::Finished) {
        let k = (turn * 5 + turn / 7) % writers.len();
        turn += 1;
        if writers[k] == Writer::Finished {
            continue;
        }
        let before = head;
        writers[k] = write(writers[k], &mut buffer, &mut head, k as i32);
        if head != before {
            log.push(k as i32);
        }
    }
    assert_eq!(head, pack_data_index(1, 2));
    // Each send has got exactly one position.
    let mut placed = log.clone();
    placed.sort();
    assert_eq!(placed, vec![0, 1, 2, 3, 4, 5]);
    let mut cursor = ReaderData { index: 0, lap: 0 };
    for i in 2..6 {
        assert_eq!(pop(&mut buffer, &head, &mut cursor), Some(log[i]));
    }
    assert_eq!(pop(&mut buffer, &head, &mut cursor), None);
}

#[test]
fn writer_waits_for_readers() {
    let mut buffer = nodes(1);
    let mut head = 0;
    push(&mut buffer, &mut head, 1);
    let mut received = None;
    let mut reader = Reader::new(ReaderData { index: 0, lap: 0 });
    for _ in 0..3 {
        reader = read(reader, &mut buffer, &mut head, &mut received);
    }
    assert_eq!(reader.phase, Phase::Check { index: 0 });
    assert_eq!(buffer[0].state, STATE_AVAILABLE + STATE_READING);

    let mut writer = Writer::new();
    for _ in 0..5 {
        writer = write(writer, &mut buffer, &mut head, 2);
        assert_eq!(writer, Writer::Probe { lap: 1, index: 0 });
    }
    while reader.phase != Phase::Delivered {
        reader = read(reader, &mut buffer, &mut head, &mut received);
    }
    assert_eq!(received, Some(1));
    while writer != Writer::Finished {
        writer = write(writer, &mut buffer, &mut head, 2);
    }
    assert_eq!(buffer[0].data, Some(2));
}

#[test]
fn reader_starts_again_when_it_is_overtaken() {
    let mut buffer = nodes(2);
    let mut head = 0;
    push(&mut buffer, &mut head, 1);
    let mut received = None;
    let mut reader = Reader::new(ReaderData { index: 0, lap: 0 });
    reader = read(reader, &mut buffer, &mut head, &mut received);
    assert_eq!(reader.phase, Phase::Probe { index: 0 });
    for i in 2..5 {
        push(&mut buffer, &mut head, i);
    }
    for _ in 0..3 {
        reader = read(reader, &mut buffer, &mut head, &mut received);
    }
    assert_eq!(reader.phase, Phase::Retreat { index: 0 });
    while reader.phase != Phase::Delivered {
        reader = read(reader, &mut buffer, &mut head, &mut received);
    }
    assert_eq!(received, Some(3));
    assert_eq!(reader.cursor, ReaderData { index: 1, lap: 1 });
    assert_eq!(buffer[0].state, STATE_AVAILABLE);
}

#[test]
fn reader_withdraws_from_a_node_that_was_taken() {
    let mut buffer = nodes(1);
    let mut head = 0;
    push(&mut buffer, &mut head, 1);
    let mut received = None;
    let mut reader = Reader::new(ReaderData { index: 0, lap: 0 });
    for _ in 0..2 {
        reader = read(reader, &mut buffer, &mut head, &mut received);
    }
    assert_eq!(reader.phase, Phase::Register { index: 0 });
    let mut writer = Writer::new();
    for _ in 0..3 {
        writer = write(writer, &mut buffer, &mut head, 2);
    }
    assert_eq!(buffer[0].state, STATE_WRITING);
    reader = read(reader, &mut buffer, &mut head, &mut received);
    assert_eq!(reader.phase, Phase::Withdraw { index: 0 });
    reader = read(reader, &mut buffer, &mut head, &mut received);
    assert_eq!(reader.phase, Phase::Probe { index: 0 });
    assert_eq!(buffer[0].state, STATE_WRITING);
    // It steps over the node while the writer has it.
    reader = read(reader, &mut buffer, &mut head, &mut received);
    assert_eq!(reader.phase, Phase::Probe { index: 1 });
}

#[test]
fn reader_receives_nothing_while_the_first_message_is_being_written() {
    let mut buffer = nodes(3);
    let mut head = 0;
    let mut writer = Writer::new();
    for _ in 0..4 {
        writer = write(writer, &mut buffer, &mut head, 1);
    }
    assert_eq!(writer, Writer::Stamp { lap: 0, index: 0, state: STATE_EMPTY });
    assert_eq!(head, 1);

    let mut received = None;
    let cursor = ReaderData { index: 0, lap: 0 };
    let mut reader = Reader::new(cursor);
    for _ in 0..2 {
        reader = read(reader, &mut buffer, &mut head, &mut received);
    }
    assert_eq!(reader.phase, Phase::Probe { index: 1 });
    reader = read(reader, &mut buffer, &mut head, &mut received);
    assert_eq!(reader, Reader { cursor, phase: Phase::Empty });
    assert_eq!(reader.request(3), None);
    assert_eq!(received, None);

    while writer != Writer::Finished {
        writer = write(writer, &mut buffer, &mut head, 1);
    }
    let mut cursor = reader.cursor;
    assert_eq!(pop(&mut buffer, &head, &mut cursor), Some(1));
    assert_eq!(cursor, ReaderData { index: 1, lap: 0 });
}

#[test]
fn reader_that_steps_over_a_taken_node_moves_forward() {
    let mut buffer = nodes(3);
    let mut head = 0;
    for i in 0..3 {
        push(&mut buffer, &mut head, i);
    }
    let mut writer = Writer::new();
    for _ in 0..3 {
        writer = write(writer, &mut buffer, &mut head, 3);
    }
    assert_eq!(writer, Writer::Advance { lap: 1, index: 0, state: STATE_AVAILABLE });
    let mut received = None;
    let mut reader = Reader::new(ReaderData { index: 0, lap: 0 });
    while reader.phase != Phase::Delivered {
        reader = read(reader, &mut buffer, &mut head, &mut received);
    }
    assert_eq!(received, Some(1));
    assert_eq!(reader.cursor, ReaderData { index: 2, lap: 0 });
}

#[test]
fn reader_that_was_lapped_takes_the_oldest_message() {
    let reader = Reader::new(ReaderData { index: 3, lap: 0 });
    let moved = reader.resume(Reply::Word(pack_data_index(5, 2)), 4);
    assert_eq!(moved.phase, Phase::Probe { index: 2 });
    assert_eq!(moved.cursor, ReaderData { index: 3, lap: 4 });
    let moved = reader.resume(Reply::Word(pack_data_index(1, 2)), 4);
    assert_eq!(moved.phase, Phase::Probe { index: 3 });
    assert_eq!(moved.cursor, ReaderData { index: 3, lap: 0 });
    let moved = reader.resume(Reply::Word(pack_data_index(0, 3)), 4);
    assert_eq!(moved.phase, Phase::Empty);
}

#[test]
fn replies_that_cannot_be_acted_on() {
    let writer = Writer::Probe { lap: 0, index: 0 };
    assert!(writer.can_resume(Reply::Word(STATE_EMPTY)));
    assert!(writer.can_resume(Reply::Word(STATE_WRITING)));
    assert!(!writer.can_resume(Reply::Word(3)));
    assert!(!writer.can_resume(Reply::Done));
    let writer = Writer::Probe { lap: 0, index: INDEX_MASK };
    assert!(!writer.can_resume(Reply::Word(STATE_WRITING)));

    let reader = Reader { cursor: ReaderData { index: 0, lap: 2 }, phase: Phase::Start };
    assert!(!reader.can_resume(Reply::Word(pack_data_index(1, 0)), 4));
    assert!(reader.can_resume(Reply::Word(pack_data_index(2, 0)), 4));
    let reader = Reader { cursor: ReaderData { index: 0, lap: 0 }, phase: Phase::Probe { index: 0 } };
    assert!(reader.can_resume(Reply::Word(STATE_EMPTY), 4));
    assert!(!reader.can_resume(Reply::Word(3), 4));
    assert!(reader.can_resume(Reply::Word(STATE_WRITING), 4));
}
