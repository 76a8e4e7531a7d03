# blinkcast

Bounded, lossy broadcast channel, verified with Verus.

- It allows for multiple consumers (receivers) and multiple producers (senders).
- The channel broadcasts every send to every consumer.
- Lossy: the sender will overwrite old data, so receivers must be quick or they will lose the
  old data (don't blink).

This is useful where data comes in very quickly and new data is always more important than old
data, which can be discarded.

## Layout

- `src/`: the verified library.
  - `word`: the packed head of the buffer and the states of its nodes.
  - `memory`: nodes, and the indivisible accesses that are made to them.
  - `writer`, `reader`: sending and receiving as step machines.
  - `backlog`: the messages that a buffer stands for; sending and receiving are specified on it.
  - `core_impl`: both machines run on a buffer that is not shared.
  - `heap`, `static_mem`: senders and receivers that share a channel behind a lock.
  - `laws`: what senders and receivers can rely on.
  - `protocol`: what holds while many machines work on the same memory.
  - `calm`, `settling`: what holds on top of that when nobody is disturbed.
- `app/`: the channel without a lock. It runs the step machines on atomics.
- `tests/`: tests of the library.

What is proved of a channel is proved for messages of any type. A law that does not hold of every
run says of which runs it holds. Most often left out is what happens once the positions of the
messages start again from zero, after as many laps as fit in half a word. A run is a sequentially
consistent one; `app/` makes its accesses in weaker memory orders, of which nothing is proved.
