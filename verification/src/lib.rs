//! Bounded, lossy broadcast channel.
//!
//! The channel is a ring buffer. Its API is similar to that of the
//! [`std::sync::mpsc`](https://doc.rust-lang.org/std/sync/mpsc/) channels, with some
//! differences:
//!
//! - It allows for multiple consumers (receivers) and multiple producers (senders).
//! - The channel broadcasts every send to every consumer.
//! - Lossy: the sender will overwrite old data, so receivers must be quick or they will lose
//!   the old data (don't blink).
//!
//! The data sent must implement `Clone`, because it will be kept in the buffer, and readers can
//! read it multiple times. The object that was sent remains in the buffer until it is
//! overwritten; at that point it is dropped.
//!
//! How the crate is built:
//!
//! - [`word`]: the packed head of the buffer and the states of its nodes.
//! - [`memory`]: nodes, and the indivisible accesses that are made to them.
//! - [`writer`] and [`reader`]: sending and receiving as step machines, which say what access to
//!   make next and what to make of the answer. They work for any number of writers and readers
//!   at once.
//! - [`backlog`]: the messages that a buffer stands for.
//! - [`core_impl`]: both machines run on a buffer that is not shared.
//! - [`heap`] and [`static_mem`]: senders and receivers that share a channel.
//! - [`ledger`]: the history of a channel, and what its users know of it.
//! - [`heap_record`] and [`static_record`]: a channel with its history, which is what is shared.
//! - [`laws`]: what senders and receivers can rely on.
//! - [`protocol`]: what holds while many machines work on the same memory.
//! - [`calm`] and [`settling`]: what holds on top of that when nobody is disturbed.
//!
//! # Example
//! ```
//! use blinkcast::heap::channel;
//!
//! let (sender, mut receiver1) = channel::<i32, 4>();
//! sender.send(1);
//! sender.send(2);
//!
//! let mut receiver2 = receiver1.clone();
//!
//! assert_eq!(receiver1.recv(), Some(1));
//! assert_eq!(receiver1.recv(), Some(2));
//! assert_eq!(receiver1.recv(), None);
//!
//! assert_eq!(receiver2.recv(), Some(1));
//! assert_eq!(receiver2.recv(), Some(2));
//! assert_eq!(receiver2.recv(), None);
//! ```

pub mod backlog;
pub mod calm;
pub mod core_impl;
pub mod heap;
pub mod heap_record;
pub mod laws;
pub mod ledger;
pub mod memory;
pub mod protocol;
pub mod reader;
pub mod settling;
pub mod static_mem;
pub mod static_record;
pub mod word;
pub mod writer;

pub use crate::word::MAX_LEN;
