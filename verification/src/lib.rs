//! ZeroKV: a key-value store whose reads cost the server no CPU time.
//!
//! The server keeps a cuckoo hash table in memory that it registers with a NIC, and clients read
//! the slots of the table by one-sided RDMA. To write, a client puts a message into the server's
//! message buffer, also one-sided; a core of the server finds it there and inserts the pair.
//!
//! This crate is the logic of that: what stands where in memory, what an operation changes, which
//! transfers a client posts and what it makes of their results. It is written in Verus, and its
//! functions state in their contracts what they do. The programs under `app/` own the devices,
//! the sockets and the threads.
//!
//! - `region`, `look`: registered memory, as bytes, and how it is read while others write it
//! - `hash`, `cuckoo`, `table`: the hash table and its sequence-locked slots
//! - `msgbuf`, `server`: the message buffer, and how the server loads PUTs into the table
//! - `rdma_context`, `gid`, `handshake`: endpoints, and how two of them get to know each other
//! - `client`: GETs and PUTs as dialogues with the NIC, and the mixed workload
//! - `bench`, `lru`, `keymap`, `histogram`, `stats`: the benchmark, its cache and its figures
//! - `diagnostics`, `text`, `keys`: what is printed and parsed on the way
//!
//! Others look at this memory while it is written. So a region of memory says which single steps
//! are allowed, and every store owes that it is one of them: that is how `table::may_write` fixes
//! the order of a write under the sequence lock, and `msgbuf` that of a sweep. What is read goes
//! through a `look::Look`, which keeps account of loads and fences in their order. Otherwise
//! contracts speak of memory as it is while a call lasts: that another party writes it meanwhile is
//! not part of them. What a reader beside a writer can rely on is stated on its own, in
//! `cuckoo::law_write_is_seen_whole` and `cuckoo::law_reader_beside_a_writer`; a reader that takes
//! the low version of a slot before a write begins, part of the pair while it is copied in, and the
//! high version before the write is over, can be misled.

pub mod bench;
pub mod client;
pub mod cuckoo;
pub mod diagnostics;
pub mod gid;
pub mod handshake;
pub mod hash;
pub mod histogram;
pub mod keymap;
pub mod keys;
pub mod look;
pub mod lru;
pub mod msgbuf;
pub mod rdma_context;
pub mod region;
pub mod server;
pub mod stats;
pub mod table;
pub mod text;

pub use hash::{h1, h2};
pub use msgbuf::{
    build_put_payload, core_for_key, MsgBuf, MsgSlot, MSGBUF_BYTES, MSG_BYTES, NUM_CORES,
    SLOTS_PER_CORE,
};
pub use table::{read_slot, write_slot, Slot, Table};
