# ZeroKV

A key-value store whose GETs cost the server no CPU time: clients read the server's hash table by
one-sided RDMA, and write PUTs into a message buffer that the server's cores sweep.

`src/` is the library, written in Verus: every function states what it does in its contract, and
Verus proves it. `tests/` runs the library on concrete values. `app/` holds the programs around it,
which own the devices, the sockets and the threads.

| module | what it holds |
|--------|---------------|
| `region`, `look` | registered memory, byte by byte; how it is read while others write it |
| `hash`, `cuckoo`, `table` | the cuckoo hash table; slots under a sequence lock |
| `msgbuf`, `server` | the message buffer, its sweep, and how PUTs get into the table |
| `rdma_context`, `gid`, `handshake` | queue pairs, transfers, completions; how peers meet |
| `client` | GETs and PUTs as dialogues with the NIC; the mixed workload |
| `bench`, `lru`, `keymap`, `histogram`, `stats` | the benchmark, its read cache, its figures |
| `diagnostics`, `text`, `keys` | what is printed and parsed on the way |

## What is proved of the whole

Public proof functions named `law_..` state what holds across functions. The main ones:

- `cuckoo::law_insertion`: an insertion that succeeds adds its pair and changes no other; one that
  fails loses exactly one pair.
- `client::law_put_reaches_get`: what a PUT writes, a later GET reads.
- `client::law_get_is_lookup`: a GET finds what the table's own lookup finds.
- `table::may_write`: the steps of a write under the sequence lock, in order, with their fences. The
  memory that a table works in need allow no others, and every single store owes that it is allowed,
  so that `write_slot_at` and `Table::insert` have no other way.
- `table::law_steps_of_a_write`, `cuckoo::law_write_is_seen_whole`,
  `cuckoo::law_reader_beside_a_writer`: those steps are the stages of a write, and a reader beside
  a writer that goes through these stages gets nothing, the old pair or the new one. There is one
  case in which it can be misled: where it takes the low version before a write begins, part of the
  pair while it is copied in, and the high version before the write is over.
- `client::law_miss_saw_both_at_rest`: a GET calls a key absent only where it found both its slots
  at rest; a slot that is being written is read again, and at last reported as torn.
- `lru::law_insert_drops_the_least_recent`: a full cache drops what was used least recently.

A slot that is written 2^31 times runs its version over to zero, which reads as a free slot; the
laws leave such writes out.

## What is taken on trust

XXH3 (`xxhash-rust`) is a function of its input; `hdrhistogram` counts what it is given in three
digits; `rand` draws from the range it is asked for; `sort_unstable` sorts. Their contracts stand
beside the calls. `crossbeam-utils` lends `MsgSlot`, and the memory that the library allocates, the
alignment of a pair of cache lines: 128 bytes on x86-64, aarch64 and powerpc64, less on other
targets.

## Running

The programs need libibverbs and an RDMA device (SoftRoCE will do):

    zerokv server
    SERVER_ADDR=127.0.0.1:7471 zerokv client
    SERVER_ADDR=127.0.0.1:7471 PIN_CPU=3 zerokv bench
