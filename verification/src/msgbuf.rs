//! The message buffer: memory that clients write PUT requests into, and that server cores sweep.
//!
//! Each core owns `SLOTS_PER_CORE` slots of `MSG_BYTES` bytes. A slot is laid out as
//!
//! | bytes   | field   |                                |
//! |---------|---------|--------------------------------|
//! | 0       | `magic` | not zero while a PUT is pending |
//! | 1..8    |         | padding                        |
//! | 8..32   | `key`   |                                |
//! | 32..56  | `value` |                                |
//! | 56..128 |         | padding                        |
//!
//! A client writes a whole slot at once. The core that owns it finds the magic byte set, hands
//! the pair on, and clears the byte, which frees the slot.

use crossbeam_utils::CachePadded;
use vstd::prelude::*;
use xxhash_rust::xxh3::xxh3_64;

use crate::hash;
use crate::look;
use crate::look::{Act, Look};
use crate::region;
use crate::region::{load_block, store_pair, Lines, Region};

verus! {

pub const NUM_CORES: usize = 8;

pub const SLOTS_PER_CORE: usize = 64;

pub const MSG_BYTES: usize = 128;

/// The size of the message buffer.
pub const MSGBUF_BYTES: usize = NUM_CORES * SLOTS_PER_CORE * MSG_BYTES;

/// The magic byte of a pending PUT.
pub const PUT_MAGIC: u8 = 0xFF;

/// What a message slot holds.
#[verifier::ext_equal]
pub struct MsgState {
    pub magic: u8,
    pub key: Seq<u8>,
    pub value: Seq<u8>,
}

/// One message slot, taken out of memory: two cache lines, aligned as a pair of them.
pub struct MsgSlot {
    pub magic: u8,
    pub _pad0: [u8; 7],
    pub key: [u8; 24],
    pub value: [u8; 24],
    pub _pad1: [u8; 72],
    pub _line: [CachePadded<u8>; 0],
}

impl View for MsgSlot {
    type V = MsgState;

    open spec fn view(&self) -> MsgState {
        MsgState { magic: self.magic, key: self.key@, value: self.value@ }
    }
}

impl MsgSlot {
    /// A free slot.
    pub fn zeroed() -> (slot: Self)
        ensures
            slot@ == (MsgState {
                magic: 0,
                key: Seq::new(24, |i: int| 0u8),
                value: Seq::new(24, |i: int| 0u8),
            }),
            slot._pad0@ == Seq::new(7, |i: int| 0u8),
            slot._pad1@ == Seq::new(72, |i: int| 0u8),
    {
        let slot = MsgSlot {
            magic: 0,
            _pad0: [0u8; 7],
            key: [0u8; 24],
            value: [0u8; 24],
            _pad1: [0u8; 72],
            _line: [],
        };
        assert(slot.key@ =~= Seq::new(24, |i: int| 0u8));
        assert(slot.value@ =~= Seq::new(24, |i: int| 0u8));
        assert(slot._pad0@ =~= Seq::new(7, |i: int| 0u8));
        assert(slot._pad1@ =~= Seq::new(72, |i: int| 0u8));
        slot
    }
}

/// The message slot that memory holds from byte `at` on.
pub open spec fn msg_at(bytes: Seq<u8>, at: int) -> MsgState {
    MsgState {
        magic: bytes[at],
        key: bytes.subrange(at + 8, at + 32),
        value: bytes.subrange(at + 32, at + 56),
    }
}

/// Where slot `slot` of core `core` begins.
pub open spec fn offset_of(core: int, slot: int) -> int {
    (core * SLOTS_PER_CORE + slot) * MSG_BYTES
}

/// The PUTs that wait in the first `n` slots of core `core`, in slot order.
pub open spec fn pending_in(bytes: Seq<u8>, core: int, n: int) -> Seq<(Seq<u8>, Seq<u8>)>
    decreases n,
{
    if n <= 0 {
        Seq::empty()
    } else {
        let msg = msg_at(bytes, offset_of(core, n - 1));
        if msg.magic != 0 {
            pending_in(bytes, core, n - 1).push((msg.key, msg.value))
        } else {
            pending_in(bytes, core, n - 1)
        }
    }
}

/// Memory after the first `n` slots of core `core` are freed: their magic bytes are zero.
pub open spec fn freed_in(bytes: Seq<u8>, core: int, n: int) -> Seq<u8> {
    Seq::new(
        bytes.len(),
        |i: int|
            if offset_of(core, 0) <= i < offset_of(core, n) && i % 128 == 0 {
                0u8
            } else {
                bytes[i]
            },
    )
}

/// What a sweep does at the slot at byte `at`, which holds `msg`: it takes the magic byte, and,
/// where a PUT is pending, the pair behind a fence.
pub open spec fn message_acts(at: int, msg: MsgState) -> Seq<Act> {
    if msg.magic == 0 {
        seq![Act::Byte(at)]
    } else {
        seq![Act::Byte(at), Act::Acquire] + look::byte_loads(at + 8, 24) + look::byte_loads(
            at + 32,
            24,
        )
    }
}

/// Takes the PUT that is pending in the slot at byte `at`, if one is.
pub fn look_at_message<R: Region>(look: &mut Look<R>, at: usize) -> (put: Option<
    ([u8; 24], [u8; 24]),
>)
    requires
        at + MSG_BYTES <= old(look).bytes().len(),
    ensures
        ({
            let msg = msg_at(old(look).bytes(), at as int);
            &&& match put {
                Some((k, v)) => msg.magic != 0 && msg.key == k@ && msg.value == v@,
                None => msg.magic == 0,
            }
            &&& final(look).bytes() == old(look).bytes()
            &&& final(look).log() == old(look).log() + message_acts(at as int, msg)
        }),
        match put {
            Some((k, v)) => {
                &&& old(look).bytes()[at as int] != 0
                &&& k@ == old(look).bytes().subrange(at + 8, at + 32)
                &&& v@ == old(look).bytes().subrange(at + 32, at + 56)
            },
            None => old(look).bytes()[at as int] == 0,
        },
{
    let _size: usize = look.size();
    let ghost acts = message_acts(at as int, msg_at(look.bytes(), at as int));
    let magic: u8 = look.byte(at);
    if magic == 0 {
        assert(look.log() =~= old(look).log() + acts);
        return None;
    }
    look.acquire();
    let key = look.block(at + 8);
    let value = look.block(at + 32);
    assert(look.log() =~= old(look).log() + acts);
    Some((key, value))
}

/// What taking PUTs does to whoever takes them.
pub trait PutState: Sized {
    /// The state in which a PUT can be taken.
    spec fn ready(&self) -> bool;

    /// Whether taking a pair may turn `before` into `after`.
    spec fn takes(before: Self, key: Seq<u8>, value: Seq<u8>, after: Self) -> bool;
}

/// Whoever takes the PUTs that a sweep finds in memory of the kind `R`.
pub trait PutSink<R: Region>: PutState {
    /// Takes a pair. It still stands, pending, in the slot at byte `at` of the message buffer
    /// `buffer`.
    fn put(&mut self, buffer: &R, at: usize, key: &[u8; 24], value: &[u8; 24])
        requires
            old(self).ready(),
            at + MSG_BYTES <= buffer.bytes().len(),
            msg_at(buffer.bytes(), at as int).magic != 0,
            msg_at(buffer.bytes(), at as int).key == key@,
            msg_at(buffer.bytes(), at as int).value == value@,
        ensures
            final(self).ready(),
            Self::takes(*old(self), key@, value@, *final(self)),
    ;
}

/// `after` comes of `before` by taking `puts` one after the other; `states` are the stations.
pub open spec fn takes_via<S: PutState>(
    before: S,
    puts: Seq<(Seq<u8>, Seq<u8>)>,
    after: S,
    states: Seq<S>,
) -> bool {
    &&& states.len() == puts.len() + 1
    &&& states[0] == before
    &&& states[puts.len() as int] == after
    &&& forall|i: int|
        #![trigger puts[i]]
        0 <= i < puts.len() ==> S::takes(states[i], puts[i].0, puts[i].1, states[i + 1])
}

/// `after` comes of `before` by taking `puts` one after the other.
pub open spec fn takes_all<S: PutState>(
    before: S,
    puts: Seq<(Seq<u8>, Seq<u8>)>,
    after: S,
) -> bool {
    exists|states: Seq<S>| takes_via(before, puts, after, states)
}

/// A list of pairs takes a PUT at its end.
impl PutState for Vec<([u8; 24], [u8; 24])> {
    open spec fn ready(&self) -> bool {
        true
    }

    open spec fn takes(before: Self, key: Seq<u8>, value: Seq<u8>, after: Self) -> bool {
        &&& after@.len() == before@.len() + 1
        &&& after@.drop_last() == before@
        &&& after@.last().0@ == key
        &&& after@.last().1@ == value
    }
}

impl<R: Region> PutSink<R> for Vec<([u8; 24], [u8; 24])> {
    fn put(&mut self, buffer: &R, at: usize, key: &[u8; 24], value: &[u8; 24]) {
        self.push((*key, *value));
        assert(self@.drop_last() =~= old(self)@);
    }
}

/// Whether a region allows, behind a fence, to clear the magic byte of a slot, from the memory
/// `bytes` on.
pub open spec fn may_free<R: Region>(mem: &R, bytes: Seq<u8>, core: int, slot: int) -> bool {
    mem.allowed(bytes, bytes.update(offset_of(core, slot), 0u8), true)
}

/// Whether a region allows to free any slot, whatever it holds.
pub open spec fn may_free_slots<R: Region>(mem: &R) -> bool {
    forall|bytes: Seq<u8>, core: int, slot: int|
        bytes.len() == mem.bytes().len() && 0 <= core < NUM_CORES && 0 <= slot < SLOTS_PER_CORE
            ==> #[trigger] may_free(mem, bytes, core, slot)
}

/// Whether a region allows to lay a message out in the slot at byte `at`, from the memory `bytes`
/// on: the pair first, byte by byte, and then, behind a fence, the magic byte.
pub open spec fn may_deposit<R: Region>(
    mem: &R,
    bytes: Seq<u8>,
    at: int,
    msg: MsgState,
) -> bool {
    let filled = region::splice(bytes, at + 8, msg.key + msg.value);
    &&& forall|k: int, fenced: bool|
        0 <= k < 48 ==> #[trigger] region::may_copy(
            mem,
            bytes,
            at + 8,
            msg.key + msg.value,
            k,
            fenced,
        )
    &&& mem.allowed(filled, filled.update(at, msg.magic), true)
}

/// The message buffer, in a region of memory.
///
/// `MsgBuf::new_owned` allocates the memory; `MsgBuf::from_mr` works in memory that the caller
/// brings. Clients find the slot `slot_idx` of core `core_idx` at
/// `(core_idx * SLOTS_PER_CORE + slot_idx) * MSG_BYTES` bytes from its start.
pub struct MsgBuf<R: Region> {
    pub mem: R,
}

impl MsgBuf<Lines> {
    /// Allocates a buffer in which no PUT is pending, aligned to pairs of cache lines.
    pub fn new_owned() -> (buf: Self)
        ensures
            buf.inv(),
            buf.mem.bytes() == Seq::new(MSGBUF_BYTES as nat, |i: int| 0u8),
            forall|core: int| 0 <= core < NUM_CORES ==> #[trigger] buf.pending(core)
                == Seq::<(Seq<u8>, Seq<u8>)>::empty(),
    {
        let mem = Lines::zeroed(NUM_CORES * SLOTS_PER_CORE);
        let buf = MsgBuf { mem };
        assert forall|core: int| 0 <= core < NUM_CORES implies #[trigger] buf.pending(core)
            == Seq::<(Seq<u8>, Seq<u8>)>::empty() by {
            lemma_nothing_pending(buf.mem.bytes(), core, SLOTS_PER_CORE as int);
        }
        buf
    }

    /// Byte offset of slot `slot_idx` of core `core_idx`: what clients add to the address of the
    /// buffer.
    #[inline]
    pub fn slot_offset(core_idx: usize, slot_idx: usize) -> (offset: usize)
        requires
            offset_of(core_idx as int, slot_idx as int) <= usize::MAX,
        ensures
            offset == offset_of(core_idx as int, slot_idx as int),
    {
        slot_offset(core_idx, slot_idx)
    }
}

impl<R: Region> MsgBuf<R> {
    /// The memory has room for every slot, slots are aligned to their size, and the memory allows
    /// to free them.
    pub open spec fn inv(&self) -> bool {
        &&& self.mem.bytes().len() >= MSGBUF_BYTES
        &&& self.mem.addr() % 128 == 0
        &&& may_free_slots(&self.mem)
    }

    /// The PUTs that wait for core `core`, in slot order.
    pub open spec fn pending(&self, core: int) -> Seq<(Seq<u8>, Seq<u8>)> {
        pending_in(self.mem.bytes(), core, SLOTS_PER_CORE as int)
    }

    /// Works in memory that the caller brings, at an address that is a multiple of 128. PUTs that
    /// stand in it are pending.
    pub fn from_mr(buf: R) -> (msgbuf: Self)
        requires
            buf.bytes().len() >= MSGBUF_BYTES,
            buf.addr() % 128 == 0,
            may_free_slots(&buf),
        ensures
            msgbuf.inv(),
            msgbuf.mem == buf,
    {
        MsgBuf { mem: buf }
    }

    /// The memory (for registration, and for `PeerInfo`).
    #[inline]
    pub fn base_ptr(&self) -> (mem: &R)
        ensures
            *mem == self.mem,
    {
        &self.mem
    }

    /// Takes a slot out of memory; its padding is left behind.
    pub fn slot(&self, core_idx: usize, slot_idx: usize) -> (slot: MsgSlot)
        requires
            self.inv(),
            core_idx < NUM_CORES,
            slot_idx < SLOTS_PER_CORE,
        ensures
            slot@ == msg_at(self.mem.bytes(), offset_of(core_idx as int, slot_idx as int)),
            ({
                let at = (core_idx * 64 + slot_idx) * 128;
                &&& slot.magic == self.mem.bytes()[at]
                &&& slot.key@ == self.mem.bytes().subrange(at + 8, at + 32)
                &&& slot.value@ == self.mem.bytes().subrange(at + 32, at + 56)
            }),
            slot._pad0@ == Seq::new(7, |i: int| 0u8),
            slot._pad1@ == Seq::new(72, |i: int| 0u8),
    {
        let at: usize = slot_offset(core_idx, slot_idx);
        MsgSlot {
            magic: self.mem.load(at),
            key: load_block(&self.mem, at + 8),
            value: load_block(&self.mem, at + 32),
            ..MsgSlot::zeroed()
        }
    }

    /// Puts a slot into memory, its magic byte last, as a NIC does.
    pub fn deposit(&mut self, core_idx: usize, slot_idx: usize, slot: &MsgSlot)
        requires
            old(self).inv(),
            core_idx < NUM_CORES,
            slot_idx < SLOTS_PER_CORE,
            may_deposit(
                &old(self).mem,
                old(self).mem.bytes(),
                offset_of(core_idx as int, slot_idx as int),
                slot@,
            ),
        ensures
            final(self).inv(),
            region::same_rules(&final(self).mem, &old(self).mem),
            ({
                let at = offset_of(core_idx as int, slot_idx as int);
                final(self).mem.bytes() == region::splice(
                    old(self).mem.bytes(),
                    at + 8,
                    slot@.key + slot@.value,
                ).update(at, slot@.magic)
            }),
    {
        let at: usize = slot_offset(core_idx, slot_idx);
        store_pair(&mut self.mem, at + 8, &slot.key, &slot.value);
        self.mem.release();
        assert(old(self).mem.allowed(
            self.mem.bytes(),
            self.mem.bytes().update(at as int, slot.magic),
            true,
        ));
        self.mem.store(at, slot.magic);
        proof {
            lemma_may_free_slots(&old(self).mem, &self.mem);
        }
    }

    /// Sweeps the slots of core `core_idx` once: hands every pending PUT to `on_put`, in slot
    /// order, and frees its slot. Returns how many there were.
    ///
    /// A slot is freed after its PUT is taken, so that a client that sees it free also sees what
    /// came of the PUT.
    pub fn poll_core<S: PutSink<R>>(&mut self, core_idx: usize, on_put: &mut S) -> (count: usize)
        requires
            old(self).inv(),
            core_idx < NUM_CORES,
            old(on_put).ready(),
        ensures
            final(self).inv(),
            region::same_rules(&final(self).mem, &old(self).mem),
            final(on_put).ready(),
            count == old(self).pending(core_idx as int).len(),
            takes_all(*old(on_put), old(self).pending(core_idx as int), *final(on_put)),
            count == pending_in(old(self).mem.bytes(), core_idx as int, 64).len(),
            takes_all(
                *old(on_put),
                pending_in(old(self).mem.bytes(), core_idx as int, 64),
                *final(on_put),
            ),
            final(self).mem.bytes() == freed_in(
                old(self).mem.bytes(),
                core_idx as int,
                SLOTS_PER_CORE as int,
            ),
    {
        let ghost before = self.mem.bytes();
        let ghost core = core_idx as int;
        let ghost mut states: Seq<S> = seq![*on_put];
        let mut count: usize = 0;
        let mut slot_idx: usize = 0;
        assert(self.mem.bytes() =~= freed_in(before, core, 0));
        while slot_idx < SLOTS_PER_CORE
            invariant
                self.inv(),
                region::same_rules(&self.mem, &old(self).mem),
                core_idx < NUM_CORES,
                core == core_idx,
                before == old(self).mem.bytes(),
                on_put.ready(),
                slot_idx <= SLOTS_PER_CORE,
                count <= slot_idx,
                count == pending_in(before, core, slot_idx as int).len(),
                self.mem.bytes() == freed_in(before, core, slot_idx as int),
                takes_via(*old(on_put), pending_in(before, core, slot_idx as int), *on_put, states),
            decreases SLOTS_PER_CORE - slot_idx,
        {
            let at: usize = slot_offset(core_idx, slot_idx);
            assert(at == offset_of(core, slot_idx as int));
            assert(self.mem.bytes()[at as int] == before[at as int]);
            if let Some((key, value)) = look_at_message(&mut Look::new(&self.mem), at) {
                assert(key@ =~= before.subrange(at + 8, at + 32));
                assert(value@ =~= before.subrange(at + 32, at + 56));
                assert(self.mem.bytes().subrange(at + 8, at + 32) =~= key@);
                assert(self.mem.bytes().subrange(at + 32, at + 56) =~= value@);
                on_put.put(&self.mem, at, &key, &value);
                let ghost unfreed = self.mem;
                self.mem.release();
                assert(may_free(&unfreed, unfreed.bytes(), core, slot_idx as int));
                self.mem.store(at, 0);
                proof {
                    lemma_may_free_slots(&unfreed, &self.mem);
                }
                count += 1;
                proof {
                    let puts = pending_in(before, core, slot_idx as int);
                    let grown = puts.push((key@, value@));
                    let longer = states.push(*on_put);
                    assert(pending_in(before, core, slot_idx + 1) == grown);
                    assert forall|i: int|
                        #![trigger grown[i]]
                        0 <= i < grown.len() implies S::takes(
                        longer[i],
                        grown[i].0,
                        grown[i].1,
                        longer[i + 1],
                    ) by {
                        if i < puts.len() {
                            assert(puts[i] == grown[i]);
                        }
                    }
                    states = longer;
                }
            }
            assert(self.mem.bytes() =~= freed_in(before, core, slot_idx + 1));
            slot_idx += 1;
        }
        count
    }
}

/// What a region allows goes by its rules.
proof fn lemma_may_free_slots<R: Region>(a: &R, b: &R)
    requires
        may_free_slots(a),
        region::same_rules(b, a),
        a.bytes().len() == b.bytes().len(),
    ensures
        may_free_slots(b),
{
    assert forall|bytes: Seq<u8>, core: int, slot: int|
        bytes.len() == b.bytes().len() && 0 <= core < NUM_CORES && 0 <= slot
            < SLOTS_PER_CORE implies #[trigger] may_free(b, bytes, core, slot) by {
        assert(may_free(a, bytes, core, slot));
    }
}

/// Byte offset of slot `slot_idx` of core `core_idx`.
#[inline]
pub fn slot_offset(core_idx: usize, slot_idx: usize) -> (offset: usize)
    requires
        offset_of(core_idx as int, slot_idx as int) <= usize::MAX,
    ensures
        offset == offset_of(core_idx as int, slot_idx as int),
{
    (core_idx * SLOTS_PER_CORE + slot_idx) * MSG_BYTES
}

/// The core that serves keys of the hash `hash`.
#[inline]
pub fn core_for_hash(hash: u64) -> (core: usize)
    ensures
        core == (hash as usize / 8) % NUM_CORES,
        core == (hash as usize / 8) % 8,
        core < NUM_CORES,
{
    let h: usize = hash as usize;
    assert(h >> 3 == h / 8) by (bit_vector);
    (h >> 3) % NUM_CORES
}

/// The core that serves `key`. It goes by the bits 3 to 5 of the hash that places the key in half
/// A of the table.
#[inline]
pub fn core_for_key(key: &[u8; 24]) -> (core: usize)
    ensures
        core == (hash::xxh3(key@) as usize / 8) % NUM_CORES,
        core == (hash::xxh3(key@) as usize / 8) % 8,
        core < NUM_CORES,
{
    core_for_hash(xxh3_64(key))
}

/// The bytes of a slot with a pending PUT.
pub open spec fn put_image(key: Seq<u8>, value: Seq<u8>) -> Seq<u8> {
    seq![PUT_MAGIC] + Seq::new(7, |i: int| 0u8) + key + value + Seq::new(72, |i: int| 0u8)
}

/// Builds the bytes of a slot with a pending PUT, to be written to the slot as they are.
pub fn build_put_payload(key: &[u8; 24], value: &[u8; 24]) -> (payload: [u8; 128])
    ensures
        payload@ == put_image(key@, value@),
        payload@[0] == 0xFF,
        payload@.subrange(8, 32) == key@,
        payload@.subrange(32, 56) == value@,
        forall|i: int| 1 <= i < 8 || 56 <= i < 128 ==> #[trigger] payload@[i] == 0,
{
    let mut payload = [0u8; 128];
    payload[0] = PUT_MAGIC;
    let mut i: usize = 0;
    while i < 24
        invariant
            i <= 24,
            payload@[0] == PUT_MAGIC,
            forall|j: int| 0 <= j < i ==> payload@[8 + j] == key@[j],
            forall|j: int| 0 <= j < i ==> payload@[32 + j] == value@[j],
            forall|j: int|
                1 <= j < 128 && !(8 <= j < 8 + i) && !(32 <= j < 32 + i) ==> payload@[j] == 0,
        decreases 24 - i,
    {
        payload[8 + i] = key[i];
        payload[32 + i] = value[i];
        i += 1;
    }
    proof {
        assert forall|j: int| 0 <= j < 128 implies payload@[j] == put_image(key@, value@)[j] by {
            if 8 <= j < 32 {
                assert(payload@[8 + (j - 8)] == key@[j - 8]);
            } else if 32 <= j < 56 {
                assert(payload@[32 + (j - 32)] == value@[j - 32]);
            }
        }
    }
    assert(payload@ =~= put_image(key@, value@));
    assert(payload@.subrange(8, 32) =~= key@);
    assert(payload@.subrange(32, 56) =~= value@);
    payload
}

/// Zeroed slots hold no PUT.
proof fn lemma_nothing_pending(bytes: Seq<u8>, core: int, n: int)
    requires
        0 <= core,
        0 <= n,
        forall|i: int| 0 <= i < n ==> bytes[#[trigger] offset_of(core, i)] == 0,
    ensures
        pending_in(bytes, core, n) == Seq::<(Seq<u8>, Seq<u8>)>::empty(),
    decreases n,
{
    if n > 0 {
        assert(bytes[offset_of(core, n - 1)] == 0);
        lemma_nothing_pending(bytes, core, n - 1);
    }
}

/// The slots are laid out without gap or overlap: each is aligned to its size, all stand inside
/// the buffer, two of them stand at least a slot's size apart, neighbours exactly that, and the
/// first slot of a core follows the last one of the core before.
pub proof fn law_slots_tile_the_buffer(core: int, slot: int, core2: int, slot2: int)
    requires
        0 <= core < NUM_CORES,
        0 <= slot < SLOTS_PER_CORE,
        0 <= core2 < NUM_CORES,
        0 <= slot2 < SLOTS_PER_CORE,
    ensures
        offset_of(core, slot) % MSG_BYTES as int == 0,
        0 <= offset_of(core, slot) <= MSGBUF_BYTES - MSG_BYTES,
        (core, slot) != (core2, slot2) ==> {
            ||| offset_of(core, slot) + MSG_BYTES <= offset_of(core2, slot2)
            ||| offset_of(core2, slot2) + MSG_BYTES <= offset_of(core, slot)
        },
        offset_of(core, slot + 1) == offset_of(core, slot) + MSG_BYTES,
        offset_of(core + 1, 0) == offset_of(core, SLOTS_PER_CORE - 1) + MSG_BYTES,
{
}

/// What waits in the first slots of a core is no more than what waits in more of them.
pub proof fn lemma_pending_grows(bytes: Seq<u8>, core: int, m: int, n: int)
    requires
        m <= n,
    ensures
        pending_in(bytes, core, m).len() <= pending_in(bytes, core, n).len(),
    decreases n,
{
    if m < n && n > 0 {
        lemma_pending_grows(bytes, core, m, n - 1);
    }
}

/// No more PUTs wait than there are slots.
pub proof fn lemma_pending_at_most(bytes: Seq<u8>, core: int, n: int)
    requires
        0 <= n,
    ensures
        pending_in(bytes, core, n).len() <= n,
    decreases n,
{
    if n > 0 {
        lemma_pending_at_most(bytes, core, n - 1);
    }
}

/// What waits in the first `n` slots of a core depends on those slots alone.
proof fn lemma_pending_depends(a: Seq<u8>, b: Seq<u8>, core: int, n: int)
    requires
        forall|i: int|
            0 <= i < n ==> msg_at(a, #[trigger] offset_of(core, i)) == msg_at(
                b,
                offset_of(core, i),
            ),
    ensures
        pending_in(a, core, n) == pending_in(b, core, n),
    decreases n,
{
    if n > 0 {
        assert(msg_at(a, offset_of(core, n - 1)) == msg_at(b, offset_of(core, n - 1)));
        lemma_pending_depends(a, b, core, n - 1);
    }
}

/// After a sweep of a core nothing waits for it, and what waits for the other cores is as before.
pub proof fn law_sweep_empties_its_core(bytes: Seq<u8>, core: int, other: int)
    requires
        bytes.len() >= MSGBUF_BYTES,
        0 <= core < NUM_CORES,
        0 <= other < NUM_CORES,
    ensures
        ({
            let after = freed_in(bytes, core, SLOTS_PER_CORE as int);
            &&& pending_in(after, core, SLOTS_PER_CORE as int) == Seq::<
                (Seq<u8>, Seq<u8>),
            >::empty()
            &&& other != core ==> pending_in(after, other, SLOTS_PER_CORE as int) == pending_in(
                bytes,
                other,
                SLOTS_PER_CORE as int,
            )
        }),
{
    let after = freed_in(bytes, core, SLOTS_PER_CORE as int);
    lemma_nothing_pending(after, core, SLOTS_PER_CORE as int);
    if other != core {
        assert forall|i: int| 0 <= i < SLOTS_PER_CORE implies msg_at(
            after,
            #[trigger] offset_of(other, i),
        ) == msg_at(bytes, offset_of(other, i)) by {
            let at = offset_of(other, i);
            assert(after.subrange(at + 8, at + 32) =~= bytes.subrange(at + 8, at + 32));
            assert(after.subrange(at + 32, at + 56) =~= bytes.subrange(at + 32, at + 56));
        }
        lemma_pending_depends(after, bytes, other, SLOTS_PER_CORE as int);
    }
}

/// A payload that arrives in a slot is that slot's pair, and touches no other slot.
proof fn lemma_payload_arrives(
    bytes: Seq<u8>,
    core: int,
    slot: int,
    key: Seq<u8>,
    value: Seq<u8>,
    core2: int,
    slot2: int,
)
    requires
        bytes.len() >= MSGBUF_BYTES,
        0 <= core < NUM_CORES,
        0 <= slot < SLOTS_PER_CORE,
        0 <= core2 < NUM_CORES,
        0 <= slot2 < SLOTS_PER_CORE,
        key.len() == 24,
        value.len() == 24,
    ensures
        ({
            let after = region::splice(bytes, offset_of(core, slot), put_image(key, value));
            msg_at(after, offset_of(core2, slot2)) == (if (core, slot) == (core2, slot2) {
                MsgState { magic: PUT_MAGIC, key, value }
            } else {
                msg_at(bytes, offset_of(core2, slot2))
            })
        }),
{
    let at = offset_of(core, slot);
    let at2 = offset_of(core2, slot2);
    let after = region::splice(bytes, at, put_image(key, value));
    law_slots_tile_the_buffer(core, slot, core2, slot2);
    if (core, slot) == (core2, slot2) {
        assert(after.subrange(at + 8, at + 32) =~= key);
        assert(after.subrange(at + 32, at + 56) =~= value);
    } else {
        assert(after.subrange(at2 + 8, at2 + 32) =~= bytes.subrange(at2 + 8, at2 + 32));
        assert(after.subrange(at2 + 32, at2 + 56) =~= bytes.subrange(at2 + 32, at2 + 56));
    }
}

proof fn lemma_payload_is_pending(
    bytes: Seq<u8>,
    core: int,
    slot: int,
    key: Seq<u8>,
    value: Seq<u8>,
    n: int,
)
    requires
        bytes.len() >= MSGBUF_BYTES,
        0 <= core < NUM_CORES,
        0 <= slot < SLOTS_PER_CORE,
        slot < n <= SLOTS_PER_CORE,
        key.len() == 24,
        value.len() == 24,
        bytes[offset_of(core, slot)] == 0,
    ensures
        ({
            let after = region::splice(bytes, offset_of(core, slot), put_image(key, value));
            &&& pending_in(bytes, core, slot).len() <= pending_in(bytes, core, n).len()
            &&& pending_in(after, core, n) == pending_in(bytes, core, n).insert(
                pending_in(bytes, core, slot).len() as int,
                (key, value),
            )
        }),
    decreases n,
{
    let after = region::splice(bytes, offset_of(core, slot), put_image(key, value));
    let here = pending_in(bytes, core, slot);
    lemma_payload_arrives(bytes, core, slot, key, value, core, n - 1);
    if n == slot + 1 {
        assert forall|i: int| 0 <= i < slot implies msg_at(after, #[trigger] offset_of(core, i))
            == msg_at(bytes, offset_of(core, i)) by {
            lemma_payload_arrives(bytes, core, slot, key, value, core, i);
        }
        lemma_pending_depends(after, bytes, core, slot);
        assert(pending_in(bytes, core, n) == here);
        assert(here.insert(here.len() as int, (key, value)) =~= here.push((key, value)));
    } else {
        lemma_payload_is_pending(bytes, core, slot, key, value, n - 1);
        let so_far = pending_in(bytes, core, n - 1);
        let msg = msg_at(bytes, offset_of(core, n - 1));
        assert(so_far.insert(here.len() as int, (key, value)).push((msg.key, msg.value))
            =~= so_far.push((msg.key, msg.value)).insert(here.len() as int, (key, value)));
    }
}

/// A payload that a client writes to a free slot is found by the sweep of the slot's core, in its
/// place in slot order; what waits otherwise, for that core and for the others, is as before.
pub proof fn law_payload_is_pending(
    bytes: Seq<u8>,
    core: int,
    slot: int,
    key: Seq<u8>,
    value: Seq<u8>,
    other: int,
)
    requires
        bytes.len() >= MSGBUF_BYTES,
        0 <= core < NUM_CORES,
        0 <= slot < SLOTS_PER_CORE,
        0 <= other < NUM_CORES,
        key.len() == 24,
        value.len() == 24,
        bytes[offset_of(core, slot)] == 0,
    ensures
        ({
            let all = SLOTS_PER_CORE as int;
            let after = region::splice(bytes, offset_of(core, slot), put_image(key, value));
            &&& pending_in(after, core, all) == pending_in(bytes, core, all).insert(
                pending_in(bytes, core, slot).len() as int,
                (key, value),
            )
            &&& other != core ==> pending_in(after, other, all) == pending_in(bytes, other, all)
        }),
{
    let after = region::splice(bytes, offset_of(core, slot), put_image(key, value));
    lemma_payload_is_pending(bytes, core, slot, key, value, SLOTS_PER_CORE as int);
    if other != core {
        assert forall|i: int| 0 <= i < SLOTS_PER_CORE implies msg_at(
            after,
            #[trigger] offset_of(other, i),
        ) == msg_at(bytes, offset_of(other, i)) by {
            lemma_payload_arrives(bytes, core, slot, key, value, other, i);
        }
        lemma_pending_depends(after, bytes, other, SLOTS_PER_CORE as int);
    }
}

/// What waits in the first `n` slots of a core are the pairs of those of them whose magic byte is
/// not zero, whatever else it is: each once, in slot order. `at` are the numbers of these slots.
pub proof fn law_pending_lists_every_put(bytes: Seq<u8>, core: int, n: int) -> (at: Seq<int>)
    requires
        0 <= n,
    ensures
        at.len() == pending_in(bytes, core, n).len(),
        forall|q: int|
            #![trigger at[q]]
            0 <= q < at.len() ==> {
                let base = (core * 64 + at[q]) * 128;
                &&& 0 <= at[q] < n
                &&& bytes[base] != 0
                &&& pending_in(bytes, core, n)[q] == (
                    bytes.subrange(base + 8, base + 32),
                    bytes.subrange(base + 32, base + 56),
                )
            },
        forall|q: int, r: int| 0 <= q < r < at.len() ==> #[trigger] at[q] < #[trigger] at[r],
        forall|slot: int|
            0 <= slot < n && bytes[(core * 64 + slot) * 128] != 0 ==> #[trigger] at.contains(slot),
    decreases n,
{
    if n == 0 {
        Seq::empty()
    } else {
        let before = law_pending_lists_every_put(bytes, core, n - 1);
        if bytes[offset_of(core, n - 1)] != 0 {
            let at = before.push(n - 1);
            assert forall|slot: int|
                0 <= slot < n && bytes[(core * 64 + slot) * 128]
                    != 0 implies #[trigger] at.contains(slot) by {
                if slot == n - 1 {
                    assert(at[before.len() as int] == slot);
                } else {
                    assert(before.contains(slot));
                    let q = choose|q: int| 0 <= q < before.len() && before[q] == slot;
                    assert(at[q] == slot);
                }
            }
            at
        } else {
            before
        }
    }
}

/// A sweep of a core clears the magic bytes of its slots, and changes no other byte.
pub proof fn law_sweep_clears_magic_bytes_only(bytes: Seq<u8>, core: int, i: int)
    requires
        bytes.len() >= MSGBUF_BYTES,
        0 <= core < NUM_CORES,
        0 <= i < bytes.len(),
    ensures
        freed_in(bytes, core, SLOTS_PER_CORE as int).len() == bytes.len(),
        freed_in(bytes, core, SLOTS_PER_CORE as int)[i] == (if i % 128 == 0 && i / 128 / 64
            == core {
            0
        } else {
            bytes[i]
        }),
{
}

/// What a sweep loads of a slot: the magic byte before all else, and, where that is set, behind a
/// fence the 48 bytes of the pair.
pub proof fn law_message_is_loaded_in_order(at: int, msg: MsgState)
    ensures
        ({
            let acts = message_acts(at, msg);
            &&& acts[0] == Act::Byte(at)
            &&& msg.magic == 0 ==> acts.len() == 1
            &&& msg.magic != 0 ==> {
                &&& acts.len() == 50
                &&& acts[1] == Act::Acquire
                &&& forall|k: int| 0 <= k < 48 ==> #[trigger] acts[2 + k] == Act::Byte(at + 8 + k)
            }
        }),
{
}

/// A list that takes PUTs one after the other has them at its end, in their order, behind what it
/// had before.
pub proof fn law_list_takes_all(
    before: Vec<([u8; 24], [u8; 24])>,
    puts: Seq<(Seq<u8>, Seq<u8>)>,
    after: Vec<([u8; 24], [u8; 24])>,
)
    requires
        takes_all(before, puts, after),
    ensures
        after@.len() == before@.len() + puts.len(),
        after@.take(before@.len() as int) == before@,
        forall|i: int|
            #![trigger puts[i]]
            0 <= i < puts.len() ==> (
                after@[before@.len() + i].0@,
                after@[before@.len() + i].1@,
            ) == puts[i],
{
    let states = choose|states: Seq<Vec<([u8; 24], [u8; 24])>>|
        takes_via(before, puts, after, states);
    lemma_list_takes(before, puts, states, puts.len() as int);
}

proof fn lemma_list_takes(
    before: Vec<([u8; 24], [u8; 24])>,
    puts: Seq<(Seq<u8>, Seq<u8>)>,
    states: Seq<Vec<([u8; 24], [u8; 24])>>,
    n: int,
)
    requires
        0 <= n <= puts.len(),
        takes_via(before, puts, states[puts.len() as int], states),
    ensures
        states[n]@.len() == before@.len() + n,
        states[n]@.take(before@.len() as int) == before@,
        forall|i: int|
            #![trigger puts[i]]
            0 <= i < n ==> (
                states[n]@[before@.len() + i].0@,
                states[n]@[before@.len() + i].1@,
            ) == puts[i],
    decreases n,
{
    if n == 0 {
        assert(before@.take(before@.len() as int) =~= before@);
    } else {
        lemma_list_takes(before, puts, states, n - 1);
        let put = puts[n - 1];
        let was = states[n - 1]@;
        let now = states[n - 1 + 1]@;
        assert(now.drop_last() == was);
        assert(now.take(before@.len() as int) =~= was.take(before@.len() as int));
        assert forall|i: int|
            #![trigger puts[i]]
            0 <= i < n implies (
            states[n]@[before@.len() + i].0@,
            states[n]@[before@.len() + i].1@,
        ) == puts[i] by {
            if i < n - 1 {
                assert(now[before@.len() + i] == was[before@.len() + i]);
            }
        }
    }
}

/// A region that allows nothing but to clear, behind a fence, the magic byte of a slot can be
/// swept: a sweep takes no other step.
pub proof fn law_a_sweep_only_clears_magic_bytes<R: Region>(mem: &R)
    requires
        forall|from: Seq<u8>, to: Seq<u8>, fenced: bool| #[trigger]
            mem.allowed(from, to, fenced) == (fenced && exists|i: int|
                0 <= i < 512 && to == #[trigger] from.update(128 * i, 0u8)),
    ensures
        may_free_slots(mem),
{
    assert forall|bytes: Seq<u8>, core: int, slot: int|
        bytes.len() == mem.bytes().len() && 0 <= core < NUM_CORES && 0 <= slot
            < SLOTS_PER_CORE implies #[trigger] may_free(mem, bytes, core, slot) by {
        let i = core * 64 + slot;
        assert(offset_of(core, slot) == 128 * i);
        let to = bytes.update(128 * i, 0u8);
        assert(mem.allowed(bytes, to, true));
    }
}

/// A region that allows nothing but to store the bytes of a pair, and then, behind a fence, its
/// magic byte, can take a message: the magic byte shows after all of the pair.
pub proof fn law_a_message_shows_its_pair_first<R: Region>(
    mem: &R,
    bytes: Seq<u8>,
    at: int,
    msg: MsgState,
)
    requires
        0 <= at,
        at + 128 <= bytes.len(),
        msg.key.len() == 24,
        msg.value.len() == 24,
        forall|from: Seq<u8>, to: Seq<u8>, fenced: bool| #[trigger]
            mem.allowed(from, to, fenced) == {
                ||| exists|i: int|
                    at + 8 <= i < at + 56 && to == #[trigger] from.update(
                        i,
                        (msg.key + msg.value)[i - at - 8],
                    )
                ||| fenced && from.subrange(at + 8, at + 56) == msg.key + msg.value && to
                    == from.update(at, msg.magic)
            },
    ensures
        may_deposit(mem, bytes, at, msg),
{
    let pair = msg.key + msg.value;
    let filled = region::splice(bytes, at + 8, pair);
    assert forall|k: int, fenced: bool| 0 <= k < 48 implies #[trigger] region::may_copy(
        mem,
        bytes,
        at + 8,
        pair,
        k,
        fenced,
    ) by {
        let from = region::partly(bytes, at + 8, pair, k);
        let to = region::partly(bytes, at + 8, pair, k + 1);
        assert(to =~= from.update(at + 8 + k, pair[at + 8 + k - at - 8]));
        assert(mem.allowed(from, to, fenced));
    }
    assert(filled.subrange(at + 8, at + 56) =~= pair);
    assert(mem.allowed(filled, filled.update(at, msg.magic), true));
}

/// What waits for a core is what waits in its 64 slots.
pub proof fn law_pending_of_a_core<R: Region>(buf: &MsgBuf<R>, core: int)
    ensures
        buf.pending(core) == pending_in(buf.mem.bytes(), core, 64),
{
}

} // verus!
