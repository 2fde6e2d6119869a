//! The table: slots of 64 bytes in registered memory, written under a sequence lock.
//!
//! A slot is laid out as
//!
//! | bytes  | field    |                                        |
//! |--------|----------|----------------------------------------|
//! | 0..4   | `ver_lo` | version, low half of the sequence lock |
//! | 4..8   | `ver_hi` | version, high half                     |
//! | 8..32  | `key`    |                                        |
//! | 32..56 | `value`  |                                        |
//! | 56..64 |          | padding                                |
//!
//! A table of capacity `cap` is `cap` slots of half A followed by `cap` slots of half B.

use vstd::prelude::*;

use crate::cuckoo;
use crate::cuckoo::{SlotState, WriteStage};
use crate::hash::{h1, h2, slot_index};
use crate::look;
use crate::look::{Act, Look};
use crate::region;
use crate::region::{load_block, same_block, store_pair, Lines, Region};

verus! {

/// The size of a slot.
pub const SLOT_BYTES: usize = 64;

/// How often a reader tries a slot before it reports it as torn.
pub const MAX_READ_ATTEMPTS: usize = 16;

/// One slot, taken out of memory.
pub struct Slot {
    pub ver_lo: u32,
    pub ver_hi: u32,
    pub key: [u8; 24],
    pub value: [u8; 24],
    pub _pad: [u8; 8],
}

impl View for Slot {
    type V = SlotState;

    open spec fn view(&self) -> SlotState {
        SlotState {
            ver_lo: self.ver_lo,
            ver_hi: self.ver_hi,
            key: self.key@,
            value: self.value@,
        }
    }
}

/// The slot that memory holds from byte `at` on.
pub open spec fn state_at(bytes: Seq<u8>, at: int) -> SlotState {
    SlotState {
        ver_lo: region::le32(bytes, at),
        ver_hi: region::le32(bytes, at + 4),
        key: bytes.subrange(at + 8, at + 32),
        value: bytes.subrange(at + 32, at + 56),
    }
}

/// The 56 bytes that a write leaves in a slot.
pub open spec fn slot_image(version: u32, key: Seq<u8>, value: Seq<u8>) -> Seq<u8> {
    region::le32_bytes(version) + region::le32_bytes(version) + key + value
}

/// Memory after a whole write to the slot at byte `at`.
pub open spec fn write_image(bytes: Seq<u8>, at: int, key: Seq<u8>, value: Seq<u8>) -> Seq<u8> {
    region::splice(bytes, at, slot_image(state_at(bytes, at).next_version(), key, value))
}

impl Slot {
    /// A slot that was never written.
    pub fn zeroed() -> (slot: Self)
        ensures
            slot@ == (SlotState {
                ver_lo: 0,
                ver_hi: 0,
                key: Seq::new(24, |i: int| 0u8),
                value: Seq::new(24, |i: int| 0u8),
            }),
            slot._pad@ == Seq::new(8, |i: int| 0u8),
            !slot@.occupied(),
    {
        let slot = Slot {
            ver_lo: 0,
            ver_hi: 0,
            key: [0u8; 24],
            value: [0u8; 24],
            _pad: [0u8; 8],
        };
        assert(slot.key@ =~= Seq::new(24, |i: int| 0u8));
        assert(slot.value@ =~= Seq::new(24, |i: int| 0u8));
        assert(slot._pad@ =~= Seq::new(8, |i: int| 0u8));
        slot
    }

    /// True if a completed write stands in this slot: the low version is even and not zero.
    #[inline]
    pub fn is_occupied(&self) -> (occupied: bool)
        ensures
            occupied == self@.occupied(),
    {
        self.ver_lo != 0 && is_even(self.ver_lo)
    }

    /// True if no write to this slot is under way: its versions agree and are even.
    #[inline]
    pub fn is_at_rest(&self) -> (at_rest: bool)
        ensures
            at_rest == self@.at_rest(),
    {
        self.ver_lo == self.ver_hi && is_even(self.ver_lo)
    }

    /// Takes the slot at byte `at` out of memory; its padding is left behind.
    pub fn load<R: Region>(mem: &R, at: usize) -> (slot: Self)
        requires
            at + SLOT_BYTES <= mem.bytes().len(),
        ensures
            slot@ == state_at(mem.bytes(), at as int),
            slot.ver_lo == region::le32(mem.bytes(), at as int),
            slot.ver_hi == region::le32(mem.bytes(), at + 4),
            slot.key@ == mem.bytes().subrange(at + 8, at + 32),
            slot.value@ == mem.bytes().subrange(at + 32, at + 56),
            slot._pad@ == Seq::new(8, |i: int| 0u8),
    {
        let _size: usize = mem.size();
        Slot {
            ver_lo: mem.load_u32(at),
            ver_hi: mem.load_u32(at + 4),
            key: load_block(mem, at + 8),
            value: load_block(mem, at + 32),
            ..Slot::zeroed()
        }
    }
}

fn is_even(version: u32) -> (even: bool)
    ensures
        even == (version % 2 == 0),
{
    assert((version & 1 == 0) == (version % 2 == 0)) by (bit_vector);
    version & 1 == 0
}

/// The versions of a write to a slot whose low version is `ver_lo`: while it goes on, and after.
fn write_versions(ver_lo: u32) -> (versions: (u32, u32))
    ensures
        versions.0 == ver_lo / 2 * 2 + 1,
        versions.1 == ((ver_lo / 2 * 2 + 2) % 0x1_0000_0000) as u32,
{
    assert(ver_lo & !1u32 == ver_lo / 2 * 2) by (bit_vector);
    let seq_odd: u32 = (ver_lo & !1u32).wrapping_add(1);
    let seq_even: u32 = seq_odd.wrapping_add(1);
    (seq_odd, seq_even)
}

/// Writes a pair to a slot and moves its version on.
pub fn write_slot(slot: &mut Slot, key: &[u8; 24], val: &[u8; 24])
    ensures
        final(slot)@ == old(slot)@.written(key@, val@),
        final(slot)._pad == old(slot)._pad,
{
    let (seq_odd, seq_even) = write_versions(slot.ver_lo);
    slot.ver_lo = seq_odd;
    slot.key = *key;
    slot.value = *val;
    slot.ver_lo = seq_even;
    slot.ver_hi = seq_even;
}

/// Reads the pair of a slot: `None` if the slot was never written, is being written, or was
/// torn, which shows in versions that do not agree.
pub fn read_slot(slot: &Slot) -> (pair: Option<([u8; 24], [u8; 24])>)
    ensures
        match pair {
            Some((k, v)) => slot@.read() == Some((k@, v@)),
            None => slot@.read() is None,
        },
{
    if slot.is_occupied() && slot.ver_lo == slot.ver_hi {
        Some((slot.key, slot.value))
    } else {
        None
    }
}

/// Memory once a write to the slot at byte `at` has begun: its low version is odd.
pub open spec fn begun_image(bytes: Seq<u8>, at: int) -> Seq<u8> {
    region::splice(bytes, at, region::le32_bytes(state_at(bytes, at).write_version()))
}

/// Memory once the pair is in its place, too.
pub open spec fn filled_image(bytes: Seq<u8>, at: int, key: Seq<u8>, value: Seq<u8>) -> Seq<u8> {
    region::splice(begun_image(bytes, at), at + 8, key + value)
}

/// Memory once the low half shows the new version, too.
pub open spec fn low_image(bytes: Seq<u8>, at: int, key: Seq<u8>, value: Seq<u8>) -> Seq<u8> {
    region::splice(
        filled_image(bytes, at, key, value),
        at,
        region::le32_bytes(state_at(bytes, at).next_version()),
    )
}

/// Whether a region allows the steps of one write of a pair to the slot at byte `at`, from the
/// memory `bytes` on: the low version turns odd; behind a fence, the pair is copied in, one byte
/// after the other; behind a fence, the low half shows the new version; then the high half does.
///
/// This is all that a write of the slot may take from its region, so that it has no other way than
/// these steps in this order.
pub open spec fn may_write<R: Region>(
    mem: &R,
    bytes: Seq<u8>,
    at: int,
    key: Seq<u8>,
    value: Seq<u8>,
) -> bool {
    &&& forall|fenced: bool| #[trigger] mem.allowed(bytes, begun_image(bytes, at), fenced)
    &&& forall|k: int, fenced: bool|
        0 <= k < 48 && (k > 0 || fenced) ==> #[trigger] region::may_copy(
            mem,
            begun_image(bytes, at),
            at + 8,
            key + value,
            k,
            fenced,
        )
    &&& mem.allowed(
        filled_image(bytes, at, key, value),
        low_image(bytes, at, key, value),
        true,
    )
    &&& forall|fenced: bool| #[trigger]
        mem.allowed(
            low_image(bytes, at, key, value),
            write_image(bytes, at, key, value),
            fenced,
        )
}

/// Marks the slot at byte `at` as being written, and returns the version to publish at the end.
pub fn begin_write<R: Region>(mem: &mut R, at: usize) -> (seq_even: u32)
    requires
        at + SLOT_BYTES <= old(mem).bytes().len(),
        old(mem).allowed(
            old(mem).bytes(),
            begun_image(old(mem).bytes(), at as int),
            old(mem).fenced(),
        ),
    ensures
        seq_even == state_at(old(mem).bytes(), at as int).next_version(),
        final(mem).bytes() == begun_image(old(mem).bytes(), at as int),
        region::same_rules(final(mem), old(mem)),
{
    let (seq_odd, seq_even) = write_versions(mem.load_u32(at));
    mem.store_u32(at, seq_odd);
    seq_even
}

/// Copies a pair into the slot at byte `at`, byte by byte.
pub fn fill_slot<R: Region>(mem: &mut R, at: usize, key: &[u8; 24], val: &[u8; 24])
    requires
        at + SLOT_BYTES <= old(mem).bytes().len(),
        forall|k: int, fenced: bool|
            0 <= k < 48 && (k > 0 || fenced == old(mem).fenced()) ==> #[trigger] region::may_copy(
                old(mem),
                old(mem).bytes(),
                at + 8,
                key@ + val@,
                k,
                fenced,
            ),
    ensures
        final(mem).bytes() == region::splice(old(mem).bytes(), at + 8, key@ + val@),
        region::same_rules(final(mem), old(mem)),
{
    let _size: usize = mem.size();
    store_pair(mem, at + 8, key, val);
}

/// Publishes the low version of a write.
pub fn publish_lo<R: Region>(mem: &mut R, at: usize, seq_even: u32)
    requires
        at + SLOT_BYTES <= old(mem).bytes().len(),
        old(mem).allowed(
            old(mem).bytes(),
            region::splice(old(mem).bytes(), at as int, region::le32_bytes(seq_even)),
            old(mem).fenced(),
        ),
    ensures
        final(mem).bytes() == region::splice(
            old(mem).bytes(),
            at as int,
            region::le32_bytes(seq_even),
        ),
        region::same_rules(final(mem), old(mem)),
{
    mem.store_u32(at, seq_even);
}

/// Publishes the high version of a write: the slot is whole again.
pub fn publish_hi<R: Region>(mem: &mut R, at: usize, seq_even: u32)
    requires
        at + SLOT_BYTES <= old(mem).bytes().len(),
        old(mem).allowed(
            old(mem).bytes(),
            region::splice(old(mem).bytes(), at + 4, region::le32_bytes(seq_even)),
            old(mem).fenced(),
        ),
    ensures
        final(mem).bytes() == region::splice(
            old(mem).bytes(),
            at + 4,
            region::le32_bytes(seq_even),
        ),
        region::same_rules(final(mem), old(mem)),
{
    let _size: usize = mem.size();
    mem.store_u32(at + 4, seq_even);
}

/// Writes a pair to the slot at byte `at` under its sequence lock: an odd low version first,
/// then the pair, then the new version in the low half and in the high half.
///
/// A slot has one writer at a time.
pub fn write_slot_at<R: Region>(mem: &mut R, at: usize, key: &[u8; 24], val: &[u8; 24])
    requires
        at + SLOT_BYTES <= old(mem).bytes().len(),
        may_write(old(mem), old(mem).bytes(), at as int, key@, val@),
    ensures
        final(mem).bytes() == write_image(old(mem).bytes(), at as int, key@, val@),
        region::same_rules(final(mem), old(mem)),
{
    let ghost bytes = mem.bytes();
    let ghost block = key@ + val@;
    proof {
        law_steps_of_a_write(bytes, at as int, key@, val@);
    }
    assert(mem.allowed(bytes, begun_image(bytes, at as int), mem.fenced()));
    let seq_even: u32 = begin_write(mem, at);
    mem.release();
    assert forall|k: int, fenced: bool|
        0 <= k < 48 && (k > 0 || fenced == mem.fenced()) implies #[trigger] region::may_copy(
        mem,
        mem.bytes(),
        at + 8,
        block,
        k,
        fenced,
    ) by {
        assert(region::may_copy(
            old(mem),
            begun_image(bytes, at as int),
            at + 8,
            block,
            k,
            fenced,
        ));
    }
    fill_slot(mem, at, key, val);
    mem.release();
    assert(old(mem).allowed(mem.bytes(), low_image(bytes, at as int, key@, val@), true));
    publish_lo(mem, at, seq_even);
    assert(old(mem).allowed(
        mem.bytes(),
        write_image(bytes, at as int, key@, val@),
        mem.fenced(),
    ));
    publish_hi(mem, at, seq_even);
}

/// What a reader does in one attempt at the slot at byte `at`, which holds `slot`: it takes the low
/// version; where that shows a pair, it takes the pair behind a fence, and behind another fence the
/// high version. An attempt that gives no pair ends with a pause.
pub open spec fn attempt_acts(at: int, slot: SlotState) -> Seq<Act> {
    let parts = if slot.occupied() {
        seq![Act::Word(at), Act::Acquire] + look::byte_loads(at + 8, 24) + look::byte_loads(
            at + 32,
            24,
        ) + seq![Act::Acquire, Act::Word(at + 4)]
    } else {
        seq![Act::Word(at)]
    };
    if slot.read() is Some {
        parts
    } else {
        parts.push(Act::Pause)
    }
}

/// What a reader does in `n` attempts.
pub open spec fn attempts_acts(at: int, slot: SlotState, n: nat) -> Seq<Act>
    decreases n,
{
    if n == 0 {
        Seq::empty()
    } else {
        attempts_acts(at, slot, (n - 1) as nat) + attempt_acts(at, slot)
    }
}

/// One attempt at the slot at byte `at`.
pub fn attempt_slot<R: Region>(look: &mut Look<R>, at: usize) -> (pair: Option<
    ([u8; 24], [u8; 24]),
>)
    requires
        at + SLOT_BYTES <= old(look).bytes().len(),
    ensures
        match pair {
            Some((k, v)) => state_at(old(look).bytes(), at as int).read() == Some((k@, v@)),
            None => state_at(old(look).bytes(), at as int).read() is None,
        },
        final(look).bytes() == old(look).bytes(),
        final(look).log() == old(look).log() + attempt_acts(
            at as int,
            state_at(old(look).bytes(), at as int),
        ),
{
    let _size: usize = look.size();
    let ghost acts = attempt_acts(at as int, state_at(look.bytes(), at as int));
    let lo: u32 = look.word(at);
    if lo != 0 && is_even(lo) {
        look.acquire();
        let key = look.block(at + 8);
        let value = look.block(at + 32);
        look.acquire();
        let hi: u32 = look.word(at + 4);
        if lo == hi {
            assert(look.log() =~= old(look).log() + acts);
            return Some((key, value));
        }
    }
    look.pause();
    assert(look.log() =~= old(look).log() + acts);
    None
}

/// Reads the pair of the slot at byte `at`. A slot that shows no clean pair is tried again, as
/// another party may be writing it, sixteen times in all.
pub fn look_at_slot<R: Region>(look: &mut Look<R>, at: usize) -> (pair: Option<
    ([u8; 24], [u8; 24]),
>)
    requires
        at + SLOT_BYTES <= old(look).bytes().len(),
    ensures
        match pair {
            Some((k, v)) => state_at(old(look).bytes(), at as int).read() == Some((k@, v@)),
            None => state_at(old(look).bytes(), at as int).read() is None,
        },
        final(look).bytes() == old(look).bytes(),
        final(look).log() == old(look).log() + attempts_acts(
            at as int,
            state_at(old(look).bytes(), at as int),
            if pair is Some {
                1
            } else {
                MAX_READ_ATTEMPTS as nat
            },
        ),
{
    let ghost slot = state_at(look.bytes(), at as int);
    let mut attempt: usize = 0;
    assert(old(look).log() + attempts_acts(at as int, slot, 0) =~= old(look).log());
    while attempt < MAX_READ_ATTEMPTS
        invariant
            at + SLOT_BYTES <= look.bytes().len(),
            look.bytes() == old(look).bytes(),
            slot == state_at(old(look).bytes(), at as int),
            attempt <= MAX_READ_ATTEMPTS,
            attempt > 0 ==> slot.read() is None,
            look.log() == old(look).log() + attempts_acts(at as int, slot, attempt as nat),
        decreases MAX_READ_ATTEMPTS - attempt,
    {
        let pair = attempt_slot(look, at);
        assert(look.log() =~= old(look).log() + attempts_acts(
            at as int,
            slot,
            (attempt + 1) as nat,
        ));
        if pair.is_some() {
            return pair;
        }
        attempt += 1;
    }
    None
}

/// Reads the pair of the slot at byte `at`, as `look_at_slot` does.
pub fn read_slot_at<R: Region>(mem: &R, at: usize) -> (pair: Option<([u8; 24], [u8; 24])>)
    requires
        at + SLOT_BYTES <= mem.bytes().len(),
    ensures
        match pair {
            Some((k, v)) => state_at(mem.bytes(), at as int).read() == Some((k@, v@)),
            None => state_at(mem.bytes(), at as int).read() is None,
        },
{
    look_at_slot(&mut Look::new(mem), at)
}

/// A whole write moves the slot on to the pair it wrote, and no other slot.
pub proof fn lemma_write_image(
    bytes: Seq<u8>,
    at: int,
    key: Seq<u8>,
    value: Seq<u8>,
    other: int,
)
    requires
        0 <= at,
        at + SLOT_BYTES <= bytes.len(),
        key.len() == 24,
        value.len() == 24,
    ensures
        write_image(bytes, at, key, value).len() == bytes.len(),
        state_at(write_image(bytes, at, key, value), at) == state_at(bytes, at).written(
            key,
            value,
        ),
        0 <= other && other + SLOT_BYTES <= bytes.len() && (other + SLOT_BYTES <= at || at
            + SLOT_BYTES <= other) ==> state_at(write_image(bytes, at, key, value), other)
            == state_at(bytes, other),
{
    let version = state_at(bytes, at).next_version();
    let after = write_image(bytes, at, key, value);
    let low = region::splice(bytes, at, region::le32_bytes(version));
    region::lemma_le32_round_trip(bytes, at, version);
    region::lemma_le32_round_trip(bytes, at + 4, version);
    let high = region::splice(bytes, at + 4, region::le32_bytes(version));
    assert(forall|i: int| at <= i < at + 4 ==> after[i] == low[i]);
    assert(forall|i: int| at + 4 <= i < at + 8 ==> after[i] == high[i]);
    assert(after.subrange(at + 8, at + 32) =~= key);
    assert(after.subrange(at + 32, at + 56) =~= value);
    if 0 <= other && other + SLOT_BYTES <= bytes.len() && (other + SLOT_BYTES <= at || at
        + SLOT_BYTES <= other) {
        assert(after.subrange(other + 8, other + 32) =~= bytes.subrange(other + 8, other + 32));
        assert(after.subrange(other + 32, other + 56) =~= bytes.subrange(other + 32, other + 56));
    }
}

/// The steps that `may_write` lists, which are those that `write_slot_at` takes, in order, are the
/// stages of a write to the slot: its low version turns odd, the pair is copied in, then the new
/// version shows in the low half, and last in the high half.
#[verifier::spinoff_prover]
pub proof fn law_steps_of_a_write(bytes: Seq<u8>, at: int, key: Seq<u8>, value: Seq<u8>)
    requires
        0 <= at,
        at + SLOT_BYTES <= bytes.len(),
        key.len() == 24,
        value.len() == 24,
    ensures
        ({
            let slot = state_at(bytes, at);
            let begun = begun_image(bytes, at);
            let low = low_image(bytes, at, key, value);
            let high = region::splice(low, at + 4, region::le32_bytes(slot.next_version()));
            &&& state_at(begun, at) == (SlotState {
                ver_lo: cuckoo::low_at(slot, WriteStage::Begun),
                ver_hi: cuckoo::high_at(slot, WriteStage::Begun),
                ..slot
            })
            &&& forall|k: int|
                0 <= k <= 48 ==> {
                    let filling = state_at(
                        #[trigger] region::partly(begun, at + 8, key + value, k),
                        at,
                    );
                    &&& filling.ver_lo == cuckoo::low_at(slot, WriteStage::Filling)
                    &&& filling.ver_hi == cuckoo::high_at(slot, WriteStage::Filling)
                }
            &&& state_at(filled_image(bytes, at, key, value), at) == (SlotState {
                ver_lo: cuckoo::low_at(slot, WriteStage::Filled),
                ver_hi: cuckoo::high_at(slot, WriteStage::Filled),
                key,
                value,
            })
            &&& state_at(low, at) == (SlotState {
                ver_lo: cuckoo::low_at(slot, WriteStage::LowPublished),
                ver_hi: cuckoo::high_at(slot, WriteStage::LowPublished),
                key,
                value,
            })
            &&& high == write_image(bytes, at, key, value)
            &&& state_at(high, at) == slot.written(key, value)
        }),
{
    let slot = state_at(bytes, at);
    let odd = slot.write_version();
    let even = slot.next_version();
    let begun = begun_image(bytes, at);
    let filled = filled_image(bytes, at, key, value);
    let low = low_image(bytes, at, key, value);
    let high = region::splice(low, at + 4, region::le32_bytes(even));
    region::lemma_le32_round_trip(bytes, at, odd);
    region::lemma_le32_round_trip(filled, at, even);
    assert(begun.subrange(at + 8, at + 32) =~= bytes.subrange(at + 8, at + 32));
    assert(begun.subrange(at + 32, at + 56) =~= bytes.subrange(at + 32, at + 56));
    assert(filled.subrange(at + 8, at + 32) =~= key);
    assert(filled.subrange(at + 32, at + 56) =~= value);
    assert(low.subrange(at + 8, at + 32) =~= key);
    assert(low.subrange(at + 32, at + 56) =~= value);
    assert(high =~= write_image(bytes, at, key, value));
    lemma_write_image(bytes, at, key, value, at);
}

/// The slots of a table of capacity `cap`, half A first.
pub open spec fn slots_in(bytes: Seq<u8>, cap: nat) -> Seq<SlotState> {
    Seq::new(2 * cap, |i: int| state_at(bytes, i * SLOT_BYTES))
}

/// Two states of the memory of a table differ at most in what slots hold.
#[verifier::opaque]
pub open spec fn same_beside_slots(before: Seq<u8>, after: Seq<u8>, cap: nat) -> bool {
    &&& before.len() == after.len()
    &&& forall|i: int|
        #![trigger after[i]]
        0 <= i < after.len() && (i >= 2 * cap * SLOT_BYTES || i % 64 >= 56) ==> after[i]
            == before[i]
}

pub proof fn lemma_same_beside_slots(a: Seq<u8>, b: Seq<u8>, c: Seq<u8>, cap: nat)
    ensures
        same_beside_slots(a, a, cap),
        same_beside_slots(a, b, cap) && same_beside_slots(b, c, cap) ==> same_beside_slots(
            a,
            c,
            cap,
        ),
{
    reveal(same_beside_slots);
}

/// A whole write moves one slot of a table on.
#[verifier::spinoff_prover]
proof fn lemma_write_slots(bytes: Seq<u8>, cap: nat, i: int, key: Seq<u8>, value: Seq<u8>)
    requires
        0 <= i < 2 * cap,
        2 * cap * SLOT_BYTES <= bytes.len(),
        key.len() == 24,
        value.len() == 24,
    ensures
        ({
            let after = write_image(bytes, i * SLOT_BYTES, key, value);
            let slots = slots_in(bytes, cap);
            slots_in(after, cap) == slots.update(i, slots[i].written(key, value))
        }),
{
    let at = i * SLOT_BYTES;
    let after = write_image(bytes, at, key, value);
    let slots = slots_in(bytes, cap);
    let wanted = slots.update(i, slots[i].written(key, value));
    assert forall|j: int| 0 <= j < 2 * cap implies #[trigger] slots_in(after, cap)[j]
        == wanted[j] by {
        lemma_write_image(bytes, at, key, value, j * SLOT_BYTES);
    }
    assert(slots_in(after, cap) =~= wanted);
}

/// A whole write touches nothing beside slots.
#[verifier::spinoff_prover]
proof fn lemma_write_frame(bytes: Seq<u8>, cap: nat, i: int, key: Seq<u8>, value: Seq<u8>)
    requires
        0 <= i < 2 * cap,
        2 * cap * SLOT_BYTES <= bytes.len(),
        key.len() == 24,
        value.len() == 24,
    ensures
        same_beside_slots(bytes, write_image(bytes, i * SLOT_BYTES, key, value), cap),
{
    reveal(same_beside_slots);
}

/// Whether a region allows the write of a pair to slot `i`, from the memory `bytes` on.
pub open spec fn may_write_slot<R: Region>(
    mem: &R,
    bytes: Seq<u8>,
    i: int,
    key: Seq<u8>,
    value: Seq<u8>,
) -> bool {
    may_write(mem, bytes, i * SLOT_BYTES, key, value)
}

/// Whether a region allows to write the slots of a table of capacity `cap`, one whole write after
/// the other, whatever it holds.
pub open spec fn may_write_slots<R: Region>(mem: &R, cap: nat) -> bool {
    forall|bytes: Seq<u8>, i: int, key: Seq<u8>, value: Seq<u8>|
        bytes.len() == mem.bytes().len() && 0 <= i < 2 * cap && key.len() == 24 && value.len()
            == 24 ==> #[trigger] may_write_slot(mem, bytes, i, key, value)
}

/// What a region allows goes by its rules.
pub proof fn lemma_may_write_slots<R: Region>(a: &R, b: &R, cap: nat)
    requires
        may_write_slots(a, cap),
        region::same_rules(b, a),
        a.bytes().len() == b.bytes().len(),
    ensures
        may_write_slots(b, cap),
{
    assert forall|bytes: Seq<u8>, i: int, key: Seq<u8>, value: Seq<u8>|
        bytes.len() == b.bytes().len() && 0 <= i < 2 * cap && key.len() == 24 && value.len()
            == 24 implies #[trigger] may_write_slot(b, bytes, i, key, value) by {
        let at = i * SLOT_BYTES;
        assert(may_write_slot(a, bytes, i, key, value));
        assert forall|k: int, fenced: bool|
            0 <= k < 48 && (k > 0 || fenced) implies #[trigger] region::may_copy(
            b,
            begun_image(bytes, at),
            at + 8,
            key + value,
            k,
            fenced,
        ) by {
            assert(region::may_copy(a, begun_image(bytes, at), at + 8, key + value, k, fenced));
        }
    }
}

/// A cuckoo hash table in a region of memory: `cap` slots of half A, then `cap` of half B.
///
/// `Table::new` allocates the memory; `Table::from_mr` works in memory that the caller brings,
/// such as the buffer that is registered with a NIC.
pub struct Table<R: Region> {
    pub mem: R,
    pub cap: usize,
}

impl<R: Region> Table<R> {
    /// The capacity is a power of two; the memory has room for both halves, and allows to write
    /// their slots.
    pub open spec fn inv(&self) -> bool {
        &&& vstd::arithmetic::power2::is_pow2(self.cap as int)
        &&& self.cap > 0
        &&& 2 * self.cap * SLOT_BYTES <= self.mem.bytes().len()
        &&& may_write_slots(&self.mem, self.cap as nat)
    }

    /// The slots, half A first.
    pub open spec fn slots(&self) -> Seq<SlotState> {
        slots_in(self.mem.bytes(), self.cap as nat)
    }

    /// Every pair stands where lookups find it, and none stands twice.
    pub open spec fn well_formed(&self) -> bool {
        cuckoo::well_formed(self.slots(), self.cap as nat)
    }

    /// The pairs that lookups find.
    pub open spec fn dict(&self) -> Map<Seq<u8>, Seq<u8>> {
        cuckoo::dict(self.slots(), self.cap as nat)
    }

    /// The same table but for what slots hold: the padding of a slot and the memory behind the
    /// last one are as before, and so are the rules of the memory.
    pub open spec fn same_frame(&self, before: &Self) -> bool {
        &&& self.cap == before.cap
        &&& same_beside_slots(before.mem.bytes(), self.mem.bytes(), self.cap as nat)
        &&& region::same_rules(&self.mem, &before.mem)
    }

    /// Works in memory that the caller brings: at least `2 * cap` slots of it, at an address that
    /// is a multiple of a slot's size.
    ///
    /// What the memory holds stays; zeroed memory is an empty table.
    pub fn from_mr(buf: R, cap: usize) -> (table: Self)
        requires
            vstd::arithmetic::power2::is_pow2(cap as int),
            2 * cap * SLOT_BYTES <= buf.bytes().len(),
            buf.addr() % 64 == 0,
            may_write_slots(&buf, cap as nat),
        ensures
            table.inv(),
            table.mem == buf,
            table.cap == cap,
    {
        reveal(vstd::arithmetic::power2::is_pow2);
        Table { mem: buf, cap }
    }

    /// Gives the memory back.
    pub fn into_mr(self) -> (buf: R)
        ensures
            buf == self.mem,
    {
        self.mem
    }

    /// Where half A begins in the memory (for registration).
    pub fn slots_a_ptr(&self) -> (at: usize)
        ensures
            at == 0,
    {
        0
    }

    /// Where half B begins in the memory (for registration, and for `PeerInfo`).
    pub fn slots_b_ptr(&self) -> (at: usize)
        requires
            self.inv(),
        ensures
            at == self.cap * SLOT_BYTES,
    {
        let _size: usize = self.mem.size();
        self.cap * SLOT_BYTES
    }

    /// Takes the slot of number `i` out of memory.
    fn slot(&self, i: usize) -> (slot: Slot)
        requires
            self.inv(),
            i < 2 * self.cap,
        ensures
            slot@ == self.slots()[i as int],
    {
        let _size: usize = self.mem.size();
        Slot::load(&self.mem, i * SLOT_BYTES)
    }

    /// Writes a pair to the slot of number `i`.
    fn write(&mut self, i: usize, key: &[u8; 24], value: &[u8; 24])
        requires
            old(self).inv(),
            i < 2 * old(self).cap,
        ensures
            final(self).inv(),
            final(self).same_frame(old(self)),
            final(self).slots() == old(self).slots().update(
                i as int,
                old(self).slots()[i as int].written(key@, value@),
            ),
    {
        let _size: usize = self.mem.size();
        assert(may_write_slot(&self.mem, self.mem.bytes(), i as int, key@, value@));
        write_slot_at(&mut self.mem, i * SLOT_BYTES, key, value);
        proof {
            lemma_may_write_slots(&old(self).mem, &self.mem, self.cap as nat);
            let bytes = old(self).mem.bytes();
            lemma_write_slots(bytes, self.cap as nat, i as int, key@, value@);
            lemma_write_frame(bytes, self.cap as nat, i as int, key@, value@);
        }
    }

    /// Writes over the value of `key` where one of the slots `ia` of half A and `ib` of half B
    /// holds that key, A first. Returns whether one did.
    pub fn update_at(&mut self, ia: usize, ib: usize, key: &[u8; 24], value: &[u8; 24]) -> (
    updated: bool)
        requires
            old(self).inv(),
            ia < old(self).cap,
            ib < old(self).cap,
        ensures
            final(self).inv(),
            final(self).same_frame(old(self)),
            ({
                let slots = old(self).slots();
                let a = slots[ia as int];
                let b = slots[old(self).cap + ib];
                let in_a = a.occupied() && a.key == key@;
                let in_b = b.occupied() && b.key == key@;
                &&& updated == (in_a || in_b)
                &&& final(self).slots() == (if in_a {
                    slots.update(ia as int, a.written(key@, value@))
                } else if in_b {
                    slots.update(old(self).cap + ib, b.written(key@, value@))
                } else {
                    slots
                })
            }),
    {
        proof {
            lemma_same_beside_slots(
                self.mem.bytes(),
                self.mem.bytes(),
                self.mem.bytes(),
                self.cap as nat,
            );
        }
        let sa = self.slot(ia);
        if sa.is_occupied() && same_block(&sa.key, key) {
            self.write(ia, key, value);
            return true;
        }
        let _size: usize = self.mem.size();
        let sb = self.slot(self.cap + ib);
        if sb.is_occupied() && same_block(&sb.key, key) {
            self.write(self.cap + ib, key, value);
            return true;
        }
        false
    }

    /// Writes a pair to the slot of number `i` (half A first) and returns the pair that stood
    /// there, if one did.
    pub fn place_at(&mut self, i: usize, key: &[u8; 24], value: &[u8; 24]) -> (evicted: Option<
        ([u8; 24], [u8; 24]),
    >)
        requires
            old(self).inv(),
            i < 2 * old(self).cap,
        ensures
            final(self).inv(),
            final(self).same_frame(old(self)),
            final(self).slots() == old(self).slots().update(
                i as int,
                old(self).slots()[i as int].written(key@, value@),
            ),
            match evicted {
                Some((k, v)) => {
                    &&& old(self).slots()[i as int].occupied()
                    &&& k@ == old(self).slots()[i as int].key
                    &&& v@ == old(self).slots()[i as int].value
                },
                None => !old(self).slots()[i as int].occupied(),
            },
    {
        let tenant = self.slot(i);
        self.write(i, key, value);
        if tenant.is_occupied() {
            Some((tenant.key, tenant.value))
        } else {
            None
        }
    }

    /// Inserts a pair, or writes over the value of a key that is there.
    ///
    /// Returns `false` if no free slot was met after 512 displacements. The new pair is then in
    /// the table but for the case that it was itself moved out last; the pair that was moved out
    /// last is not: the caller must rebuild a larger table.
    pub fn insert(&mut self, key: &[u8; 24], value: &[u8; 24]) -> (placed: bool)
        requires
            old(self).inv(),
        ensures
            final(self).inv(),
            final(self).same_frame(old(self)),
            ({
                let result = cuckoo::insertion(
                    old(self).slots(),
                    old(self).cap as nat,
                    key@,
                    value@,
                );
                let wanted = old(self).dict().insert(key@, value@);
                &&& placed == result.placed
                &&& final(self).slots() == result.slots
                &&& old(self).well_formed() ==> final(self).well_formed()
                &&& old(self).well_formed() && !result.wrapped && placed ==> final(self).dict()
                    == wanted
                &&& old(self).well_formed() && !result.wrapped && !placed ==> {
                    &&& wanted.contains_pair(result.key, result.value)
                    &&& final(self).dict() == wanted.remove(result.key)
                }
            }),
            ({
                let slots = old(self).slots();
                let cap = old(self).cap as nat;
                let a = slots[cuckoo::home_a(cap, key@)];
                let b = slots[cuckoo::home_b(cap, key@)];
                let low = cuckoo::versions_below(slots, 0xFFFF_FBFE);
                &&& !a.occupied() ==> placed
                &&& a.occupied() && a.key == key@ ==> placed
                &&& b.occupied() && b.key == key@ ==> placed
                &&& !placed ==> exists|tables: Seq<Seq<SlotState>>, pairs: Seq<(Seq<u8>, Seq<u8>)>|
                    #[trigger]
                    cuckoo::is_chain(cap, true, tables, pairs) && pairs.len() == 513 && tables[0]
                        == slots && pairs[0] == (key@, value@)
                &&& old(self).well_formed() && low && placed ==> final(self).dict() == old(
                    self,
                ).dict().insert(key@, value@)
            }),
    {
        let ghost before = self.slots();
        let ghost cap = self.cap as nat;
        proof {
            cuckoo::law_insertion(before, cap, key@, value@);
            cuckoo::law_insertion_takes_a_free_slot(before, cap, key@, value@);
            if !cuckoo::insertion(before, cap, key@, value@).placed {
                cuckoo::law_failure_met_512_taken_slots(before, cap, key@, value@);
            }
            if cuckoo::versions_below(before, 0xFFFF_FBFE) {
                cuckoo::law_low_versions_do_not_run_over(before, cap, key@, value@, 0xFFFF_FBFE);
            }
        }
        let ia: usize = slot_index(h1(key), self.cap);
        let ib: usize = slot_index(h2(key), self.cap);
        if self.update_at(ia, ib, key, value) {
            return true;
        }
        let mut cur_key = *key;
        let mut cur_value = *value;
        let mut use_a = true;
        let mut moves: usize = 0;
        let ghost mut wrapped = false;
        while moves < cuckoo::MAX_DISPLACEMENTS
            invariant
                self.inv(),
                self.cap == cap,
                cap == old(self).cap,
                before == old(self).slots(),
                self.same_frame(old(self)),
                moves <= cuckoo::MAX_DISPLACEMENTS,
                ({
                    let rest = cuckoo::displace(
                        self.slots(),
                        cap,
                        cur_key@,
                        cur_value@,
                        use_a,
                        (cuckoo::MAX_DISPLACEMENTS - moves) as nat,
                    );
                    cuckoo::insertion(before, cap, key@, value@) == (cuckoo::Insertion {
                        wrapped: wrapped || rest.wrapped,
                        ..rest
                    })
                }),
            decreases cuckoo::MAX_DISPLACEMENTS - moves,
        {
            let ghost was = self.slots();
            let ghost mem_was = self.mem.bytes();
            let _size: usize = self.mem.size();
            let i: usize = if use_a {
                slot_index(h1(&cur_key), self.cap)
            } else {
                self.cap + slot_index(h2(&cur_key), self.cap)
            };
            proof {
                wrapped = wrapped || was[i as int].at_last_version();
            }
            let evicted = self.place_at(i, &cur_key, &cur_value);
            proof {
                lemma_same_beside_slots(old(self).mem.bytes(), mem_was, self.mem.bytes(), cap);
            }
            match evicted {
                None => {
                    proof {
                        cuckoo::law_insertion(before, cap, key@, value@);
                        if cuckoo::versions_below(before, 0xFFFF_FBFE) {
                            cuckoo::law_low_versions_do_not_run_over(
                                before,
                                cap,
                                key@,
                                value@,
                                0xFFFF_FBFE,
                            );
                        }
                    }
                    return true;
                },
                Some((k, v)) => {
                    cur_key = k;
                    cur_value = v;
                    use_a = !use_a;
                },
            }
            moves += 1;
        }
        false
    }

    /// Looks `key` up in the slots `ia` of half A and `ib` of half B.
    pub fn get_at(&self, ia: usize, ib: usize, key: &[u8; 24]) -> (value: Option<[u8; 24]>)
        requires
            self.inv(),
            ia < self.cap,
            ib < self.cap,
        ensures
            ({
                let found = cuckoo::lookup_at(self.slots(), ia as int, self.cap + ib, key@);
                match value {
                    Some(v) => found == Some(v@),
                    None => found is None,
                }
            }),
    {
        let _size: usize = self.mem.size();
        if let Some((k, v)) = read_slot_at(&self.mem, ia * SLOT_BYTES) {
            if same_block(&k, key) {
                return Some(v);
            }
        }
        if let Some((k, v)) = read_slot_at(&self.mem, (self.cap + ib) * SLOT_BYTES) {
            if same_block(&k, key) {
                return Some(v);
            }
        }
        None
    }

    /// Looks up `key`.
    pub fn get(&self, key: &[u8; 24]) -> (value: Option<[u8; 24]>)
        requires
            self.inv(),
        ensures
            match value {
                Some(v) => self.dict().contains_pair(key@, v@),
                None => !self.dict().contains_key(key@),
            },
    {
        let ia: usize = slot_index(h1(key), self.cap);
        let ib: usize = slot_index(h2(key), self.cap);
        self.get_at(ia, ib, key)
    }
}

impl Table<Lines> {
    /// Allocates an empty table of `cap` slots in each half, aligned to pairs of cache lines.
    pub fn new(cap: usize) -> (table: Self)
        requires
            vstd::arithmetic::power2::is_pow2(cap as int),
            2 * cap * SLOT_BYTES <= isize::MAX,
        ensures
            table.inv(),
            table.cap == cap,
            table.mem.bytes() == Seq::new((2 * cap * SLOT_BYTES) as nat, |i: int| 0u8),
            table.well_formed(),
            table.dict() == Map::<Seq<u8>, Seq<u8>>::empty(),
            cuckoo::all_at_rest(table.slots()),
            cuckoo::versions_below(table.slots(), 1),
    {
        let table = Table::from_mr(Lines::zeroed(cap), cap);
        proof {
            law_zeroed_is_empty(&table);
        }
        table
    }
}

/// Zeroed memory is an empty table at rest.
pub proof fn law_zeroed_is_empty<R: Region>(table: &Table<R>)
    requires
        table.inv(),
        forall|i: int| 0 <= i < table.mem.bytes().len() ==> table.mem.bytes()[i] == 0,
    ensures
        table.well_formed(),
        table.dict() == Map::<Seq<u8>, Seq<u8>>::empty(),
        cuckoo::all_at_rest(table.slots()),
        cuckoo::versions_below(table.slots(), 1),
{
    assert forall|i: int| 0 <= i < 2 * table.cap implies {
        &&& !(#[trigger] table.slots()[i]).occupied()
        &&& table.slots()[i].at_rest()
        &&& table.slots()[i].ver_lo == 0
    } by {
        let at = i * SLOT_BYTES;
        assert(region::le32(table.mem.bytes(), at) == 0);
        assert(region::le32(table.mem.bytes(), at + 4) == 0);
    }
    assert forall|key: Seq<u8>| cuckoo::lookup(table.slots(), table.cap as nat, key) is None by {
        cuckoo::lemma_home_bounds(table.cap as nat, key);
    }
    assert(table.dict() =~= Map::<Seq<u8>, Seq<u8>>::empty());
}

/// Where the parts of a slot stand in memory: slot `i` begins at byte `64 * i`, with the low
/// version; the high version, the key and the value follow.
pub proof fn law_slot_layout(bytes: Seq<u8>, cap: nat, i: int)
    requires
        0 <= i < 2 * cap,
    ensures
        ({
            let slot = slots_in(bytes, cap)[i];
            &&& slots_in(bytes, cap).len() == 2 * cap
            &&& slot.ver_lo == region::le32(bytes, 64 * i)
            &&& slot.ver_hi == region::le32(bytes, 64 * i + 4)
            &&& slot.key == bytes.subrange(64 * i + 8, 64 * i + 32)
            &&& slot.value == bytes.subrange(64 * i + 32, 64 * i + 56)
        }),
{
}

/// A whole write puts the new version, twice, the key and the value in their places, and leaves all
/// other bytes as they are.
pub proof fn law_write_layout(bytes: Seq<u8>, at: int, key: Seq<u8>, value: Seq<u8>)
    requires
        0 <= at,
        at + 64 <= bytes.len(),
        key.len() == 24,
        value.len() == 24,
        region::le32(bytes, at) < 0xFFFF_FFFE,
    ensures
        ({
            let was = region::le32(bytes, at);
            let version = (if was % 2 == 0 {
                was + 2
            } else {
                was + 1
            }) as u32;
            write_image(bytes, at, key, value) == bytes.take(at) + region::le32_bytes(version)
                + region::le32_bytes(version) + key + value + bytes.skip(at + 56)
        }),
{
    let was = region::le32(bytes, at);
    let version = state_at(bytes, at).next_version();
    assert(version == (if was % 2 == 0 {
        was + 2
    } else {
        was + 1
    }));
    let word = region::le32_bytes(version);
    let image = slot_image(version, key, value);
    assert(image.len() == 56);
    region::law_splice_replaces_one_block(bytes, at, image);
    lemma_parts_in_a_row(bytes.take(at), word, key, value, bytes.skip(at + 56));
}

proof fn lemma_parts_in_a_row(a: Seq<u8>, b: Seq<u8>, c: Seq<u8>, d: Seq<u8>, e: Seq<u8>)
    ensures
        a + (b + b + c + d) + e == a + b + b + c + d + e,
{
    assert(a + (b + b + c + d) =~= a + b + b + c + d);
}

/// What is the same beside slots: the last eight bytes of each slot, and all bytes behind the last
/// slot.
pub proof fn law_padding_stays(before: Seq<u8>, after: Seq<u8>, cap: nat, i: int)
    requires
        same_beside_slots(before, after, cap),
        0 <= i < after.len(),
        i % 64 >= 56 || i >= 128 * cap,
    ensures
        after.len() == before.len(),
        after[i] == before[i],
{
    reveal(same_beside_slots);
}

/// One attempt at a taken slot loads the low version before all else and the high version after all
/// else, with the 48 bytes of the pair between two fences; where these give no pair, it pauses. An
/// attempt at any other slot stops at the low version.
pub proof fn law_attempt_loads_in_order(at: int, slot: SlotState)
    ensures
        ({
            let acts = attempt_acts(at, slot);
            &&& slot.occupied() ==> {
                &&& acts[0] == Act::Word(at)
                &&& acts[1] == Act::Acquire
                &&& forall|k: int| 0 <= k < 48 ==> #[trigger] acts[2 + k] == Act::Byte(at + 8 + k)
                &&& acts[50] == Act::Acquire
                &&& acts[51] == Act::Word(at + 4)
                &&& slot.ver_lo == slot.ver_hi ==> acts.len() == 52
                &&& slot.ver_lo != slot.ver_hi ==> acts.len() == 53 && acts[52] == Act::Pause
            }
            &&& !slot.occupied() ==> acts == seq![Act::Word(at), Act::Pause]
        }),
{
    if !slot.occupied() {
        assert(attempt_acts(at, slot) =~= seq![Act::Word(at), Act::Pause]);
    }
}

/// A slot that shows no clean pair is tried sixteen times. What a reader does in some attempts and
/// in some more is what it does in all of them, and no attempt differs from the first.
pub proof fn law_attempts_follow_one_another(at: int, slot: SlotState, m: nat, n: nat)
    ensures
        MAX_READ_ATTEMPTS == 16,
        attempts_acts(at, slot, 0).len() == 0,
        attempts_acts(at, slot, 1) == attempt_acts(at, slot),
        attempts_acts(at, slot, m + n) == attempts_acts(at, slot, m) + attempts_acts(at, slot, n),
    decreases n,
{
    let first = attempts_acts(at, slot, m);
    assert(attempts_acts(at, slot, 1) == attempts_acts(at, slot, 0) + attempt_acts(at, slot));
    assert(attempts_acts(at, slot, 0) + attempt_acts(at, slot) =~= attempt_acts(at, slot));
    if n == 0 {
        assert(first + attempts_acts(at, slot, 0) =~= first);
    } else {
        let k = (n - 1) as nat;
        law_attempts_follow_one_another(at, slot, m, k);
        let more = attempts_acts(at, slot, k);
        assert(attempts_acts(at, slot, m + n) == attempts_acts(at, slot, m + k) + attempt_acts(
            at,
            slot,
        ));
        assert((first + more) + attempt_acts(at, slot) =~= first + (more + attempt_acts(at, slot)));
    }
}

/// A step of a write of a pair to the slot at byte `at`, which begins with the memory `bytes`, by
/// what is in the slot before it and after it.
pub open spec fn is_write_step(
    bytes: Seq<u8>,
    at: int,
    key: Seq<u8>,
    value: Seq<u8>,
    from: Seq<u8>,
    to: Seq<u8>,
    fenced: bool,
) -> bool {
    let pair = key + value;
    let odd = region::le32(bytes, at) / 2 * 2 + 1;
    let even = if odd == u32::MAX {
        0
    } else {
        odd + 1
    };
    &&& from.len() == bytes.len()
    &&& to.len() == bytes.len()
    &&& {
        // The low version turns odd.
        ||| {
            &&& from == bytes
            &&& region::le32(to, at) == odd
            &&& forall|i: int| 0 <= i < at || at + 4 <= i < to.len() ==> #[trigger] to[i] == from[i]
        }
        // One more byte of the pair arrives, the first one behind a fence.
        ||| exists|k: int| #[trigger]
            takes_byte(from, to, at + 8, pair, k) && (k > 0 || fenced) && region::le32(from, at)
                == odd
        // The pair is there; behind a fence, the low version is the new one.
        ||| {
            &&& fenced
            &&& region::le32(from, at) == odd
            &&& from.subrange(at + 8, at + 56) == pair
            &&& region::le32(to, at) == even
            &&& forall|i: int| 0 <= i < at || at + 4 <= i < to.len() ==> #[trigger] to[i] == from[i]
        }
        // The high version follows.
        ||| {
            &&& region::le32(from, at) == even
            &&& from.subrange(at + 8, at + 56) == pair
            &&& region::le32(to, at + 4) == even
            &&& forall|i: int|
                0 <= i < at + 4 || at + 8 <= i < to.len() ==> #[trigger] to[i] == from[i]
        }
    }
}

/// Whether one byte of `block` arrives: that of number `k`, after those before it.
pub open spec fn takes_byte(
    from: Seq<u8>,
    to: Seq<u8>,
    at: int,
    block: Seq<u8>,
    k: int,
) -> bool {
    &&& 0 <= k < block.len()
    &&& from.subrange(at, at + k) == block.take(k)
    &&& to == from.update(at + k, block[k])
}

/// The steps that a write takes with the versions are steps of the sequence lock.
#[verifier::spinoff_prover]
proof fn lemma_version_steps(bytes: Seq<u8>, at: int, key: Seq<u8>, value: Seq<u8>, fenced: bool)
    requires
        0 <= at,
        at + 64 <= bytes.len(),
        key.len() == 24,
        value.len() == 24,
    ensures
        ({
            let begun = begun_image(bytes, at);
            let filled = filled_image(bytes, at, key, value);
            let low = low_image(bytes, at, key, value);
            let whole = write_image(bytes, at, key, value);
            &&& is_write_step(bytes, at, key, value, bytes, begun, fenced)
            &&& is_write_step(bytes, at, key, value, filled, low, true)
            &&& is_write_step(bytes, at, key, value, low, whole, fenced)
        }),
{
    let slot = state_at(bytes, at);
    let filled = filled_image(bytes, at, key, value);
    let low = low_image(bytes, at, key, value);
    let whole = write_image(bytes, at, key, value);
    law_steps_of_a_write(bytes, at, key, value);
    assert(region::le32(begun_image(bytes, at), at) == slot.write_version());
    assert(region::le32(filled, at) == slot.write_version());
    assert(region::le32(low, at) == slot.next_version());
    assert(region::le32(whole, at + 4) == slot.next_version());
    assert(filled.subrange(at + 8, at + 56) =~= key + value);
    assert(low.subrange(at + 8, at + 56) =~= key + value);
    assert(whole == region::splice(low, at + 4, region::le32_bytes(slot.next_version())));
}

/// The steps that a write takes with the pair are steps of the sequence lock.
#[verifier::spinoff_prover]
proof fn lemma_pair_step(
    bytes: Seq<u8>,
    at: int,
    key: Seq<u8>,
    value: Seq<u8>,
    k: int,
    fenced: bool,
)
    requires
        0 <= at,
        at + 64 <= bytes.len(),
        key.len() == 24,
        value.len() == 24,
        0 <= k < 48,
        k > 0 || fenced,
    ensures
        is_write_step(
            bytes,
            at,
            key,
            value,
            region::partly(begun_image(bytes, at), at + 8, key + value, k),
            region::partly(begun_image(bytes, at), at + 8, key + value, k + 1),
            fenced,
        ),
{
    let pair = key + value;
    let slot = state_at(bytes, at);
    let begun = begun_image(bytes, at);
    let from = region::partly(begun, at + 8, pair, k);
    let to = region::partly(begun, at + 8, pair, k + 1);
    assert(takes_byte(from, to, at + 8, pair, k)) by {
        assert(from.subrange(at + 8, at + 8 + k) =~= pair.take(k));
        assert(to =~= from.update(at + 8 + k, pair[k]));
    }
    assert(region::le32(from, at) == slot.write_version()) by {
        region::lemma_le32_round_trip(bytes, at, slot.write_version());
        assert(forall|i: int| at <= i < at + 4 ==> from[i] == begun[i]);
    }
    let odd = region::le32(bytes, at) / 2 * 2 + 1;
    assert(slot.write_version() == odd);
}

/// A region that allows the steps of the sequence lock, in their order and with their fences, and
/// no others, can be written: a write needs no other step.
pub proof fn law_a_write_keeps_to_the_sequence_lock<R: Region>(
    mem: &R,
    bytes: Seq<u8>,
    at: int,
    key: Seq<u8>,
    value: Seq<u8>,
)
    requires
        0 <= at,
        at + 64 <= bytes.len(),
        key.len() == 24,
        value.len() == 24,
        forall|from: Seq<u8>, to: Seq<u8>, fenced: bool| #[trigger]
            mem.allowed(from, to, fenced) == is_write_step(
                bytes,
                at,
                key,
                value,
                from,
                to,
                fenced,
            ),
    ensures
        may_write(mem, bytes, at, key, value),
{
    lemma_version_steps(bytes, at, key, value, true);
    lemma_version_steps(bytes, at, key, value, false);
    assert forall|k: int, fenced: bool|
        0 <= k < 48 && (k > 0 || fenced) implies #[trigger] region::may_copy(
        mem,
        begun_image(bytes, at),
        at + 8,
        key + value,
        k,
        fenced,
    ) by {
        lemma_pair_step(bytes, at, key, value, k, fenced);
    }
}

/// The slots of a table, half A first, stand in its memory one behind the other, 64 bytes apart;
/// and its pairs are those that lookups in these slots find.
pub proof fn law_table_is_its_slots<R: Region>(
    table: &Table<R>,
    i: int,
    key: Seq<u8>,
    value: Seq<u8>,
)
    requires
        0 <= i < 2 * table.cap,
    ensures
        ({
            let bytes = table.mem.bytes();
            let slot = table.slots()[i];
            &&& table.slots().len() == 2 * table.cap
            &&& slot.ver_lo == region::le32(bytes, 64 * i)
            &&& slot.ver_hi == region::le32(bytes, 64 * i + 4)
            &&& slot.key == bytes.subrange(64 * i + 8, 64 * i + 32)
            &&& slot.value == bytes.subrange(64 * i + 32, 64 * i + 56)
            &&& table.dict().contains_pair(key, value) <==> cuckoo::lookup(
                table.slots(),
                table.cap as nat,
                key,
            ) == Some(value)
            &&& table.well_formed() <==> cuckoo::well_formed(table.slots(), table.cap as nat)
        }),
{
}

} // verus!
