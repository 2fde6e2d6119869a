//! What a client does: reads slots of the server's table, and writes PUTs to its message buffer.
//!
//! A GET is a dialogue with the NIC. A session says which slot to read next; the program reads
//! it into local memory and hands it to the session, which says what came of it.

use vstd::prelude::*;

use crate::cuckoo;
use crate::cuckoo::SlotState;
use crate::handshake::PeerInfo;
use crate::hash;
use crate::hash::{h1, h2, slot_index};
use crate::keys;
use crate::keys::{make_key, make_val, val_number};
use crate::msgbuf;
use crate::msgbuf::{
    build_put_payload, core_for_key, slot_offset, MSGBUF_BYTES, MSG_BYTES, NUM_CORES,
    SLOTS_PER_CORE,
};
use crate::region;
use crate::region::{same_block, Region};
use crate::server;
use crate::server::{PutLoader, TABLE_BYTES, TABLE_CAP};
use crate::table;
use crate::table::{read_slot, Slot};

verus! {

/// The size of a slot, as a transfer length.
pub const SLOT_LEN: u32 = 64;

/// The size of half of the table.
pub const HALF_BYTES: u64 = 8388608;

/// The size of the memory that a client registers: a slot of half A, a slot of half B, and a PUT
/// to be sent.
pub const BUF_LEN: usize = 4096;

/// Where in that memory slots of half A arrive.
pub const SLOT_A_OFFSET: usize = 0;

/// Where in that memory slots of half B arrive.
pub const SLOT_B_OFFSET: usize = 64;

/// Where in that memory a PUT is laid out.
pub const PUT_STAGING_OFFSET: u32 = 128;

/// How often a GET reads both slots before it gives up.
pub const GET_ATTEMPTS: u64 = 4;

/// How many threads the workload has.
pub const READER_THREADS: usize = 8;

/// How many operations each thread of the workload makes.
pub const OPS_PER_THREAD: usize = 100_000;

/// How many keys the workload uses.
pub const TEST_KEYS: u64 = 100_000;

/// How many of a hundred keys the workload writes; it reads the others.
pub const PUT_RATIO_PCT: u64 = 5;

/// One READ to be posted.
#[derive(Clone, Copy, PartialEq, Eq, Structural)]
pub struct ReadOrder {
    pub wr_id: u64,
    pub local_offset: usize,
    pub len: u32,
    pub remote_addr: u64,
    pub remote_rkey: u32,
}

/// One WRITE to be posted.
#[derive(Clone, Copy, PartialEq, Eq, Structural)]
pub struct WriteOrder {
    pub wr_id: u64,
    pub local_offset: u32,
    pub len: u32,
    pub remote_addr: u64,
    pub remote_rkey: u32,
}

/// What came of a GET.
pub enum GetResult {
    Found([u8; 24]),
    Miss,
    TornRead,
}

/// What came of a GET, as mathematics.
#[verifier::ext_equal]
pub enum Outcome {
    Found(Seq<u8>),
    Miss,
    TornRead,
}

impl View for GetResult {
    type V = Outcome;

    open spec fn view(&self) -> Outcome {
        match self {
            GetResult::Found(v) => Outcome::Found(v@),
            GetResult::Miss => Outcome::Miss,
            GetResult::TornRead => Outcome::TornRead,
        }
    }
}

impl GetResult {
    /// The value that was found, if one was.
    pub fn value(&self) -> (value: Option<[u8; 24]>)
        ensures
            match value {
                Some(v) => *self == GetResult::Found(v),
                None => !(self is Found),
            },
    {
        match self {
            GetResult::Found(v) => Some(*v),
            _ => None,
        }
    }
}

/// The whole table of a peer has addresses.
pub open spec fn table_fits(remote: PeerInfo) -> bool {
    remote.addr + TABLE_BYTES - 64 <= u64::MAX
}

/// The whole message buffer of a peer has addresses.
pub open spec fn msgbuf_fits(remote: PeerInfo) -> bool {
    remote.msgbuf_addr + MSGBUF_BYTES - 128 <= u64::MAX
}

/// The address of slot `i` of the peer's table, half A first.
pub open spec fn slot_addr(remote: PeerInfo, i: int) -> int {
    remote.addr + i * 64
}

/// What stands at the address of a slot, in the memory of the peer's table, is that slot; and the
/// whole of it stands inside that memory.
pub proof fn law_address_is_slot(remote: PeerInfo, bytes: Seq<u8>, i: int)
    requires
        0 <= i < 2 * TABLE_CAP,
    ensures
        table::state_at(bytes, slot_addr(remote, i) - remote.addr) == table::slots_in(
            bytes,
            TABLE_CAP as nat,
        )[i],
        remote.addr <= slot_addr(remote, i) <= remote.addr + TABLE_BYTES - 64,
{
}

proof fn lemma_capacity()
    ensures
        vstd::arithmetic::power2::is_pow2(TABLE_CAP as int),
        HALF_BYTES == TABLE_CAP * 64,
{
    vstd::arithmetic::power2::lemma_pow2(17);
    vstd::arithmetic::power2::lemma2_to64();
    vstd::arithmetic::power2::is_pow2_equiv(TABLE_CAP as int);
}

/// The addresses of the two slots of the hashes `hash_a` and `hash_b`.
pub fn addrs_for_hashes(remote: &PeerInfo, hash_a: usize, hash_b: usize) -> (addrs: (u64, u64))
    requires
        table_fits(*remote),
    ensures
        addrs.0 == slot_addr(*remote, (hash_a % TABLE_CAP) as int),
        addrs.1 == slot_addr(*remote, TABLE_CAP + hash_b % TABLE_CAP),
        addrs.0 == remote.addr + 64 * (hash_a as int % 131072),
        addrs.1 == remote.addr + 64 * (131072 + hash_b as int % 131072),
{
    proof {
        lemma_capacity();
    }
    let ia: usize = slot_index(hash_a, TABLE_CAP);
    let ib: usize = slot_index(hash_b, TABLE_CAP);
    let slot_bytes: u64 = SLOT_LEN as u64;
    (remote.addr + ia as u64 * slot_bytes, remote.addr + HALF_BYTES + ib as u64 * slot_bytes)
}

/// The addresses of the two slots of `key`.
pub fn slot_addrs(remote: &PeerInfo, key: &[u8; 24]) -> (addrs: (u64, u64))
    requires
        table_fits(*remote),
    ensures
        addrs.0 == slot_addr(*remote, cuckoo::home_a(TABLE_CAP as nat, key@)),
        addrs.1 == slot_addr(*remote, cuckoo::home_b(TABLE_CAP as nat, key@)),
        addrs.0 == remote.addr + 64 * (hash::xxh3(key@) as usize as int % 131072),
        addrs.1 == remote.addr + 64 * (131072 + hash::xxh3_seeded(
            key@,
            0xC0FFEE_DEADBEEF,
        ) as usize as int % 131072),
{
    addrs_for_hashes(remote, h1(key), h2(key))
}

/// What a slot holds of `key`.
pub open spec fn value_in_slot(slot: SlotState, key: Seq<u8>) -> Option<Seq<u8>> {
    match slot.read() {
        Some((k, v)) if k == key => Some(v),
        _ => None,
    }
}

/// What a slot holds of `key`.
pub fn slot_value(slot: &Slot, key: &[u8; 24]) -> (value: Option<[u8; 24]>)
    ensures
        match value {
            Some(v) => value_in_slot(slot@, key@) == Some(v@),
            None => value_in_slot(slot@, key@) is None,
        },
{
    match read_slot(slot) {
        Some((k, v)) => if same_block(&k, key) {
            Some(v)
        } else {
            None
        },
        None => None,
    }
}

/// How a GET deals with slots that do not hold its key.
#[derive(Clone, Copy, PartialEq, Eq, Structural)]
pub enum GetMode {
    /// Two slots at rest settle that the key is not there. Otherwise a write is going on, and both
    /// slots are read again.
    Checking,
    /// Both slots are read again whatever they hold, unless one holds the key.
    Sync,
}

/// A GET in progress.
pub struct GetSession {
    pub key: [u8; 24],
    pub mode: GetMode,
    /// The addresses of the key's slots.
    pub addrs: (u64, u64),
    pub rkey: u32,
    /// How often both slots were read in vain.
    pub attempt: u64,
    /// Whether the slot of half B is due, after that of half A.
    pub on_b: bool,
    /// Whether the slot of half A was at rest when it was last read.
    pub a_at_rest: bool,
}

/// What a session comes to on reading a slot: the result, or where it goes on.
pub enum GetStep {
    Done(GetResult),
    Again,
}

impl GetSession {
    /// A session ends before the attempts are used up.
    pub open spec fn inv(&self) -> bool {
        self.attempt < GET_ATTEMPTS
    }

    /// The session after it read `slot` where it was due, if that does not end it.
    pub open spec fn moved_on(&self, slot: SlotState) -> GetSession {
        GetSession {
            on_b: !self.on_b,
            a_at_rest: if self.on_b {
                self.a_at_rest
            } else {
                slot.at_rest()
            },
            attempt: if self.on_b {
                (self.attempt + 1) as u64
            } else {
                self.attempt
            },
            ..*self
        }
    }

    /// What ends a session that reads `slot` where it is due, if that does.
    pub open spec fn verdict(&self, slot: SlotState) -> Option<Outcome> {
        match value_in_slot(slot, self.key@) {
            Some(v) => Some(Outcome::Found(v)),
            None => {
                let last = self.attempt == GET_ATTEMPTS - 1;
                let quiet = slot.at_rest() && self.a_at_rest;
                if self.on_b && quiet && (self.mode == GetMode::Checking || last) {
                    Some(Outcome::Miss)
                } else if self.on_b && last {
                    Some(Outcome::TornRead)
                } else {
                    None
                }
            },
        }
    }

    /// Begins a GET of `key`.
    pub fn new(remote: &PeerInfo, key: &[u8; 24], mode: GetMode) -> (session: Self)
        requires
            table_fits(*remote),
        ensures
            session.inv(),
            session.key == *key,
            session.mode == mode,
            session.addrs.0 == slot_addr(*remote, cuckoo::home_a(TABLE_CAP as nat, key@)),
            session.addrs.1 == slot_addr(*remote, cuckoo::home_b(TABLE_CAP as nat, key@)),
            session.rkey == remote.rkey,
            session.attempt == 0,
            !session.on_b,
            !session.a_at_rest,
    {
        GetSession {
            key: *key,
            mode,
            addrs: slot_addrs(remote, key),
            rkey: remote.rkey,
            attempt: 0,
            on_b: false,
            a_at_rest: false,
        }
    }

    /// The read to be posted.
    pub fn order(&self) -> (order: ReadOrder)
        requires
            self.inv(),
        ensures
            order == (ReadOrder {
                wr_id: (self.attempt + match (self.mode, self.on_b) {
                    (GetMode::Checking, false) => 0xA0int,
                    (GetMode::Checking, true) => 0xB0int,
                    (GetMode::Sync, false) => 0xC0int,
                    (GetMode::Sync, true) => 0xD0int,
                }) as u64,
                local_offset: if self.on_b {
                    SLOT_B_OFFSET
                } else {
                    SLOT_A_OFFSET
                },
                len: SLOT_LEN,
                remote_addr: if self.on_b {
                    self.addrs.1
                } else {
                    self.addrs.0
                },
                remote_rkey: self.rkey,
            }),
            order.len == 64,
            order.local_offset == (if self.on_b {
                64int
            } else {
                0
            }),
    {
        let first_id: u64 = match (self.mode, self.on_b) {
            (GetMode::Checking, false) => 0xA0,
            (GetMode::Checking, true) => 0xB0,
            (GetMode::Sync, false) => 0xC0,
            (GetMode::Sync, true) => 0xD0,
        };
        ReadOrder {
            wr_id: first_id + self.attempt,
            local_offset: if self.on_b {
                SLOT_B_OFFSET
            } else {
                SLOT_A_OFFSET
            },
            len: SLOT_LEN,
            remote_addr: if self.on_b {
                self.addrs.1
            } else {
                self.addrs.0
            },
            remote_rkey: self.rkey,
        }
    }

    /// Takes the slot that was read.
    pub fn step(&mut self, slot: &Slot) -> (step: GetStep)
        requires
            old(self).inv(),
        ensures
            match step {
                GetStep::Done(result) => {
                    &&& old(self).verdict(slot@) == Some(result@)
                    &&& *final(self) == *old(self)
                },
                GetStep::Again => {
                    &&& old(self).verdict(slot@) is None
                    &&& *final(self) == old(self).moved_on(slot@)
                    &&& final(self).inv()
                },
            },
            match (slot@.read(), step) {
                (Some(pair), GetStep::Done(GetResult::Found(v))) => pair == (old(self).key@, v@),
                (Some(pair), _) => pair.0 != old(self).key@,
                (None, GetStep::Done(GetResult::Found(_))) => false,
                _ => true,
            },
            match step {
                GetStep::Done(GetResult::Miss) => {
                    &&& old(self).on_b
                    &&& old(self).mode == GetMode::Checking || old(self).attempt == 3
                    &&& old(self).a_at_rest
                    &&& slot@.at_rest()
                },
                GetStep::Done(GetResult::TornRead) => {
                    &&& old(self).on_b
                    &&& old(self).attempt == 3
                    &&& !(old(self).a_at_rest && slot@.at_rest())
                },
                _ => true,
            },
            step is Again ==> {
                &&& final(self).on_b == !old(self).on_b
                &&& final(self).attempt == old(self).attempt + (if old(self).on_b {
                    1int
                } else {
                    0
                })
                &&& final(self).on_b ==> final(self).a_at_rest == slot@.at_rest()
                &&& old(self).on_b ==> old(self).attempt < 3
                &&& old(self).on_b && old(self).mode == GetMode::Checking ==> !(old(self).a_at_rest
                    && slot@.at_rest())
                &&& final(self).key == old(self).key
                &&& final(self).mode == old(self).mode
                &&& final(self).addrs == old(self).addrs
                &&& final(self).rkey == old(self).rkey
            },
    {
        if let Some(v) = slot_value(slot, &self.key) {
            return GetStep::Done(GetResult::Found(v));
        }
        if !self.on_b {
            self.on_b = true;
            self.a_at_rest = slot.is_at_rest();
            return GetStep::Again;
        }
        let last = self.attempt == GET_ATTEMPTS - 1;
        let quiet = slot.is_at_rest() && self.a_at_rest;
        if quiet && (self.mode == GetMode::Checking || last) {
            return GetStep::Done(GetResult::Miss);
        }
        if last {
            return GetStep::Done(GetResult::TornRead);
        }
        self.on_b = false;
        self.attempt = self.attempt + 1;
        GetStep::Again
    }
}

/// What a session comes to that reads the slots `seen`, one after the other, if it ends on them.
pub open spec fn run(session: GetSession, seen: Seq<SlotState>) -> Option<Outcome>
    decreases seen.len(),
{
    if seen.len() == 0 {
        None
    } else {
        match session.verdict(seen[0]) {
            Some(outcome) => Some(outcome),
            None => run(session.moved_on(seen[0]), seen.skip(1)),
        }
    }
}

/// What a session reads of slots that nobody writes: `a` and `b` in turn, four times.
pub open spec fn unchanging(a: SlotState, b: SlotState) -> Seq<SlotState> {
    seq![a, b, a, b, a, b, a, b]
}

proof fn lemma_run_step(session: GetSession, seen: Seq<SlotState>)
    requires
        seen.len() > 0,
    ensures
        run(session, seen) == (match session.verdict(seen[0]) {
            Some(outcome) => Some(outcome),
            None => run(session.moved_on(seen[0]), seen.skip(1)),
        }),
{
}

/// A GET ends after at most four reads of each slot, whatever they show.
pub proof fn law_get_ends(session: GetSession, seen: Seq<SlotState>)
    requires
        session.inv(),
        seen.len() >= 2 * (GET_ATTEMPTS - session.attempt) - (if session.on_b {
            1int
        } else {
            0
        }),
    ensures
        run(session, seen) is Some,
    decreases seen.len(),
{
    lemma_run_step(session, seen);
    if session.verdict(seen[0]) is None {
        law_get_ends(session.moved_on(seen[0]), seen.skip(1));
    }
}

/// A value that a GET finds stood under its key in one of the slots it read, in a slot whose
/// versions agreed.
pub proof fn law_found_was_read(session: GetSession, seen: Seq<SlotState>)
    ensures
        run(session, seen) matches Some(Outcome::Found(v)) ==> exists|i: int|
            0 <= i < seen.len() && (#[trigger] seen[i]).read() == Some((session.key@, v)),
    decreases seen.len(),
{
    if seen.len() > 0 {
        match session.verdict(seen[0]) {
            Some(Outcome::Found(v)) => {
                assert(seen[0].read() == Some((session.key@, v)));
            },
            Some(_) => {},
            None => {
                law_found_was_read(session.moved_on(seen[0]), seen.skip(1));
                if run(session, seen) is Some && run(session, seen)->Some_0 is Found {
                    let v = run(session, seen)->Some_0->Found_0;
                    let i = choose|i: int|
                        0 <= i < seen.skip(1).len() && (#[trigger] seen.skip(1)[i]).read() == Some(
                            (session.key@, v),
                        );
                    assert(seen[i + 1].read() == Some((session.key@, v)));
                }
            },
        }
    }
}

/// How many of the slots `seen` a session reads until it ends on one, or all of them.
pub open spec fn reads_made(session: GetSession, seen: Seq<SlotState>) -> nat
    decreases seen.len(),
{
    if seen.len() == 0 {
        0
    } else if session.verdict(seen[0]) is Some {
        1
    } else {
        1 + reads_made(session.moved_on(seen[0]), seen.skip(1))
    }
}

/// A GET that calls its key absent read the key's two slots last, one after the other, and found
/// both at rest: a slot that is being written is never the reason for a miss.
pub proof fn law_miss_saw_both_at_rest(session: GetSession, seen: Seq<SlotState>)
    requires
        !session.on_b,
        run(session, seen) == Some(Outcome::Miss),
    ensures
        ({
            let n = reads_made(session, seen);
            &&& 2 <= n <= seen.len()
            &&& seen[n - 2].at_rest()
            &&& seen[n - 1].at_rest()
        }),
{
    lemma_miss_saw_rest(session, seen);
}

proof fn lemma_miss_saw_rest(session: GetSession, seen: Seq<SlotState>)
    requires
        run(session, seen) == Some(Outcome::Miss),
    ensures
        ({
            let n = reads_made(session, seen);
            &&& 1 <= n <= seen.len()
            &&& seen[n - 1].at_rest()
            &&& if n == 1 {
                session.on_b && session.a_at_rest
            } else {
                seen[n - 2].at_rest()
            }
        }),
    decreases seen.len(),
{
    if session.verdict(seen[0]) is None {
        let rest = seen.skip(1);
        lemma_miss_saw_rest(session.moved_on(seen[0]), rest);
        let m = reads_made(session.moved_on(seen[0]), rest);
        assert(rest[m - 1] == seen[m as int]);
        if m > 1 {
            assert(rest[m - 2] == seen[m - 1]);
        }
    }
}

/// A new session that has read `n` slots and goes on.
spec fn after_reads(session: GetSession, seen: Seq<SlotState>, n: int) -> GetSession {
    GetSession {
        on_b: n % 2 == 1,
        attempt: (n / 2) as u64,
        a_at_rest: if n == 0 {
            session.a_at_rest
        } else if n % 2 == 1 {
            seen[n - 1].at_rest()
        } else {
            seen[n - 2].at_rest()
        },
        ..session
    }
}

/// What a new session comes to, by where it stands after `n` slots.
proof fn lemma_after_reads(session: GetSession, seen: Seq<SlotState>, n: int)
    requires
        session.attempt == 0,
        !session.on_b,
        0 <= n <= seen.len(),
        n <= 8,
        forall|q: int|
            0 <= q < n ==> after_reads(session, seen, q).verdict(#[trigger] seen[q]) is None,
    ensures
        run(session, seen) == run(after_reads(session, seen, n), seen.skip(n)),
        reads_made(session, seen) == n + reads_made(after_reads(session, seen, n), seen.skip(n)),
    decreases n,
{
    if n == 0 {
        assert(seen.skip(0) =~= seen);
        assert(after_reads(session, seen, 0) == session);
    } else {
        lemma_after_reads(session, seen, n - 1);
        lemma_one_more_read(session, seen, n - 1);
        let rest = seen.skip(n - 1);
        assert(rest[0] == seen[n - 1]);
        assert(rest.skip(1) =~= seen.skip(n));
        assert(after_reads(session, seen, n - 1).verdict(seen[n - 1]) is None);
        lemma_run_step(after_reads(session, seen, n - 1), rest);
        lemma_reads_step(after_reads(session, seen, n - 1), rest);
    }
}

proof fn lemma_reads_step(session: GetSession, seen: Seq<SlotState>)
    requires
        seen.len() > 0,
    ensures
        reads_made(session, seen) == (if session.verdict(seen[0]) is Some {
            1
        } else {
            1 + reads_made(session.moved_on(seen[0]), seen.skip(1))
        }),
{
}

proof fn lemma_one_more_read(session: GetSession, seen: Seq<SlotState>, n: int)
    requires
        0 <= n < 8,
    ensures
        after_reads(session, seen, n).moved_on(seen[n]) == after_reads(session, seen, n + 1),
{
    if n % 2 == 1 {
        assert(n / 2 + 1 == (n + 1) / 2);
    } else {
        assert(n / 2 == (n + 1) / 2);
    }
}

/// A new session that reads `n` slots without its key goes on, unless two at rest were the reason
/// not to.
proof fn lemma_goes_on(session: GetSession, seen: Seq<SlotState>, n: int)
    requires
        session.attempt == 0,
        !session.on_b,
        0 <= n <= seen.len(),
        n <= 7,
        forall|q: int|
            0 <= q < n ==> !((#[trigger] seen[q]).read() matches Some(pair) && pair.0
                == session.key@),
        session.mode == GetMode::Checking ==> forall|q: int|
            0 < q < n && q % 2 == 1 ==> !((#[trigger] seen[q]).at_rest() && seen[q - 1].at_rest()),
    ensures
        run(session, seen) == run(after_reads(session, seen, n), seen.skip(n)),
        reads_made(session, seen) == n + reads_made(after_reads(session, seen, n), seen.skip(n)),
{
    assert forall|q: int| 0 <= q < n implies after_reads(session, seen, q).verdict(
        #[trigger] seen[q],
    ) is None by {
        assert(!(seen[q].read() matches Some(pair) && pair.0 == session.key@));
    }
    lemma_after_reads(session, seen, n);
}

/// A GET ends on the first slot that reads clean with its key, in either half and on any of the
/// four attempts, and finds the value there; unless, in a checking GET, two slots at rest without
/// the key have ended it before.
pub proof fn law_get_finds_the_first_clean_slot(
    session: GetSession,
    seen: Seq<SlotState>,
    p: int,
    value: Seq<u8>,
)
    requires
        session.attempt == 0,
        !session.on_b,
        0 <= p < seen.len(),
        p < 8,
        seen[p].read() == Some((session.key@, value)),
        forall|q: int|
            0 <= q < p ==> !((#[trigger] seen[q]).read() matches Some(pair) && pair.0
                == session.key@),
        session.mode == GetMode::Checking ==> forall|q: int|
            0 < q < p && q % 2 == 1 ==> !((#[trigger] seen[q]).at_rest() && seen[q - 1].at_rest()),
    ensures
        run(session, seen) == Some(Outcome::Found(value)),
        reads_made(session, seen) == p + 1,
{
    lemma_goes_on(session, seen, p);
    assert(seen.skip(p)[0] == seen[p]);
}

/// A GET calls its key absent where it reads both slots at rest one after the other, and neither
/// these nor any slot before them reads clean with the key: a checking GET at the first such pair
/// of slots, the other one at the last of its four.
pub proof fn law_get_misses_on_two_slots_at_rest(
    session: GetSession,
    seen: Seq<SlotState>,
    n: int,
)
    requires
        session.attempt == 0,
        !session.on_b,
        0 < n < seen.len(),
        n < 8,
        n % 2 == 1,
        forall|q: int|
            0 <= q <= n ==> !((#[trigger] seen[q]).read() matches Some(pair) && pair.0
                == session.key@),
        seen[n - 1].at_rest(),
        seen[n].at_rest(),
        session.mode == GetMode::Checking ==> forall|q: int|
            0 < q < n && q % 2 == 1 ==> !((#[trigger] seen[q]).at_rest() && seen[q - 1].at_rest()),
        session.mode == GetMode::Sync ==> n == 7,
    ensures
        run(session, seen) == Some(Outcome::Miss),
        reads_made(session, seen) == n + 1,
{
    lemma_goes_on(session, seen, n);
    assert(seen.skip(n)[0] == seen[n]);
    assert(!(seen[n].read() matches Some(pair) && pair.0 == session.key@));
}

/// A GET that reads both slots four times without its key, the last time not both at rest, reports
/// a torn read; a checking one, where they were not both at rest before either.
pub proof fn law_get_is_torn_after_four_attempts(session: GetSession, seen: Seq<SlotState>)
    requires
        session.attempt == 0,
        !session.on_b,
        seen.len() >= 8,
        forall|q: int|
            0 <= q < 8 ==> !((#[trigger] seen[q]).read() matches Some(pair) && pair.0
                == session.key@),
        !(seen[6].at_rest() && seen[7].at_rest()),
        session.mode == GetMode::Checking ==> forall|q: int|
            0 < q < 7 && q % 2 == 1 ==> !((#[trigger] seen[q]).at_rest() && seen[q - 1].at_rest()),
    ensures
        run(session, seen) == Some(Outcome::TornRead),
        reads_made(session, seen) == 8,
{
    lemma_goes_on(session, seen, 7);
    assert(seen.skip(7)[0] == seen[7]);
    assert(!(seen[7].read() matches Some(pair) && pair.0 == session.key@));
}

/// What came of a GET tells what it read: of the slots before the last, none read clean with the
/// key; the last one did exactly where the GET found a value, which is the one that stood there. So
/// a miss, and a torn read, mean that no slot that was read held the key.
pub proof fn law_outcome_tells_what_was_read(session: GetSession, seen: Seq<SlotState>)
    requires
        run(session, seen) is Some,
    ensures
        ({
            let n = reads_made(session, seen);
            &&& 1 <= n <= seen.len()
            &&& forall|q: int|
                0 <= q < n - 1 ==> !((#[trigger] seen[q]).read() matches Some(pair) && pair.0
                    == session.key@)
            &&& match run(session, seen)->Some_0 {
                Outcome::Found(v) => seen[n - 1].read() == Some((session.key@, v)),
                _ => !(seen[n - 1].read() matches Some(pair) && pair.0 == session.key@),
            }
        }),
    decreases seen.len(),
{
    if session.verdict(seen[0]) is None {
        let rest = seen.skip(1);
        let next = session.moved_on(seen[0]);
        law_outcome_tells_what_was_read(next, rest);
        let n = reads_made(session, seen);
        assert(rest[n - 2] == seen[n - 1]);
        assert forall|q: int| 0 <= q < n - 1 implies !((#[trigger] seen[q]).read() matches Some(
            pair,
        ) && pair.0 == session.key@) by {
            if q > 0 {
                assert(rest[q - 1] == seen[q]);
                assert(!(rest[q - 1].read() matches Some(pair) && pair.0 == session.key@));
            }
        }
    }
}

/// On a table that nobody writes, a new GET finds exactly what the table's own lookup finds. A key
/// that is not found is a miss where both its slots are at rest; where a write was left half done
/// in one of them, the read is reported as torn. So on a table at rest every key that is not there
/// is a miss.
pub proof fn law_get_is_lookup(session: GetSession, slots: Seq<SlotState>)
    requires
        session.attempt == 0,
        !session.on_b,
    ensures
        ({
            let cap = TABLE_CAP as nat;
            let a = slots[cuckoo::home_a(cap, session.key@)];
            let b = slots[cuckoo::home_b(cap, session.key@)];
            let seen = unchanging(a, b);
            let result = run(session, seen);
            &&& result == Some(
                match cuckoo::lookup(slots, cap, session.key@) {
                    Some(v) => Outcome::Found(v),
                    None => if a.at_rest() && b.at_rest() {
                        Outcome::Miss
                    } else {
                        Outcome::TornRead
                    },
                },
            )
            &&& slots.len() == 2 * cap && cuckoo::all_at_rest(slots) && cuckoo::lookup(
                slots,
                cap,
                session.key@,
            ) is None ==> result == Some(Outcome::Miss)
        }),
{
    let cap = TABLE_CAP as nat;
    cuckoo::lemma_home_bounds(cap, session.key@);
    let a = slots[cuckoo::home_a(cap, session.key@)];
    let b = slots[cuckoo::home_b(cap, session.key@)];
    let s0 = unchanging(a, b);
    let s1 = seq![b, a, b, a, b, a, b];
    let s2 = seq![a, b, a, b, a, b];
    let s3 = seq![b, a, b, a, b];
    let s4 = seq![a, b, a, b];
    let s5 = seq![b, a, b];
    let s6 = seq![a, b];
    let s7 = seq![b];
    assert(s0.skip(1) =~= s1);
    assert(s1.skip(1) =~= s2);
    assert(s2.skip(1) =~= s3);
    assert(s3.skip(1) =~= s4);
    assert(s4.skip(1) =~= s5);
    assert(s5.skip(1) =~= s6);
    assert(s6.skip(1) =~= s7);
    let g1 = session.moved_on(a);
    let g2 = g1.moved_on(b);
    let g3 = g2.moved_on(a);
    let g4 = g3.moved_on(b);
    let g5 = g4.moved_on(a);
    let g6 = g5.moved_on(b);
    let g7 = g6.moved_on(a);
    lemma_run_step(session, s0);
    lemma_run_step(g1, s1);
    lemma_run_step(g2, s2);
    lemma_run_step(g3, s3);
    lemma_run_step(g4, s4);
    lemma_run_step(g5, s5);
    lemma_run_step(g6, s6);
    lemma_run_step(g7, s7);
}

/// The places that a client writes its next PUTs to: for each core, the next slot in turn.
pub struct PutCursors {
    pub next: [usize; 8],
}

/// A PUT to be sent.
pub struct PutPlan {
    /// The core that serves the key, and the slot that takes the PUT.
    pub core: usize,
    pub slot: usize,
    /// What to lay out in local memory.
    pub payload: [u8; 128],
    /// The write to be posted.
    pub write: WriteOrder,
}

impl PutCursors {
    /// Every cursor names a slot.
    pub open spec fn inv(&self) -> bool {
        forall|core: int| 0 <= core < NUM_CORES ==> (#[trigger] self.next@[core]) < SLOTS_PER_CORE
    }

    /// All cursors at the first slot.
    pub fn new() -> (cursors: Self)
        ensures
            cursors.inv(),
            cursors.next@ == Seq::new(8, |core: int| 0usize),
    {
        let next = [0usize; 8];
        assert(next@ =~= Seq::new(8, |core: int| 0usize));
        PutCursors { next }
    }

    /// Plans the PUT of a pair whose key `core` serves, and moves on the cursor of that core.
    pub fn plan_for_core(
        &mut self,
        remote: &PeerInfo,
        core: usize,
        key: &[u8; 24],
        value: &[u8; 24],
    ) -> (plan: PutPlan)
        requires
            old(self).inv(),
            msgbuf_fits(*remote),
            core < NUM_CORES,
        ensures
            final(self).inv(),
            final(self).next@ == old(self).next@.update(
                core as int,
                ((old(self).next@[core as int] + 1) % SLOTS_PER_CORE as int) as usize,
            ),
            plan.core == core,
            plan.slot == old(self).next@[core as int],
            plan.payload@ == msgbuf::put_image(key@, value@),
            plan.write.remote_addr == remote.msgbuf_addr + 128 * (64 * core + plan.slot),
            (plan.write.local_offset, plan.write.len) == (128u32, 128u32),
            plan.write == (WriteOrder {
                wr_id: (0xEE00_0000 + core * 0x100 + plan.slot) as u64,
                local_offset: PUT_STAGING_OFFSET,
                len: MSG_BYTES as u32,
                remote_addr: (remote.msgbuf_addr + msgbuf::offset_of(
                    core as int,
                    plan.slot as int,
                )) as u64,
                remote_rkey: remote.msgbuf_rkey,
            }),
    {
        let slot: usize = self.next[core];
        self.next[core] = (slot + 1) % SLOTS_PER_CORE;
        let c: u64 = core as u64;
        let s: u64 = slot as u64;
        assert(0xEE00_0000u64 | (c << 8) | s == 0xEE00_0000u64 + c * 0x100 + s) by (bit_vector)
            requires
                c < 8,
                s < 64,
        ;
        let write = WriteOrder {
            wr_id: 0xEE00_0000u64 | (c << 8) | s,
            local_offset: PUT_STAGING_OFFSET,
            len: MSG_BYTES as u32,
            remote_addr: remote.msgbuf_addr + slot_offset(core, slot) as u64,
            remote_rkey: remote.msgbuf_rkey,
        };
        PutPlan { core, slot, payload: build_put_payload(key, value), write }
    }

    /// Plans the PUT of a pair, and moves on the cursor of the core that serves its key.
    pub fn plan(&mut self, remote: &PeerInfo, key: &[u8; 24], value: &[u8; 24]) -> (plan: PutPlan)
        requires
            old(self).inv(),
            msgbuf_fits(*remote),
        ensures
            final(self).inv(),
            plan.core == (hash::xxh3(key@) as usize / 8) % NUM_CORES,
            plan.core < NUM_CORES,
            final(self).next@ == old(self).next@.update(
                plan.core as int,
                ((old(self).next@[plan.core as int] + 1) % SLOTS_PER_CORE as int) as usize,
            ),
            plan.slot == old(self).next@[plan.core as int],
            plan.payload@ == msgbuf::put_image(key@, value@),
            plan.write.remote_addr == remote.msgbuf_addr + 128 * (64 * plan.core + plan.slot),
            (plan.write.local_offset, plan.write.len) == (128u32, 128u32),
            plan.write == (WriteOrder {
                wr_id: (0xEE00_0000 + plan.core * 0x100 + plan.slot) as u64,
                local_offset: PUT_STAGING_OFFSET,
                len: MSG_BYTES as u32,
                remote_addr: (remote.msgbuf_addr + msgbuf::offset_of(
                    plan.core as int,
                    plan.slot as int,
                )) as u64,
                remote_rkey: remote.msgbuf_rkey,
            }),
    {
        self.plan_for_core(remote, core_for_key(key), key, value)
    }
}

/// A cursor after `n` PUTs, from `start` on.
pub open spec fn cursor_after(start: nat, n: nat) -> nat
    decreases n,
{
    if n == 0 {
        start
    } else {
        (cursor_after(start, (n - 1) as nat) + 1) % SLOTS_PER_CORE as nat
    }
}

/// A cursor goes round the slots of its core: any 64 PUTs in a row go to 64 slots.
pub proof fn law_cursor_goes_round(start: nat, n: nat, m: nat)
    requires
        start < SLOTS_PER_CORE,
        n < m < n + SLOTS_PER_CORE,
    ensures
        cursor_after(start, n) == (start + n) % SLOTS_PER_CORE as nat,
        cursor_after(start, n) != cursor_after(start, m),
        cursor_after(start, n + SLOTS_PER_CORE as nat) == cursor_after(start, n),
{
    lemma_cursor_after(start, n);
    lemma_cursor_after(start, m);
    lemma_cursor_after(start, n + SLOTS_PER_CORE as nat);
    let a = start + n;
    let b = start + m;
    assert(a % 64 != b % 64 && (a + 64) % 64 == a % 64) by {
        assert(a == 64 * (a / 64) + a % 64);
        assert(b == 64 * (b / 64) + b % 64);
    }
}

proof fn lemma_cursor_after(start: nat, n: nat)
    requires
        start < SLOTS_PER_CORE,
    ensures
        cursor_after(start, n) == (start + n) % SLOTS_PER_CORE as nat,
    decreases n,
{
    if n > 0 {
        lemma_cursor_after(start, (n - 1) as nat);
    }
}

/// What a PUT writes, a later GET reads.
///
/// A client writes the payload of `key` and `value` to the free slot `slot` of core `core`; the
/// core is swept; then the key is read. If the table was well formed, every PUT of the sweep found
/// a place without running over a version, and no slot behind this one holds another PUT of the
/// same key, then the GET finds `value`.
pub proof fn law_put_reaches_get<R: Region>(
    bytes: Seq<u8>,
    core: int,
    slot: int,
    key: Seq<u8>,
    value: Seq<u8>,
    before: PutLoader<R>,
    after: PutLoader<R>,
    session: GetSession,
)
    requires
        bytes.len() >= MSGBUF_BYTES,
        0 <= core < NUM_CORES,
        0 <= slot < SLOTS_PER_CORE,
        bytes[msgbuf::offset_of(core, slot)] == 0,
        key.len() == 24,
        value.len() == 24,
        before.table.cap == TABLE_CAP,
        ({
            let written = region::splice(
                bytes,
                msgbuf::offset_of(core, slot),
                msgbuf::put_image(key, value),
            );
            msgbuf::takes_all(
                before,
                msgbuf::pending_in(written, core, SLOTS_PER_CORE as int),
                after,
            )
        }),
        forall|q: int|
            msgbuf::pending_in(bytes, core, slot).len() <= q < msgbuf::pending_in(
                bytes,
                core,
                SLOTS_PER_CORE as int,
            ).len() ==> (#[trigger] msgbuf::pending_in(bytes, core, SLOTS_PER_CORE as int)[q]).0
                != key,
        session.key@ == key,
        session.attempt == 0,
        !session.on_b,
    ensures
        ({
            let cap = TABLE_CAP as nat;
            let pending = msgbuf::pending_in(bytes, core, SLOTS_PER_CORE as int);
            let puts = pending.insert(
                msgbuf::pending_in(bytes, core, slot).len() as int,
                (key, value),
            );
            let slots = after.table.slots();
            let seen = unchanging(
                slots[cuckoo::home_a(cap, key)],
                slots[cuckoo::home_b(cap, key)],
            );
            before.table.well_formed() && server::all_placed(before.table.slots(), cap, puts)
                ==> run(session, seen) == Some(Outcome::Found(value))
        }),
{
    let cap = TABLE_CAP as nat;
    let all = SLOTS_PER_CORE as int;
    let pending = msgbuf::pending_in(bytes, core, all);
    let p = msgbuf::pending_in(bytes, core, slot).len() as int;
    let puts = pending.insert(p, (key, value));
    msgbuf::law_payload_is_pending(bytes, core, slot, key, value, core);
    msgbuf::lemma_pending_grows(bytes, core, slot, all);
    server::law_sweep_inserts(before, puts, after);
    server::law_puts_are_served(before.table.slots(), cap, puts);
    assert(puts[p] == (key, value));
    assert forall|q: int| p < q < puts.len() implies (#[trigger] puts[q]).0 != puts[p].0 by {
        assert(puts[q] == pending[q - 1]);
    }
    server::law_last_put_counts(before.table.dict(), puts, p);
    law_get_is_lookup(session, after.table.slots());
    if before.table.well_formed() && server::all_placed(before.table.slots(), cap, puts) {
        assert(cuckoo::dict(after.table.slots(), cap).contains_pair(key, value));
    }
}

/// A PUT that a sweep does not drop is what GETs find: where the sweep of the core of that PUT
/// counts no PUT as dropped, a GET finds the value of the last PUT of its key that the sweep took,
/// whatever pairs these are. The table must be well formed, with versions that are not near their
/// end.
pub proof fn law_swept_puts_reach_gets<R: Region>(
    bytes: Seq<u8>,
    core: int,
    before: PutLoader<R>,
    after: PutLoader<R>,
    p: int,
    session: GetSession,
)
    requires
        before.table.cap == TABLE_CAP,
        before.table.well_formed(),
        cuckoo::versions_below(before.table.slots(), 0xFFFE_FFFE),
        msgbuf::takes_all(before, msgbuf::pending_in(bytes, core, SLOTS_PER_CORE as int), after),
        after.dropped == before.dropped < u64::MAX,
        0 <= p < msgbuf::pending_in(bytes, core, SLOTS_PER_CORE as int).len(),
        forall|q: int|
            p < q < msgbuf::pending_in(bytes, core, SLOTS_PER_CORE as int).len() ==> (
            #[trigger] msgbuf::pending_in(bytes, core, SLOTS_PER_CORE as int)[q]).0
                != session.key@,
        msgbuf::pending_in(bytes, core, SLOTS_PER_CORE as int)[p].0 == session.key@,
        session.attempt == 0,
        !session.on_b,
    ensures
        ({
            let cap = TABLE_CAP as nat;
            let slots = after.table.slots();
            let seen = unchanging(
                slots[cuckoo::home_a(cap, session.key@)],
                slots[cuckoo::home_b(cap, session.key@)],
            );
            run(session, seen) == Some(
                Outcome::Found(msgbuf::pending_in(bytes, core, SLOTS_PER_CORE as int)[p].1),
            )
        }),
{
    let puts = msgbuf::pending_in(bytes, core, SLOTS_PER_CORE as int);
    msgbuf::lemma_pending_at_most(bytes, core, SLOTS_PER_CORE as int);
    assert(cuckoo::versions_below(before.table.slots(), 0xFFFF_FFFE - 1024 * puts.len()));
    server::law_sweep_without_drops_serves_every_put(before, puts, after, session.key@, p);
    law_get_is_lookup(session, after.table.slots());
}

/// An operation of the workload.
pub enum PlannedOp {
    Put { key: [u8; 24], value: [u8; 24] },
    Get { key: [u8; 24] },
}

/// The number of the key of operation `op` of thread `thread`.
pub open spec fn key_number(thread: int, op: int) -> int {
    (thread * OPS_PER_THREAD + op) % TEST_KEYS as int
}

/// Whether the key of a number is written; the others are read.
pub open spec fn is_put_key(number: int) -> bool {
    number % 100 < PUT_RATIO_PCT
}

/// Operation `op` of thread `thread`.
pub fn planned_op(thread: usize, op: usize) -> (planned: PlannedOp)
    requires
        thread * OPS_PER_THREAD + op <= usize::MAX,
    ensures
        ({
            let number = key_number(thread as int, op as int);
            match planned {
                PlannedOp::Put { key, value } => {
                    &&& is_put_key(number)
                    &&& key@ == keys::block_of(number as u64)
                    &&& value@ == keys::block_of((number * 3 + 7) as u64)
                },
                PlannedOp::Get { key } => {
                    &&& !is_put_key(number)
                    &&& key@ == keys::block_of(number as u64)
                },
            }
        }),
        ({
            let number = (thread * 100_000 + op) % 100_000;
            match planned {
                PlannedOp::Put { key, value } => {
                    &&& number % 100 < 5
                    &&& key@ == keys::block_of(number as u64)
                    &&& value@ == keys::block_of((3 * number + 7) as u64)
                },
                PlannedOp::Get { key } => {
                    &&& number % 100 >= 5
                    &&& key@ == keys::block_of(number as u64)
                },
            }
        }),
{
    let number: u64 = ((thread * OPS_PER_THREAD + op) as u64) % TEST_KEYS;
    let key = make_key(number);
    if number % 100 < PUT_RATIO_PCT {
        PlannedOp::Put { key, value: make_val(number * 3 + 7) }
    } else {
        PlannedOp::Get { key }
    }
}

/// How many of the first `n` operations of thread `thread` are PUTs.
pub open spec fn puts_among(thread: int, n: nat) -> nat
    decreases n,
{
    if n == 0 {
        0
    } else {
        puts_among(thread, (n - 1) as nat) + if is_put_key(key_number(thread, n - 1)) {
            1nat
        } else {
            0
        }
    }
}

/// A thread uses every key of the workload once, in order, and of its operations exactly five in
/// a hundred are PUTs.
pub proof fn law_five_percent_puts(thread: int, op: int, n: nat)
    requires
        0 <= thread,
        0 <= op < OPS_PER_THREAD,
        n <= OPS_PER_THREAD,
    ensures
        key_number(thread, op) == op,
        puts_among(thread, n) == n / 100 * 5 + vstd::math::min(n as int % 100, 5),
        puts_among(thread, OPS_PER_THREAD as nat) * 100 == PUT_RATIO_PCT * OPS_PER_THREAD,
{
    lemma_key_number(thread, op);
    lemma_puts_among(thread, n);
    lemma_puts_among(thread, OPS_PER_THREAD as nat);
}

proof fn lemma_key_number(thread: int, op: int)
    requires
        0 <= thread,
        0 <= op < OPS_PER_THREAD,
    ensures
        key_number(thread, op) == op,
{
}

proof fn lemma_puts_among(thread: int, n: nat)
    requires
        0 <= thread,
        n <= OPS_PER_THREAD,
    ensures
        puts_among(thread, n) == n / 100 * 5 + vstd::math::min(n as int % 100, 5),
    decreases n,
{
    if n > 0 {
        lemma_puts_among(thread, (n - 1) as nat);
        lemma_key_number(thread, n - 1);
    }
}

/// What a thread of the workload has seen.
pub struct Tally {
    pub correct: u64,
    pub miss: u64,
    pub torn: u64,
    pub mismatch: u64,
    pub puts: u64,
}

/// One more, in 64 bits.
pub open spec fn bumped(count: u64) -> u64 {
    ((count + 1) % 0x1_0000_0000_0000_0000) as u64
}

impl Tally {
    /// The tally once it has counted an operation: a GET with its outcome, or a PUT.
    pub open spec fn after(self, op: Option<Outcome>) -> Tally {
        match op {
            Some(Outcome::Found(v)) => if keys::number_of(v) == 0 {
                Tally { mismatch: bumped(self.mismatch), ..self }
            } else {
                Tally { correct: bumped(self.correct), ..self }
            },
            Some(Outcome::Miss) => Tally { miss: bumped(self.miss), ..self },
            Some(Outcome::TornRead) => Tally { torn: bumped(self.torn), ..self },
            None => Tally { puts: bumped(self.puts), ..self },
        }
    }

    /// Nothing seen.
    pub fn new() -> (tally: Self)
        ensures
            tally == (Tally { correct: 0, miss: 0, torn: 0, mismatch: 0, puts: 0 }),
    {
        Tally { correct: 0, miss: 0, torn: 0, mismatch: 0, puts: 0 }
    }

    /// Counts a GET. No value of the workload stands for zero: one that does is a mismatch.
    pub fn count_get(&mut self, result: &GetResult)
        ensures
            *final(self) == (match result@ {
                Outcome::Found(v) => if keys::number_of(v) == 0 {
                    Tally { mismatch: bumped(old(self).mismatch), ..*old(self) }
                } else {
                    Tally { correct: bumped(old(self).correct), ..*old(self) }
                },
                Outcome::Miss => Tally { miss: bumped(old(self).miss), ..*old(self) },
                Outcome::TornRead => Tally { torn: bumped(old(self).torn), ..*old(self) },
            }),
            *final(self) == old(self).after(Some(result@)),
            ({
                let (was, now) = (*old(self), *final(self));
                match result@ {
                    Outcome::Found(v) => if keys::number_of(v) == 0 {
                        &&& was.mismatch < u64::MAX ==> now.mismatch == was.mismatch + 1
                        &&& now == Tally { mismatch: now.mismatch, ..was }
                    } else {
                        &&& was.correct < u64::MAX ==> now.correct == was.correct + 1
                        &&& now == Tally { correct: now.correct, ..was }
                    },
                    Outcome::Miss => {
                        &&& was.miss < u64::MAX ==> now.miss == was.miss + 1
                        &&& now == Tally { miss: now.miss, ..was }
                    },
                    Outcome::TornRead => {
                        &&& was.torn < u64::MAX ==> now.torn == was.torn + 1
                        &&& now == Tally { torn: now.torn, ..was }
                    },
                }
            }),
    {
        match result {
            GetResult::Found(v) => {
                if val_number(v) == 0 {
                    self.mismatch = self.mismatch.wrapping_add(1);
                } else {
                    self.correct = self.correct.wrapping_add(1);
                }
            },
            GetResult::Miss => {
                self.miss = self.miss.wrapping_add(1);
            },
            GetResult::TornRead => {
                self.torn = self.torn.wrapping_add(1);
            },
        }
    }

    /// Counts a PUT.
    pub fn count_put(&mut self)
        ensures
            *final(self) == (Tally { puts: bumped(old(self).puts), ..*old(self) }),
            *final(self) == old(self).after(None),
            old(self).puts < u64::MAX ==> final(self).puts == old(self).puts + 1,
    {
        self.puts = self.puts.wrapping_add(1);
    }

    /// How many of `total` operations were GETs.
    pub fn gets(&self, total: u64) -> (gets: u64)
        requires
            self.puts <= total,
        ensures
            gets == total - self.puts,
    {
        total - self.puts
    }
}

/// A new tally once it has counted `ops`, one after the other.
pub open spec fn tally_of(ops: Seq<Option<Outcome>>) -> Tally
    decreases ops.len(),
{
    if ops.len() == 0 {
        Tally { correct: 0, miss: 0, torn: 0, mismatch: 0, puts: 0 }
    } else {
        tally_of(ops.drop_last()).after(ops.last())
    }
}

/// Whether an operation is a GET that found a value which stands for zero, or one that does not, as
/// `zero` says.
pub open spec fn finds(op: Option<Outcome>, zero: bool) -> bool {
    match op {
        Some(Outcome::Found(v)) => (keys::number_of(v) == 0) == zero,
        _ => false,
    }
}

proof fn lemma_filter_step(ops: Seq<Option<Outcome>>, p: spec_fn(Option<Outcome>) -> bool)
    requires
        ops.len() > 0,
    ensures
        ops.filter(p).len() == ops.drop_last().filter(p).len() + (if p(ops.last()) {
            1int
        } else {
            0
        }),
{
    reveal(Seq::filter);
}

proof fn lemma_one_more(count: u64)
    requires
        count < u64::MAX,
    ensures
        bumped(count) == count + 1,
{
}

/// One more operation is one more in the field of its kind.
proof fn lemma_after(tally: Tally, op: Option<Outcome>)
    requires
        tally.correct < u64::MAX,
        tally.mismatch < u64::MAX,
        tally.miss < u64::MAX,
        tally.torn < u64::MAX,
        tally.puts < u64::MAX,
    ensures
        ({
            let more = |counts: bool|
                if counts {
                    1int
                } else {
                    0
                };
            let after = tally.after(op);
            &&& after.correct == tally.correct + more(finds(op, false))
            &&& after.mismatch == tally.mismatch + more(finds(op, true))
            &&& after.miss == tally.miss + more(op == Some(Outcome::Miss))
            &&& after.torn == tally.torn + more(op == Some(Outcome::TornRead))
            &&& after.puts == tally.puts + more(op is None)
        }),
{
    lemma_one_more(tally.correct);
    lemma_one_more(tally.mismatch);
    lemma_one_more(tally.miss);
    lemma_one_more(tally.torn);
    lemma_one_more(tally.puts);
}

/// Each field of a tally is the number of operations of its kind, of all that were counted: the
/// GETs that found a value, one that stands for no zero or one that does; those that missed; those
/// that were torn; and the PUTs. So together they are all operations.
pub proof fn law_tally_counts_every_operation(ops: Seq<Option<Outcome>>)
    requires
        ops.len() <= u64::MAX,
    ensures
        ({
            let tally = tally_of(ops);
            &&& tally.correct == ops.filter(|op: Option<Outcome>| finds(op, false)).len()
            &&& tally.mismatch == ops.filter(|op: Option<Outcome>| finds(op, true)).len()
            &&& tally.miss == ops.filter(|op: Option<Outcome>| op == Some(Outcome::Miss)).len()
            &&& tally.torn == ops.filter(|op: Option<Outcome>| op == Some(Outcome::TornRead)).len()
            &&& tally.puts == ops.filter(|op: Option<Outcome>| op is None).len()
            &&& tally.correct + tally.mismatch + tally.miss + tally.torn + tally.puts == ops.len()
        }),
    decreases ops.len(),
{
    if ops.len() == 0 {
        reveal(Seq::filter);
    } else {
        law_tally_counts_every_operation(ops.drop_last());
        lemma_filter_step(ops, |op: Option<Outcome>| finds(op, false));
        lemma_filter_step(ops, |op: Option<Outcome>| finds(op, true));
        lemma_filter_step(ops, |op: Option<Outcome>| op == Some(Outcome::Miss));
        lemma_filter_step(ops, |op: Option<Outcome>| op == Some(Outcome::TornRead));
        lemma_filter_step(ops, |op: Option<Outcome>| op is None);
        lemma_after(tally_of(ops.drop_last()), ops.last());
    }
}

/// What is counted first and what is counted then add up.
pub proof fn law_tally_adds_up(first: Seq<Option<Outcome>>, second: Seq<Option<Outcome>>)
    requires
        first.len() + second.len() <= u64::MAX,
    ensures
        ({
            let (a, b, both) = (tally_of(first), tally_of(second), tally_of(first + second));
            &&& both.correct == a.correct + b.correct
            &&& both.mismatch == a.mismatch + b.mismatch
            &&& both.miss == a.miss + b.miss
            &&& both.torn == a.torn + b.torn
            &&& both.puts == a.puts + b.puts
        }),
    decreases second.len(),
{
    let all = first + second;
    if second.len() == 0 {
        assert(all =~= first);
    } else {
        let rest = second.drop_last();
        law_tally_adds_up(first, rest);
        assert(all.drop_last() =~= first + rest);
        assert(all.last() == second.last());
        law_tally_counts_every_operation(first + rest);
        law_tally_counts_every_operation(rest);
        lemma_after(tally_of(first + rest), second.last());
        lemma_after(tally_of(rest), second.last());
    }
}

/// The workload asks for no key but those that the server starts with, and the table has more slots
/// than these. No value that the server starts with, or that the workload writes, stands for zero:
/// a GET that finds one of them is counted as correct.
pub proof fn law_workload_keys_are_served(thread: int, op: int)
    requires
        0 <= thread,
        0 <= op,
    ensures
        ({
            let number = key_number(thread, op);
            &&& 0 <= number < server::BASELINE_KEYS
            &&& server::BASELINE_KEYS == 100_000
            &&& server::BASELINE_KEYS < 2 * TABLE_CAP
            &&& keys::number_of(server::baseline_value(number as nat)) == 2 * number + 1
            &&& keys::number_of(keys::block_of((3 * number + 7) as u64)) == 3 * number + 7
            &&& finds(Some(Outcome::Found(server::baseline_value(number as nat))), false)
            &&& finds(Some(Outcome::Found(keys::block_of((3 * number + 7) as u64))), false)
        }),
{
    let number = key_number(thread, op);
    assert(0 <= thread * OPS_PER_THREAD) by (nonlinear_arith)
        requires
            0 <= thread,
    ;
    keys::law_number_of_block((2 * number + 1) as u64);
    keys::law_number_of_block((3 * number + 7) as u64);
}

} // verus!
