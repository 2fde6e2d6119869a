//! The benchmark: GETs in batches and through a cache, and what is counted of them.

use rand::rngs::ThreadRng;
use rand::Rng;
use vstd::multiset::Multiset;
use vstd::prelude::*;

use crate::client;
use crate::client::{slot_addrs, ReadOrder, SLOT_A_OFFSET, SLOT_B_OFFSET, SLOT_LEN};
use crate::cuckoo;
use crate::cuckoo::SlotState;
use crate::handshake::PeerInfo;
use crate::hash;
use crate::histogram;
use crate::histogram::LatencyHistogram;
use crate::keys;
use crate::keys::make_key;
use crate::lru;
use crate::lru::LruCache;
use crate::region::{same_block, Region};
use crate::server::TABLE_CAP;
use crate::table;
use crate::table::{read_slot_at, SLOT_BYTES};

verus! {

/// How many GETs a batch has at most.
pub const MAX_BATCH: usize = 32;

/// How far apart the GETs of a batch arrive in local memory.
pub const LOCAL_STRIDE: usize = 128;

/// The size of the memory that the benchmark registers.
pub const BENCH_BUF_LEN: usize = MAX_BATCH * LOCAL_STRIDE;

/// How many pairs the client's cache holds.
pub const CACHE_ENTRIES: usize = 1_000;

/// The batch sizes that are measured.
pub fn batch_sizes() -> (sizes: [usize; 5])
    ensures
        sizes@ == seq![1usize, 4, 8, 16, 32],
{
    let sizes = [1usize, 4, 8, 16, 32];
    assert(sizes@ =~= seq![1usize, 4, 8, 16, 32]);
    sizes
}

/// What came of a GET: the value and the half it was found in, or nothing.
#[derive(Clone, Copy)]
pub enum GetResult {
    HitA([u8; 24]),
    HitB([u8; 24]),
    Miss,
}

/// What came of a GET, as mathematics.
#[verifier::ext_equal]
pub enum Outcome {
    HitA(Seq<u8>),
    HitB(Seq<u8>),
    Miss,
}

impl View for GetResult {
    type V = Outcome;

    open spec fn view(&self) -> Outcome {
        match self {
            GetResult::HitA(v) => Outcome::HitA(v@),
            GetResult::HitB(v) => Outcome::HitB(v@),
            GetResult::Miss => Outcome::Miss,
        }
    }
}

impl Outcome {
    /// The value that was found, if one was.
    pub open spec fn value(self) -> Option<Seq<u8>> {
        match self {
            Outcome::HitA(v) => Some(v),
            Outcome::HitB(v) => Some(v),
            Outcome::Miss => None,
        }
    }
}

/// What a GET of `key` comes to that has read the slots `a` and `b`.
pub open spec fn outcome_of(a: SlotState, b: SlotState, key: Seq<u8>) -> Outcome {
    match client::value_in_slot(a, key) {
        Some(v) => Outcome::HitA(v),
        None => match client::value_in_slot(b, key) {
            Some(v) => Outcome::HitB(v),
            None => Outcome::Miss,
        },
    }
}

/// What GET `i` of a batch comes to, once its slots have arrived in local memory.
pub open spec fn batch_outcome(bytes: Seq<u8>, i: int, key: Seq<u8>) -> Outcome {
    outcome_of(
        table::state_at(bytes, i * LOCAL_STRIDE),
        table::state_at(bytes, i * LOCAL_STRIDE + SLOT_BYTES),
        key,
    )
}

/// Takes the result of GET `i` of a batch out of local memory.
pub fn read_batch_result<R: Region>(mr: &R, i: usize, key: &[u8; 24]) -> (result: GetResult)
    requires
        (i + 1) * LOCAL_STRIDE <= mr.bytes().len(),
    ensures
        result@ == batch_outcome(mr.bytes(), i as int, key@),
        ({
            let a = table::state_at(mr.bytes(), 128 * i);
            let b = table::state_at(mr.bytes(), 128 * i + 64);
            match result {
                GetResult::HitA(v) => a.read() == Some((key@, v@)),
                GetResult::HitB(v) => {
                    &&& !(a.read() matches Some(pair) && pair.0 == key@)
                    &&& b.read() == Some((key@, v@))
                },
                GetResult::Miss => {
                    &&& !(a.read() matches Some(pair) && pair.0 == key@)
                    &&& !(b.read() matches Some(pair) && pair.0 == key@)
                },
            }
        }),
{
    let _size: usize = mr.size();
    let base: usize = i * LOCAL_STRIDE;
    if let Some((k, v)) = read_slot_at(mr, base) {
        if same_block(&k, key) {
            return GetResult::HitA(v);
        }
    }
    if let Some((k, v)) = read_slot_at(mr, base + SLOT_BYTES) {
        if same_block(&k, key) {
            return GetResult::HitB(v);
        }
    }
    GetResult::Miss
}

/// A GET whose slots are those of a table finds exactly what the table's own lookup finds.
pub proof fn law_batch_get_is_lookup(bytes: Seq<u8>, i: int, slots: Seq<SlotState>, key: Seq<u8>)
    ensures
        table::state_at(bytes, i * LOCAL_STRIDE) == slots[cuckoo::home_a(TABLE_CAP as nat, key)]
            && table::state_at(bytes, i * LOCAL_STRIDE + SLOT_BYTES) == slots[cuckoo::home_b(
            TABLE_CAP as nat,
            key,
        )] ==> batch_outcome(bytes, i, key).value() == cuckoo::lookup(slots, TABLE_CAP as nat, key),
{
}

/// The two reads of a GET of `key` that posts both at once.
pub open spec fn pipelined(remote: PeerInfo, key: Seq<u8>) -> (ReadOrder, ReadOrder) {
    (
        ReadOrder {
            wr_id: 0xA,
            local_offset: SLOT_A_OFFSET,
            len: SLOT_LEN,
            remote_addr: client::slot_addr(remote, cuckoo::home_a(TABLE_CAP as nat, key)) as u64,
            remote_rkey: remote.rkey,
        },
        ReadOrder {
            wr_id: 0xB,
            local_offset: SLOT_B_OFFSET,
            len: SLOT_LEN,
            remote_addr: client::slot_addr(remote, cuckoo::home_b(TABLE_CAP as nat, key)) as u64,
            remote_rkey: remote.rkey,
        },
    )
}

/// The two reads of a GET that posts both at once: half A, to be posted unsignaled, then half B,
/// to be posted signaled.
pub fn pipelined_orders(remote: &PeerInfo, key: &[u8; 24]) -> (orders: (ReadOrder, ReadOrder))
    requires
        client::table_fits(*remote),
    ensures
        orders == pipelined(*remote, key@),
        ({
            let ia = hash::xxh3(key@) as usize as int % 131072;
            let ib = hash::xxh3_seeded(key@, 0xC0FFEE_DEADBEEF) as usize as int % 131072;
            let (a, b) = orders;
            &&& (a.wr_id, a.local_offset, a.len, a.remote_rkey) == (
                0xAu64,
                0usize,
                64u32,
                remote.rkey,
            )
            &&& (b.wr_id, b.local_offset, b.len, b.remote_rkey) == (
                0xBu64,
                64usize,
                64u32,
                remote.rkey,
            )
            &&& a.remote_addr == remote.addr + 64 * ia
            &&& b.remote_addr == remote.addr + 64 * (131072 + ib)
        }),
{
    let (addr_a, addr_b) = slot_addrs(remote, key);
    (
        ReadOrder {
            wr_id: 0xA,
            local_offset: SLOT_A_OFFSET,
            len: SLOT_LEN,
            remote_addr: addr_a,
            remote_rkey: remote.rkey,
        },
        ReadOrder {
            wr_id: 0xB,
            local_offset: SLOT_B_OFFSET,
            len: SLOT_LEN,
            remote_addr: addr_b,
            remote_rkey: remote.rkey,
        },
    )
}

/// The addresses of the slots of each of some keys.
pub fn batch_addrs(remote: &PeerInfo, keys: &[[u8; 24]]) -> (addrs: Vec<(u64, u64)>)
    requires
        client::table_fits(*remote),
    ensures
        addrs@.len() == keys@.len(),
        forall|i: int|
            #![trigger addrs@[i]]
            0 <= i < keys@.len() ==> {
                &&& addrs@[i].0 == client::slot_addr(
                    *remote,
                    cuckoo::home_a(TABLE_CAP as nat, keys@[i]@),
                )
                &&& addrs@[i].1 == client::slot_addr(
                    *remote,
                    cuckoo::home_b(TABLE_CAP as nat, keys@[i]@),
                )
            },
{
    let mut addrs: Vec<(u64, u64)> = Vec::new();
    let mut i: usize = 0;
    while i < keys.len()
        invariant
            client::table_fits(*remote),
            i <= keys@.len(),
            addrs@.len() == i,
            forall|j: int|
                #![trigger addrs@[j]]
                0 <= j < i ==> {
                    &&& addrs@[j].0 == client::slot_addr(
                        *remote,
                        cuckoo::home_a(TABLE_CAP as nat, keys@[j]@),
                    )
                    &&& addrs@[j].1 == client::slot_addr(
                        *remote,
                        cuckoo::home_b(TABLE_CAP as nat, keys@[j]@),
                    )
                },
        decreases keys@.len() - i,
    {
        addrs.push(slot_addrs(remote, &keys[i]));
        i += 1;
    }
    addrs
}

/// Takes the results of a batch out of local memory, as its GETs are reported complete. A GET that
/// is not reported counts as a miss.
pub fn collect_batch<R: Region>(mr: &R, keys: &[[u8; 24]], completions: &[u64]) -> (results: Vec<
    GetResult,
>)
    requires
        keys@.len() * LOCAL_STRIDE <= mr.bytes().len(),
        forall|c: int| 0 <= c < completions@.len() ==> (#[trigger] completions@[c]) < keys@.len(),
    ensures
        results@.len() == keys@.len(),
        forall|i: int|
            0 <= i < keys@.len() ==> (#[trigger] results@[i])@ == (if completions@.contains(
                i as u64,
            ) {
                batch_outcome(mr.bytes(), i, keys@[i]@)
            } else {
                Outcome::Miss
            }),
{
    let mut results: Vec<GetResult> = Vec::new();
    let total: usize = keys.len();
    let mut n: usize = 0;
    while n < total
        invariant
            n <= total == keys@.len(),
            results@.len() == n,
            forall|i: int| 0 <= i < n ==> (#[trigger] results@[i]) == GetResult::Miss,
        decreases keys@.len() - n,
    {
        results.push(GetResult::Miss);
        n += 1;
    }
    let mut c: usize = 0;
    while c < completions.len()
        invariant
            keys@.len() * LOCAL_STRIDE <= mr.bytes().len(),
            forall|d: int|
                0 <= d < completions@.len() ==> (#[trigger] completions@[d]) < keys@.len(),
            c <= completions@.len(),
            results@.len() == keys@.len() == total,
            forall|i: int|
                0 <= i < keys@.len() ==> (#[trigger] results@[i])@ == (if completions@.take(
                    c as int,
                ).contains(i as u64) {
                    batch_outcome(mr.bytes(), i, keys@[i]@)
                } else {
                    Outcome::Miss
                }),
        decreases completions@.len() - c,
    {
        let ghost done = completions@.take(c as int);
        let ghost more = completions@.take(c + 1);
        let i: usize = completions[c] as usize;
        assert(completions@[c as int] < keys@.len());
        assert(i == completions@[c as int]);
        results[i] = read_batch_result(mr, i, &keys[i]);
        proof {
            assert(more =~= done.push(i as u64));
            assert(more[c as int] == i);
            assert forall|j: int| 0 <= j < keys@.len() implies (#[trigger] more.contains(j as u64))
                == (j == i || done.contains(j as u64)) by {
                if done.contains(j as u64) {
                    let d = choose|d: int| 0 <= d < done.len() && done[d] == j as u64;
                    assert(more[d] == j as u64);
                }
                if more.contains(j as u64) {
                    let d = choose|d: int| 0 <= d < more.len() && more[d] == j as u64;
                    if d < done.len() {
                        assert(done[d] == j as u64);
                    }
                }
            }
        }
        c += 1;
    }
    assert(completions@.take(completions@.len() as int) =~= completions@);
    results
}

/// How many GETs came to what.
pub struct Counts {
    pub hit_a: u64,
    pub hit_b: u64,
    pub miss: u64,
}

/// `counts` with one more result.
pub open spec fn counted(counts: Counts, outcome: Outcome) -> Counts {
    match outcome {
        Outcome::HitA(_) => Counts { hit_a: (counts.hit_a + 1) as u64, ..counts },
        Outcome::HitB(_) => Counts { hit_b: (counts.hit_b + 1) as u64, ..counts },
        Outcome::Miss => Counts { miss: (counts.miss + 1) as u64, ..counts },
    }
}

/// `counts` with some more results.
pub open spec fn counted_all(counts: Counts, results: Seq<GetResult>) -> Counts
    decreases results.len(),
{
    if results.len() == 0 {
        counts
    } else {
        counted(counted_all(counts, results.drop_last()), results.last()@)
    }
}

impl Counts {
    /// How many GETs are counted.
    pub open spec fn total(&self) -> int {
        self.hit_a + self.hit_b + self.miss
    }

    /// Nothing counted.
    pub fn new() -> (counts: Self)
        ensures
            counts == (Counts { hit_a: 0, hit_b: 0, miss: 0 }),
    {
        Counts { hit_a: 0, hit_b: 0, miss: 0 }
    }
}

/// Counts a result.
pub fn add_count(counts: &mut Counts, result: &GetResult)
    requires
        match result {
            GetResult::HitA(_) => old(counts).hit_a < u64::MAX,
            GetResult::HitB(_) => old(counts).hit_b < u64::MAX,
            GetResult::Miss => old(counts).miss < u64::MAX,
        },
    ensures
        *final(counts) == counted(*old(counts), result@),
        final(counts).total() == old(counts).total() + 1,
        match result {
            GetResult::HitA(_) => final(counts).hit_a == old(counts).hit_a + 1,
            GetResult::HitB(_) => final(counts).hit_b == old(counts).hit_b + 1,
            GetResult::Miss => final(counts).miss == old(counts).miss + 1,
        },
{
    match result {
        GetResult::HitA(_) => {
            counts.hit_a = counts.hit_a + 1;
        },
        GetResult::HitB(_) => {
            counts.hit_b = counts.hit_b + 1;
        },
        GetResult::Miss => {
            counts.miss = counts.miss + 1;
        },
    }
}

/// `rand::rngs::ThreadRng` is a source of random numbers; nothing is claimed of it.
#[verifier::external_type_specification]
#[verifier::external_body]
pub struct ExThreadRng(ThreadRng);

/// `rand::Rng::gen_range` gives a number of the range it is asked for.
#[verifier::external_body]
fn gen_below(rng: &mut ThreadRng, n: u64) -> (number: u64)
    requires
        n > 0,
    ensures
        number < n,
{
    rng.gen_range(0..n)
}

/// Whether `key` stands for a number below `key_space`.
pub open spec fn is_key_below(key: Seq<u8>, key_space: u64) -> bool {
    exists|id: u64| id < key_space && key == #[trigger] keys::block_of(id)
}

/// Draws a key.
pub fn random_key(rng: &mut ThreadRng, key_space: u64) -> (key: [u8; 24])
    requires
        key_space > 0,
    ensures
        is_key_below(key@, key_space),
{
    make_key(gen_below(rng, key_space))
}

/// Draws `n` keys.
pub fn random_keys(rng: &mut ThreadRng, key_space: u64, n: usize) -> (drawn: Vec<[u8; 24]>)
    requires
        key_space > 0,
    ensures
        drawn@.len() == n,
        forall|i: int| 0 <= i < n ==> is_key_below((#[trigger] drawn@[i])@, key_space),
{
    let mut drawn: Vec<[u8; 24]> = Vec::new();
    let mut i: usize = 0;
    while i < n
        invariant
            key_space > 0,
            i <= n,
            drawn@.len() == i,
            forall|j: int| 0 <= j < i ==> is_key_below((#[trigger] drawn@[j])@, key_space),
        decreases n - i,
    {
        drawn.push(random_key(rng, key_space));
        i += 1;
    }
    drawn
}

/// A run of GETs, one at a time or in batches.
pub struct BenchRun {
    /// How many GETs there are to make, and how many are made.
    pub ops: u64,
    pub done: u64,
    pub counts: Counts,
    pub hist: LatencyHistogram,
}

impl BenchRun {
    /// Every GET that was made is counted once, and its latency recorded once.
    pub open spec fn inv(&self) -> bool {
        &&& self.done <= self.ops
        &&& self.counts.total() == self.done
        &&& histogram::held(self.hist).len() == self.done
    }

    /// A run of `ops` GETs, none made.
    pub fn new(ops: u64) -> (run: Self)
        ensures
            run.inv(),
            run.ops == ops,
            run.done == 0,
            run.counts == (Counts { hit_a: 0, hit_b: 0, miss: 0 }),
            histogram::held(run.hist) == Multiset::<nat>::empty(),
    {
        broadcast use vstd::multiset::group_multiset_axioms;

        BenchRun { ops, done: 0, counts: Counts::new(), hist: LatencyHistogram::new() }
    }

    /// How many GETs the next batch has, of at most `batch`; none once all are made.
    pub fn next_batch(&self, batch: usize) -> (n: usize)
        requires
            self.inv(),
            0 < batch <= MAX_BATCH,
        ensures
            n == vstd::math::min(batch as int, self.ops - self.done),
    {
        let left: u64 = self.ops - self.done;
        if left < batch as u64 {
            left as usize
        } else {
            batch
        }
    }

    /// Counts the results of a batch, each of which took `ns` nanoseconds.
    pub fn record(&mut self, ns: u64, results: &[GetResult])
        requires
            old(self).inv(),
            results@.len() <= old(self).ops - old(self).done,
        ensures
            final(self).inv(),
            final(self).ops == old(self).ops,
            final(self).done == old(self).done + results@.len(),
            final(self).counts == counted_all(old(self).counts, results@),
            histogram::held(final(self).hist) == histogram::recorded(
                histogram::held(old(self).hist),
                ns,
                results@.len(),
            ),
    {
        broadcast use vstd::multiset::group_multiset_axioms;

        let mut i: usize = 0;
        assert(results@.take(0) =~= Seq::empty());
        while i < results.len()
            invariant
                self.inv(),
                self.ops == old(self).ops,
                i <= results@.len() <= old(self).ops - old(self).done,
                self.done == old(self).done + i,
                self.counts == counted_all(old(self).counts, results@.take(i as int)),
                histogram::held(self.hist) == histogram::recorded(
                    histogram::held(old(self).hist),
                    ns,
                    i as nat,
                ),
            decreases results@.len() - i,
        {
            self.hist.record(ns);
            add_count(&mut self.counts, &results[i]);
            self.done = self.done + 1;
            assert(results@.take(i + 1).drop_last() =~= results@.take(i as int));
            i += 1;
        }
        assert(results@.take(results@.len() as int) =~= results@);
    }

    /// What was measured: a value of each latency level, and how often it came.
    pub fn latencies(&self) -> (list: Vec<(u64, u64)>)
        ensures
            histogram::lists(list@, histogram::held(self.hist)),
    {
        self.hist.recorded()
    }
}

/// The sizes of the batches of a run of `ops` GETs in batches of `batch`.
pub open spec fn batches(ops: nat, batch: nat) -> Seq<nat>
    decreases ops,
    when batch > 0
{
    if ops == 0 {
        Seq::empty()
    } else if ops <= batch {
        seq![ops]
    } else {
        seq![batch] + batches((ops - batch) as nat, batch)
    }
}

/// The sum of some sizes.
pub open spec fn sum(sizes: Seq<nat>) -> nat
    decreases sizes.len(),
{
    if sizes.len() == 0 {
        0
    } else {
        sizes[0] + sum(sizes.skip(1))
    }
}

/// The batches of a run make every GET once: each is full but for the last, and together they are
/// all.
pub proof fn law_batches_make_every_get(ops: nat, batch: nat)
    requires
        batch > 0,
    ensures
        sum(batches(ops, batch)) == ops,
        forall|i: int|
            0 <= i < batches(ops, batch).len() ==> 0 < (#[trigger] batches(ops, batch)[i]) <= batch,
        forall|i: int|
            0 <= i < batches(ops, batch).len() - 1 ==> (#[trigger] batches(ops, batch)[i]) == batch,
    decreases ops,
{
    let sizes = batches(ops, batch);
    if ops > 0 {
        if ops <= batch {
            assert(sizes.skip(1) =~= Seq::empty());
            assert(sum(sizes.skip(1)) == 0);
        } else {
            law_batches_make_every_get((ops - batch) as nat, batch);
            assert(sizes.skip(1) =~= batches((ops - batch) as nat, batch));
        }
    }
}

/// How far a run through a cache has come with the GET at hand.
#[derive(Clone, Copy)]
pub enum CachePhase {
    /// No GET is at hand.
    Idle,
    /// The cache has served it.
    Served,
    /// It reads the table for this key.
    Reading([u8; 24]),
}

/// What a GET through a cache comes to first.
pub enum CacheStep {
    /// The cache has the value.
    Served([u8; 24]),
    /// The table is to be read: the two reads to be posted.
    Read(ReadOrder, ReadOrder),
}

/// A run of GETs through a cache.
pub struct CacheRun {
    /// How many GETs there are to make, and how many are made.
    pub ops: u64,
    pub done: u64,
    pub cache_hits: u64,
    pub rdma_misses: u64,
    pub phase: CachePhase,
    pub cache: LruCache,
    pub hist: LatencyHistogram,
    /// The keys that were asked for.
    pub used: Ghost<Set<Seq<u8>>>,
    /// How often the table was read.
    pub reads: Ghost<nat>,
}

impl CacheRun {
    /// How many GETs are begun: those that are made, and the one at hand.
    pub open spec fn begun(&self) -> nat {
        if self.phase is Idle {
            self.done as nat
        } else {
            self.done as nat + 1
        }
    }

    /// Every GET that was begun hit the cache or reads the table; only what was asked for is in the
    /// cache, so that the first GET of a key is a read; every GET that was made has its latency
    /// recorded once.
    pub open spec fn inv(&self) -> bool {
        &&& self.begun() <= self.ops
        &&& self.cache_hits + self.reads@ == self.begun()
        &&& self.used@.finite()
        &&& self.used@.len() <= self.reads@
        &&& self.rdma_misses + (if self.phase is Reading {
            1int
        } else {
            0
        }) <= self.reads@
        &&& self.phase matches CachePhase::Reading(key) ==> self.used@.contains(key@)
        &&& forall|key: Seq<u8>|
            #![trigger self.used@.contains(key)]
            lru::value_in(self.cache.contents(), key) is Some ==> self.used@.contains(key)
        &&& histogram::held(self.hist).len() == self.done
        &&& self.cache.inv()
        &&& self.cache.capacity() == CACHE_ENTRIES
    }

    /// A run of `ops` GETs, none made, with an empty cache.
    pub fn new(ops: u64) -> (run: Self)
        ensures
            run.inv(),
            run.phase is Idle,
            run.ops == ops,
            run.done == 0,
            run.cache_hits == 0,
            run.rdma_misses == 0,
            run.used@ == Set::<Seq<u8>>::empty(),
            run.reads@ == 0,
            run.cache.contents() == Seq::<(Seq<u8>, Seq<u8>)>::empty(),
            run.cache.capacity() == 1000,
            histogram::held(run.hist) == Multiset::<nat>::empty(),
    {
        broadcast use vstd::multiset::group_multiset_axioms;

        CacheRun {
            ops,
            done: 0,
            cache_hits: 0,
            rdma_misses: 0,
            phase: CachePhase::Idle,
            cache: LruCache::new(CACHE_ENTRIES),
            hist: LatencyHistogram::new(),
            used: Ghost(Set::empty()),
            reads: Ghost(0),
        }
    }

    /// Begins a GET of `key`: the cache serves it if it can; otherwise the table is to be read.
    pub fn begin(&mut self, remote: &PeerInfo, key: &[u8; 24]) -> (step: CacheStep)
        requires
            old(self).inv(),
            old(self).phase is Idle,
            old(self).done < old(self).ops,
            client::table_fits(*remote),
        ensures
            final(self).inv(),
            final(self).ops == old(self).ops,
            final(self).done == old(self).done,
            final(self).rdma_misses == old(self).rdma_misses,
            final(self).hist == old(self).hist,
            final(self).used@ == old(self).used@.insert(key@),
            match step {
                CacheStep::Served(v) => {
                    &&& lru::value_in(old(self).cache.contents(), key@) == Some(v@)
                    &&& final(self).phase is Served
                    &&& final(self).cache_hits == old(self).cache_hits + 1
                    &&& final(self).reads@ == old(self).reads@
                    &&& final(self).cache.contents() == lru::used(
                        old(self).cache.contents(),
                        key@,
                        v@,
                    )
                },
                CacheStep::Read(a, b) => {
                    &&& lru::value_in(old(self).cache.contents(), key@) is None
                    &&& final(self).phase == CachePhase::Reading(*key)
                    &&& final(self).cache_hits == old(self).cache_hits
                    &&& final(self).reads@ == old(self).reads@ + 1
                    &&& final(self).cache.contents() == old(self).cache.contents()
                    &&& (a, b) == pipelined(*remote, key@)
                },
            },
    {
        proof {
            lru::law_cache_is_bounded(&self.cache);
        }
        let ghost contents = self.cache.contents();
        let ghost asked = self.used@;
        match self.cache.get(key) {
            Some(v) => {
                proof {
                    assert(asked.contains(key@));
                    self.used@ = asked.insert(key@);
                    assert(self.used@ =~= asked);
                    assert forall|k: Seq<u8>|
                        #![trigger self.used@.contains(k)]
                        lru::value_in(
                            self.cache.contents(),
                            k,
                        ) is Some implies self.used@.contains(k) by {
                        lru::law_use_changes_no_value(contents, key@, k);
                        assert(lru::value_in(contents, k) is Some ==> asked.contains(k));
                    }
                }
                self.cache_hits = self.cache_hits + 1;
                self.phase = CachePhase::Served;
                CacheStep::Served(v)
            },
            None => {
                proof {
                    self.used@ = asked.insert(key@);
                    self.reads@ = self.reads@ + 1;
                    assert forall|k: Seq<u8>|
                        #![trigger self.used@.contains(k)]
                        lru::value_in(
                            self.cache.contents(),
                            k,
                        ) is Some implies self.used@.contains(k) by {
                        assert(lru::value_in(contents, k) is Some ==> asked.contains(k));
                    }
                }
                self.phase = CachePhase::Reading(*key);
                let (a, b) = pipelined_orders(remote, key);
                CacheStep::Read(a, b)
            },
        }
    }

    /// Ends a GET that the cache served, after `ns` nanoseconds.
    pub fn record_hit(&mut self, ns: u64)
        requires
            old(self).inv(),
            old(self).phase is Served,
        ensures
            final(self).inv(),
            *final(self) == (CacheRun {
                done: (old(self).done + 1) as u64,
                phase: CachePhase::Idle,
                hist: final(self).hist,
                ..*old(self)
            }),
            histogram::held(final(self).hist) == histogram::held(old(self).hist).insert(
                histogram::level(ns as nat),
            ),
    {
        broadcast use vstd::multiset::group_multiset_axioms;

        self.hist.record(ns);
        self.done = self.done + 1;
        self.phase = CachePhase::Idle;
    }

    /// Ends a GET that read the table, after `ns` nanoseconds. What it found goes into the cache.
    pub fn record_read(&mut self, ns: u64, result: &GetResult)
        requires
            old(self).inv(),
            old(self).phase is Reading,
        ensures
            final(self).inv(),
            final(self).phase is Idle,
            final(self).ops == old(self).ops,
            final(self).done == old(self).done + 1,
            final(self).cache_hits == old(self).cache_hits,
            final(self).used == old(self).used,
            final(self).reads == old(self).reads,
            histogram::held(final(self).hist) == histogram::held(old(self).hist).insert(
                histogram::level(ns as nat),
            ),
            match result@.value() {
                Some(v) => {
                    &&& final(self).rdma_misses == old(self).rdma_misses
                    &&& final(self).cache.contents() == lru::most_recent(
                        lru::used(old(self).cache.contents(), old(self).phase->Reading_0@, v),
                        CACHE_ENTRIES as nat,
                    )
                },
                None => {
                    &&& final(self).rdma_misses == old(self).rdma_misses + 1
                    &&& final(self).cache.contents() == old(self).cache.contents()
                },
            },
    {
        broadcast use vstd::multiset::group_multiset_axioms;

        let key = match self.phase {
            CachePhase::Reading(key) => key,
            _ => {
                return;
            },
        };
        let ghost contents = self.cache.contents();
        proof {
            lru::law_cache_is_bounded(&self.cache);
        }
        self.hist.record(ns);
        let value = match result {
            GetResult::HitA(v) => Some(*v),
            GetResult::HitB(v) => Some(*v),
            GetResult::Miss => None,
        };
        match value {
            Some(v) => {
                self.cache.insert(&key, &v);
                proof {
                    assert forall|k: Seq<u8>|
                        #![trigger self.used@.contains(k)]
                        lru::value_in(
                            self.cache.contents(),
                            k,
                        ) is Some implies self.used@.contains(k) by {
                        lru::law_insert_drops_the_least_recent(
                            contents,
                            CACHE_ENTRIES as nat,
                            key@,
                            v@,
                            k,
                        );
                        assert(lru::value_in(contents, k) is Some ==> old(self).used@.contains(k));
                    }
                }
            },
            None => {
                self.rdma_misses = self.rdma_misses + 1;
            },
        }
        self.done = self.done + 1;
        self.phase = CachePhase::Idle;
    }

    /// What was measured: a value of each latency level, and how often it came.
    pub fn latencies(&self) -> (list: Vec<(u64, u64)>)
        ensures
            histogram::lists(list@, histogram::held(self.hist)),
    {
        self.hist.recorded()
    }
}

/// The first GET of a key never hits the cache: of the GETs that a run has made, at least as many
/// as there are different keys read the table. Those that did not hit the cache are the ones that
/// read the table, and no more of them than that missed.
pub proof fn law_first_use_is_no_hit(run: &CacheRun)
    requires
        run.inv(),
        run.phase is Idle,
    ensures
        run.cache_hits + run.used@.len() <= run.done,
        run.reads@ == run.done - run.cache_hits,
        run.cache_hits + run.rdma_misses <= run.done,
        histogram::held(run.hist).len() == run.done,
{
}

/// What a GET comes to is told by its two slots: a hit in half A where the first reads clean with
/// the key; else a hit in half B where the second does; else a miss.
pub proof fn law_outcome_names_the_half(
    a: SlotState,
    b: SlotState,
    key: Seq<u8>,
    value: Seq<u8>,
)
    ensures
        ({
            let in_a = a.read() matches Some(pair) && pair.0 == key;
            let in_b = b.read() matches Some(pair) && pair.0 == key;
            &&& a.read() == Some((key, value)) <==> outcome_of(a, b, key) == Outcome::HitA(value)
            &&& !in_a && b.read() == Some((key, value)) <==> outcome_of(a, b, key)
                == Outcome::HitB(value)
            &&& !in_a && !in_b <==> outcome_of(a, b, key) == Outcome::Miss
        }),
{
}

/// The slots of GET `i` of a batch arrive at byte `128 * i` of local memory, that of half A first,
/// that of half B 64 bytes further on: the GETs of a batch do not touch one another.
pub proof fn law_batch_slots_stand_apart(bytes: Seq<u8>, i: int, key: Seq<u8>)
    requires
        0 <= i,
    ensures
        batch_outcome(bytes, i, key) == outcome_of(
            table::state_at(bytes, 128 * i),
            table::state_at(bytes, 128 * i + 64),
            key,
        ),
{
}

/// The counts of some results are the numbers of those that hit in half A, that hit in half B, and
/// that missed.
pub proof fn law_counts_are_numbers_of_results(results: Seq<GetResult>)
    requires
        results.len() <= u64::MAX,
    ensures
        ({
            let counts = counted_all(Counts { hit_a: 0, hit_b: 0, miss: 0 }, results);
            &&& counts.hit_a == results.filter(|r: GetResult| r is HitA).len()
            &&& counts.hit_b == results.filter(|r: GetResult| r is HitB).len()
            &&& counts.miss == results.filter(|r: GetResult| r is Miss).len()
            &&& counts.hit_a + counts.hit_b + counts.miss == results.len()
        }),
    decreases results.len(),
{
    reveal(Seq::filter);
    if results.len() > 0 {
        law_counts_are_numbers_of_results(results.drop_last());
    }
}

/// More results add to the counts, each to that of its kind.
pub proof fn law_counts_add_up(counts: Counts, results: Seq<GetResult>)
    requires
        counts.hit_a + counts.hit_b + counts.miss + results.len() <= u64::MAX,
    ensures
        ({
            let more = counted_all(Counts { hit_a: 0, hit_b: 0, miss: 0 }, results);
            let after = counted_all(counts, results);
            &&& after.hit_a == counts.hit_a + more.hit_a
            &&& after.hit_b == counts.hit_b + more.hit_b
            &&& after.miss == counts.miss + more.miss
        }),
    decreases results.len(),
{
    if results.len() > 0 {
        law_counts_add_up(counts, results.drop_last());
        law_counts_are_numbers_of_results(results.drop_last());
    }
}

/// The two reads of a GET fetch the key's two slots of 64 bytes, to places that do not overlap,
/// from the addresses at which the peer's table has them: that of half A, which begins the table,
/// and that of half B, which follows it.
pub proof fn law_pipelined_reads_fetch_both_slots(remote: PeerInfo, key: Seq<u8>)
    requires
        client::table_fits(remote),
    ensures
        ({
            let (a, b) = pipelined(remote, key);
            let ia = hash::xxh3(key) as usize as int % 131072;
            let ib = hash::xxh3_seeded(key, 0xC0FFEE_DEADBEEF) as usize as int % 131072;
            &&& a.remote_addr == remote.addr + 64 * ia
            &&& b.remote_addr == remote.addr + 64 * 131072 + 64 * ib
            &&& a.len == 64 && b.len == 64
            &&& a.local_offset + 64 == b.local_offset
            &&& a.remote_rkey == remote.rkey && b.remote_rkey == remote.rkey
        }),
{
}

/// What a read of the table brings into the cache, the next GET of that key hits, and so does every
/// one after it, until a thousand uses of other keys have followed.
pub proof fn law_what_was_read_is_cached(
    run: &CacheRun,
    key: Seq<u8>,
    value: Seq<u8>,
    uses: Seq<(Seq<u8>, Seq<u8>)>,
)
    requires
        run.inv(),
        uses.len() < 1000,
        forall|i: int| 0 <= i < uses.len() ==> (#[trigger] uses[i]).0 != key,
    ensures
        ({
            let read = lru::most_recent(
                lru::used(run.cache.contents(), key, value),
                CACHE_ENTRIES as nat,
            );
            lru::value_in(lru::after_uses(read, CACHE_ENTRIES as nat, uses), key) == Some(value)
        }),
{
    lru::law_cache_is_bounded(&run.cache);
    lru::law_a_used_key_outlives_those_not_used_since(
        run.cache.contents(),
        CACHE_ENTRIES as nat,
        key,
        value,
        uses,
    );
}

} // verus!
