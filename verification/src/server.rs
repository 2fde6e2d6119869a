//! What the server does with the table: the pairs it starts with, and the PUTs it takes.

use vstd::prelude::*;

use crate::cuckoo;
use crate::cuckoo::SlotState;
use crate::keys;
use crate::keys::{make_key, make_val};
use crate::msgbuf;
use crate::msgbuf::{PutSink, PutState};
use crate::region::Region;
use crate::table::Table;

verus! {

/// The capacity of each half of the served table.
pub const TABLE_CAP: usize = 131072;

/// The size of the served table.
pub const TABLE_BYTES: usize = TABLE_CAP * 64 * 2;

/// How many keys the server starts with.
pub const BASELINE_KEYS: u64 = 100_000;

/// The value that the server starts with for the key of number `i`.
pub open spec fn baseline_value(i: nat) -> Seq<u8> {
    keys::block_of((i * 2 + 1) as u64)
}

/// The slots once the first `n` baseline pairs are inserted.
pub open spec fn baseline(slots: Seq<SlotState>, cap: nat, n: nat) -> Seq<SlotState>
    decreases n, 0int,
{
    if n == 0 {
        slots
    } else {
        baseline_insertion(slots, cap, (n - 1) as nat).slots
    }
}

/// What the insertion of baseline pair `i` comes to.
pub open spec fn baseline_insertion(slots: Seq<SlotState>, cap: nat, i: nat) -> cuckoo::Insertion
    decreases i, 1int,
{
    cuckoo::insertion(
        baseline(slots, cap, i),
        cap,
        keys::block_of(i as u64),
        baseline_value(i),
    )
}

/// `pairs` with the first `n` baseline pairs written over it.
pub open spec fn with_baseline(pairs: Map<Seq<u8>, Seq<u8>>, n: nat) -> Map<Seq<u8>, Seq<u8>> {
    Map::new(
        |key: Seq<u8>| pairs.contains_key(key) || is_baseline_key(key, n),
        |key: Seq<u8>|
            if is_baseline_key(key, n) {
                baseline_value(keys::number_of(key) as nat)
            } else {
                pairs[key]
            },
    )
}

/// Whether `key` is one of the first `n` baseline keys.
pub open spec fn is_baseline_key(key: Seq<u8>, n: nat) -> bool {
    key == keys::block_of(keys::number_of(key)) && keys::number_of(key) < n
}

/// Inserts the baseline pairs `0..n`. Stops at the first that finds no slot and returns its
/// number.
pub fn load_baseline<R: Region>(table: &mut Table<R>, n: u64) -> (outcome: Result<(), u64>)
    requires
        old(table).inv(),
        n <= 0x8000_0000_0000_0000,
    ensures
        final(table).inv(),
        final(table).same_frame(old(table)),
        ({
            let slots = old(table).slots();
            let cap = old(table).cap as nat;
            match outcome {
                Ok(_) => {
                    &&& forall|j: nat| j < n ==> #[trigger] baseline_insertion(slots, cap, j).placed
                    &&& final(table).slots() == baseline(slots, cap, n as nat)
                },
                Err(i) => {
                    &&& i < n
                    &&& forall|j: nat| j < i ==> #[trigger] baseline_insertion(slots, cap, j).placed
                    &&& !baseline_insertion(slots, cap, i as nat).placed
                    &&& final(table).slots() == baseline(slots, cap, (i + 1) as nat)
                },
            }
        }),
{
    let ghost slots = table.slots();
    let ghost cap = table.cap as nat;
    let ghost mem = table.mem.bytes();
    proof {
        crate::table::lemma_same_beside_slots(mem, mem, mem, cap);
    }
    let mut i: u64 = 0;
    while i < n
        invariant
            table.inv(),
            table.cap == cap,
            cap == old(table).cap,
            slots == old(table).slots(),
            mem == old(table).mem.bytes(),
            crate::table::same_beside_slots(mem, table.mem.bytes(), cap),
            crate::region::same_rules(&table.mem, &old(table).mem),
            i <= n <= 0x8000_0000_0000_0000,
            forall|j: nat| j < i ==> #[trigger] baseline_insertion(slots, cap, j).placed,
            table.slots() == baseline(slots, cap, i as nat),
        decreases n - i,
    {
        let ghost mid = table.mem.bytes();
        let placed = table.insert(&make_key(i), &make_val(i * 2 + 1));
        proof {
            crate::table::lemma_same_beside_slots(mem, mid, table.mem.bytes(), cap);
            assert(baseline(slots, cap, (i + 1) as nat) == baseline_insertion(
                slots,
                cap,
                i as nat,
            ).slots);
        }
        if !placed {
            return Err(i);
        }
        i += 1;
    }
    Ok(())
}

/// A table that starts well formed serves, after the baseline is loaded, every baseline key with
/// its value and every other key as before, unless a version ran over to zero on the way.
pub proof fn law_baseline_is_served(slots: Seq<SlotState>, cap: nat, n: nat)
    ensures
        cuckoo::well_formed(slots, cap) && n <= 0x8000_0000_0000_0000 && (forall|j: nat|
            j < n ==> (#[trigger] baseline_insertion(slots, cap, j)).placed
                && !baseline_insertion(slots, cap, j).wrapped) ==> {
            &&& cuckoo::well_formed(baseline(slots, cap, n), cap)
            &&& cuckoo::dict(baseline(slots, cap, n), cap) == with_baseline(
                cuckoo::dict(slots, cap),
                n,
            )
            &&& forall|i: nat|
                i < n ==> cuckoo::lookup(
                    baseline(slots, cap, n),
                    cap,
                    #[trigger] keys::block_of(i as u64),
                ) == Some(baseline_value(i))
        },
    decreases n,
{
    if cuckoo::well_formed(slots, cap) && n <= 0x8000_0000_0000_0000 && (forall|j: nat|
        j < n ==> (#[trigger] baseline_insertion(slots, cap, j)).placed && !baseline_insertion(
            slots,
            cap,
            j,
        ).wrapped) {
        let pairs = cuckoo::dict(slots, cap);
        if n == 0 {
            assert(with_baseline(pairs, 0) =~= pairs);
        } else {
            let last = (n - 1) as nat;
            law_baseline_is_served(slots, cap, last);
            let key = keys::block_of(last as u64);
            let so_far = baseline(slots, cap, last);
            assert(baseline_insertion(slots, cap, last).placed);
            cuckoo::law_insertion(so_far, cap, key, baseline_value(last));
            keys::law_number_of_block(last as u64);
            assert(with_baseline(pairs, n) =~= with_baseline(pairs, last).insert(
                key,
                baseline_value(last),
            )) by {
                assert forall|k: Seq<u8>| is_baseline_key(k, n) == (k == key || is_baseline_key(
                    k,
                    last,
                )) by {
                    if k == keys::block_of(keys::number_of(k)) && keys::number_of(k) == last {
                        assert(k == key);
                    }
                }
            }
        }
        assert forall|i: nat| i < n implies cuckoo::lookup(
            baseline(slots, cap, n),
            cap,
            #[trigger] keys::block_of(i as u64),
        ) == Some(baseline_value(i)) by {
            keys::law_number_of_block(i as u64);
            let served = cuckoo::dict(baseline(slots, cap, n), cap);
            assert(is_baseline_key(keys::block_of(i as u64), n));
            assert(served.contains_pair(keys::block_of(i as u64), baseline_value(i)));
        }
    }
}

/// Takes PUTs into a table, and counts those that the table had no room for.
pub struct PutLoader<R: Region> {
    pub table: Table<R>,
    pub dropped: u64,
}

impl<R: Region> PutLoader<R> {
    /// Starts with no PUT dropped.
    pub fn new(table: Table<R>) -> (loader: Self)
        ensures
            loader.table == table,
            loader.dropped == 0,
    {
        PutLoader { table, dropped: 0 }
    }
}

impl<R: Region> PutState for PutLoader<R> {
    open spec fn ready(&self) -> bool {
        self.table.inv()
    }

    open spec fn takes(before: Self, key: Seq<u8>, value: Seq<u8>, after: Self) -> bool {
        let result = cuckoo::insertion(before.table.slots(), before.table.cap as nat, key, value);
        &&& after.table.same_frame(&before.table)
        &&& after.table.slots() == result.slots
        &&& after.dropped == if !result.placed && before.dropped < u64::MAX {
            before.dropped + 1
        } else {
            before.dropped as int
        }
    }
}

impl<R: Region, M: Region> PutSink<M> for PutLoader<R> {
    fn put(&mut self, buffer: &M, at: usize, key: &[u8; 24], value: &[u8; 24])
        ensures
            ({
                let result = cuckoo::insertion(
                    old(self).table.slots(),
                    old(self).table.cap as nat,
                    key@,
                    value@,
                );
                &&& final(self).table.slots() == result.slots
                &&& final(self).table.cap == old(self).table.cap
                &&& result.placed ==> final(self).dropped == old(self).dropped
                &&& !result.placed && old(self).dropped < u64::MAX ==> final(self).dropped == old(
                    self,
                ).dropped + 1
            }),
    {
        if !self.table.insert(key, value) {
            self.dropped = self.dropped.saturating_add(1);
        }
    }
}

/// The slots after `puts` are inserted, one after the other.
pub open spec fn put_all(
    slots: Seq<SlotState>,
    cap: nat,
    puts: Seq<(Seq<u8>, Seq<u8>)>,
) -> Seq<SlotState>
    decreases puts.len(), 1int,
{
    if puts.len() == 0 {
        slots
    } else {
        last_insertion(slots, cap, puts).slots
    }
}

/// What the insertion of the last of `puts` comes to, after the others.
pub open spec fn last_insertion(
    slots: Seq<SlotState>,
    cap: nat,
    puts: Seq<(Seq<u8>, Seq<u8>)>,
) -> cuckoo::Insertion
    decreases puts.len(), 0int,
    when puts.len() > 0
{
    cuckoo::insertion(put_all(slots, cap, puts.drop_last()), cap, puts.last().0, puts.last().1)
}

/// Whether each of `puts` finds a slot, and no version runs over to zero on the way.
pub open spec fn all_placed(
    slots: Seq<SlotState>,
    cap: nat,
    puts: Seq<(Seq<u8>, Seq<u8>)>,
) -> bool {
    forall|n: int|
        0 < n <= puts.len() ==> {
            let result = #[trigger] last_insertion(slots, cap, puts.take(n));
            result.placed && !result.wrapped
        }
}

/// `pairs` with `puts` written over it, one after the other.
pub open spec fn with_puts(
    pairs: Map<Seq<u8>, Seq<u8>>,
    puts: Seq<(Seq<u8>, Seq<u8>)>,
) -> Map<Seq<u8>, Seq<u8>>
    decreases puts.len(),
{
    if puts.len() == 0 {
        pairs
    } else {
        with_puts(pairs, puts.drop_last()).insert(puts.last().0, puts.last().1)
    }
}

/// How many of `puts` find no slot.
pub open spec fn drops_among(
    slots: Seq<SlotState>,
    cap: nat,
    puts: Seq<(Seq<u8>, Seq<u8>)>,
) -> nat
    decreases puts.len(),
{
    if puts.len() == 0 {
        0
    } else {
        drops_among(slots, cap, puts.drop_last()) + if last_insertion(slots, cap, puts).placed {
            0nat
        } else {
            1
        }
    }
}

/// A sweep inserts the PUTs that it finds, in order, and counts those that find no slot.
pub proof fn law_sweep_inserts<R: Region>(
    before: PutLoader<R>,
    puts: Seq<(Seq<u8>, Seq<u8>)>,
    after: PutLoader<R>,
)
    requires
        msgbuf::takes_all(before, puts, after),
    ensures
        after.table.cap == before.table.cap,
        after.table.slots() == put_all(before.table.slots(), before.table.cap as nat, puts),
        after.dropped == vstd::math::min(
            u64::MAX as int,
            before.dropped + drops_among(before.table.slots(), before.table.cap as nat, puts),
        ),
{
    let states = choose|states: Seq<PutLoader<R>>|
        msgbuf::takes_via(before, puts, after, states);
    lemma_sweep_inserts(before, puts, states, puts.len() as int);
    assert(puts.take(puts.len() as int) =~= puts);
}

proof fn lemma_sweep_inserts<R: Region>(
    before: PutLoader<R>,
    puts: Seq<(Seq<u8>, Seq<u8>)>,
    states: Seq<PutLoader<R>>,
    n: int,
)
    requires
        0 <= n <= puts.len(),
        msgbuf::takes_via(before, puts, states[puts.len() as int], states),
    ensures
        ({
            let slots = before.table.slots();
            let cap = before.table.cap as nat;
            &&& states[n].table.cap == before.table.cap
            &&& states[n].table.slots() == put_all(slots, cap, puts.take(n))
            &&& states[n].dropped == vstd::math::min(
                u64::MAX as int,
                before.dropped + drops_among(slots, cap, puts.take(n)),
            )
        }),
    decreases n,
{
    if n > 0 {
        lemma_sweep_inserts(before, puts, states, n - 1);
        assert(puts.take(n).drop_last() =~= puts.take(n - 1));
        let put = puts[n - 1];
        assert(PutLoader::<R>::takes(states[n - 1], put.0, put.1, states[n - 1 + 1]));
    }
}

/// A well-formed table in which every PUT finds a slot stays well formed, and serves exactly what
/// the PUTs write over what it served before.
pub proof fn law_puts_are_served(
    slots: Seq<SlotState>,
    cap: nat,
    puts: Seq<(Seq<u8>, Seq<u8>)>,
)
    ensures
        cuckoo::well_formed(slots, cap) && all_placed(slots, cap, puts) ==> {
            &&& cuckoo::well_formed(put_all(slots, cap, puts), cap)
            &&& cuckoo::dict(put_all(slots, cap, puts), cap) == with_puts(
                cuckoo::dict(slots, cap),
                puts,
            )
        },
    decreases puts.len(),
{
    if puts.len() > 0 && cuckoo::well_formed(slots, cap) && all_placed(slots, cap, puts) {
        let rest = puts.drop_last();
        assert forall|n: int| 0 < n <= rest.len() implies {
            let result = #[trigger] last_insertion(slots, cap, rest.take(n));
            result.placed && !result.wrapped
        } by {
            assert(rest.take(n) =~= puts.take(n));
            assert(last_insertion(slots, cap, puts.take(n)).placed);
        }
        law_puts_are_served(slots, cap, rest);
        assert(puts.take(puts.len() as int) =~= puts);
        assert(last_insertion(slots, cap, puts).placed);
        cuckoo::law_insertion(put_all(slots, cap, rest), cap, puts.last().0, puts.last().1);
    }
}

/// Of several PUTs of one key the last one counts.
pub proof fn law_last_put_counts(
    pairs: Map<Seq<u8>, Seq<u8>>,
    puts: Seq<(Seq<u8>, Seq<u8>)>,
    p: int,
)
    requires
        0 <= p < puts.len(),
        forall|q: int| p < q < puts.len() ==> (#[trigger] puts[q]).0 != puts[p].0,
    ensures
        with_puts(pairs, puts).contains_pair(puts[p].0, puts[p].1),
    decreases puts.len(),
{
    let rest = puts.drop_last();
    if p < rest.len() {
        assert(puts[puts.len() - 1].0 != puts[p].0);
        assert forall|q: int| p < q < rest.len() implies (#[trigger] rest[q]).0 != rest[p].0 by {
            assert(puts[q].0 != puts[p].0);
        }
        law_last_put_counts(pairs, rest, p);
    }
}

/// To take a PUT is to insert its pair into the table, whatever the pair. It counts as dropped
/// exactly where that insertion fails, and so never where the key is in the table or its slot in
/// half A is free.
pub proof fn law_put_is_the_tables_insertion<R: Region>(
    before: PutLoader<R>,
    key: Seq<u8>,
    value: Seq<u8>,
    after: PutLoader<R>,
)
    requires
        PutLoader::<R>::takes(before, key, value, after),
        before.table.cap > 0,
    ensures
        ({
            let slots = before.table.slots();
            let cap = before.table.cap as nat;
            let result = cuckoo::insertion(slots, cap, key, value);
            let a = slots[cuckoo::home_a(cap, key)];
            let b = slots[cuckoo::home_b(cap, key)];
            &&& after.table.cap == cap
            &&& after.table.slots() == result.slots
            &&& before.dropped < u64::MAX ==> after.dropped - before.dropped == (if result.placed {
                0int
            } else {
                1
            })
            &&& before.dropped == u64::MAX ==> after.dropped == u64::MAX
            &&& !a.occupied() || a.key == key || (b.occupied() && b.key == key) ==> after.dropped
                == before.dropped
        }),
{
    cuckoo::law_insertion_takes_a_free_slot(
        before.table.slots(),
        before.table.cap as nat,
        key,
        value,
    );
}

/// A PUT into a well-formed table that is not counted as dropped is served: its key has its value,
/// and every other key what it had. One that is counted costs exactly one pair, of the new one and
/// those that were there. All this as long as the versions of the table are not near their end.
pub proof fn law_put_is_served_or_dropped<R: Region>(
    before: PutLoader<R>,
    key: Seq<u8>,
    value: Seq<u8>,
    after: PutLoader<R>,
)
    requires
        PutLoader::<R>::takes(before, key, value, after),
        before.table.well_formed(),
        before.dropped < u64::MAX,
        cuckoo::versions_below(before.table.slots(), 0xFFFF_FBFE),
    ensures
        ({
            let cap = before.table.cap as nat;
            let slots = before.table.slots();
            let now = after.table.slots();
            let wanted = |k: Seq<u8>|
                if k == key {
                    Some(value)
                } else {
                    cuckoo::lookup(slots, cap, k)
                };
            &&& after.table.cap == before.table.cap
            &&& after.table.well_formed()
            &&& after.dropped == before.dropped ==> forall|k: Seq<u8>| #[trigger]
                cuckoo::lookup(now, cap, k) == wanted(k)
            &&& after.dropped != before.dropped ==> {
                &&& after.dropped == before.dropped + 1
                &&& exists|gone: Seq<u8>| #[trigger]
                    wanted(gone) is Some && cuckoo::lookup(now, cap, gone) is None && forall|
                        k: Seq<u8>,
                    |
                        k != gone ==> #[trigger] cuckoo::lookup(now, cap, k) == wanted(k)
            }
        }),
{
    let cap = before.table.cap as nat;
    let slots = before.table.slots();
    let now = after.table.slots();
    let wanted = |k: Seq<u8>|
        if k == key {
            Some(value)
        } else {
            cuckoo::lookup(slots, cap, k)
        };
    let result = cuckoo::insertion(slots, cap, key, value);
    law_put_is_the_tables_insertion(before, key, value, after);
    cuckoo::law_low_versions_do_not_run_over(slots, cap, key, value, 0xFFFF_FBFE);
    cuckoo::law_insertion(slots, cap, key, value);
    cuckoo::law_lookup_after_failure(slots, cap, key, value, key);
    assert forall|k: Seq<u8>| result.placed || k != result.key implies #[trigger] cuckoo::lookup(
        now,
        cap,
        k,
    ) == wanted(k) by {
        cuckoo::law_lookup_after_insertion(slots, cap, key, value, k);
        cuckoo::law_lookup_after_failure(slots, cap, key, value, k);
    }
    if !result.placed {
        assert(wanted(result.key) is Some);
    }
}

/// A sweep that counts no PUT as dropped serves them all: a key that PUTs were found of has the
/// value of the last of them, and every other key what it had. The versions of the table must not
/// be near their end, as far as the PUTs can bring them.
pub proof fn law_sweep_without_drops_serves_every_put<R: Region>(
    before: PutLoader<R>,
    puts: Seq<(Seq<u8>, Seq<u8>)>,
    after: PutLoader<R>,
    key: Seq<u8>,
    p: int,
)
    requires
        msgbuf::takes_all(before, puts, after),
        before.table.well_formed(),
        after.dropped == before.dropped < u64::MAX,
        cuckoo::versions_below(before.table.slots(), 0xFFFF_FFFE - 1024 * puts.len()),
    ensures
        ({
            let cap = before.table.cap as nat;
            let now = after.table.slots();
            &&& after.table.cap == before.table.cap
            &&& after.table.well_formed()
            &&& 0 <= p < puts.len() && puts[p].0 == key && (forall|q: int|
                p < q < puts.len() ==> (#[trigger] puts[q]).0 != key) ==> cuckoo::lookup(
                now,
                cap,
                key,
            ) == Some(puts[p].1)
            &&& (forall|q: int| 0 <= q < puts.len() ==> (#[trigger] puts[q]).0 != key)
                ==> cuckoo::lookup(now, cap, key) == cuckoo::lookup(before.table.slots(), cap, key)
        }),
{
    let states = choose|states: Seq<PutLoader<R>>|
        msgbuf::takes_via(before, puts, after, states);
    lemma_sweep_counts_up(before, puts, states, 0);
    lemma_sweep_serves(before, puts, states, puts.len() as int);
    assert(puts.take(puts.len() as int) =~= puts);
    let pairs = cuckoo::dict(before.table.slots(), before.table.cap as nat);
    if 0 <= p < puts.len() && puts[p].0 == key && (forall|q: int|
        p < q < puts.len() ==> (#[trigger] puts[q]).0 != key) {
        law_last_put_counts(pairs, puts, p);
        assert(after.table.dict().contains_pair(key, puts[p].1));
    }
    if forall|q: int| 0 <= q < puts.len() ==> (#[trigger] puts[q]).0 != key {
        lemma_puts_of_others(pairs, puts, key);
        assert(after.table.dict().contains_key(key) == pairs.contains_key(key));
        assert(pairs.contains_key(key) ==> after.table.dict()[key] == pairs[key]);
    }
}

/// The count of dropped PUTs never goes down.
proof fn lemma_sweep_counts_up<R: Region>(
    before: PutLoader<R>,
    puts: Seq<(Seq<u8>, Seq<u8>)>,
    states: Seq<PutLoader<R>>,
    n: int,
)
    requires
        0 <= n <= puts.len(),
        msgbuf::takes_via(before, puts, states[puts.len() as int], states),
    ensures
        forall|m: int| n <= m <= puts.len() ==> states[n].dropped <= (#[trigger] states[m]).dropped,
    decreases puts.len() - n,
{
    if n < puts.len() {
        lemma_sweep_counts_up(before, puts, states, n + 1);
        let put = puts[n];
        assert(PutLoader::<R>::takes(states[n], put.0, put.1, states[n + 1]));
        assert forall|m: int| n <= m <= puts.len() implies states[n].dropped <= (
        #[trigger] states[m]).dropped by {
            assert(states[n].dropped <= states[n + 1].dropped);
        }
    }
}

proof fn lemma_sweep_serves<R: Region>(
    before: PutLoader<R>,
    puts: Seq<(Seq<u8>, Seq<u8>)>,
    states: Seq<PutLoader<R>>,
    n: int,
)
    requires
        0 <= n <= puts.len(),
        msgbuf::takes_via(before, puts, states[puts.len() as int], states),
        before.table.well_formed(),
        states[puts.len() as int].dropped == before.dropped < u64::MAX,
        cuckoo::versions_below(before.table.slots(), 0xFFFF_FFFE - 1024 * puts.len()),
    ensures
        ({
            let cap = before.table.cap as nat;
            let table = states[n].table;
            &&& table.cap == cap
            &&& table.well_formed()
            &&& cuckoo::versions_below(
                table.slots(),
                0xFFFF_FFFE - 1024 * puts.len() + 1024 * n,
            )
            &&& table.dict() == with_puts(before.table.dict(), puts.take(n))
        }),
    decreases n,
{
    if n == 0 {
        assert(puts.take(0) =~= Seq::empty());
    } else {
        lemma_sweep_serves(before, puts, states, n - 1);
        lemma_sweep_counts_up(before, puts, states, 0);
        lemma_sweep_counts_up(before, puts, states, n - 1);
        lemma_sweep_counts_up(before, puts, states, n);
        assert(puts.take(n).drop_last() =~= puts.take(n - 1));
        let put = puts[n - 1];
        let was = states[n - 1];
        let cap = was.table.cap as nat;
        assert(PutLoader::<R>::takes(was, put.0, put.1, states[n - 1 + 1]));
        assert(states[n - 1].dropped <= states[n].dropped <= states[puts.len() as int].dropped);
        assert(states[0].dropped <= states[n - 1].dropped);
        law_put_is_the_tables_insertion(was, put.0, put.1, states[n]);
        cuckoo::law_insertion(was.table.slots(), cap, put.0, put.1);
        cuckoo::law_low_versions_do_not_run_over(
            was.table.slots(),
            cap,
            put.0,
            put.1,
            0xFFFF_FFFE - 1024 * puts.len() + 1024 * (n - 1),
        );
    }
}

/// A key that no PUT writes keeps what it has.
proof fn lemma_puts_of_others(
    pairs: Map<Seq<u8>, Seq<u8>>,
    puts: Seq<(Seq<u8>, Seq<u8>)>,
    key: Seq<u8>,
)
    requires
        forall|q: int| 0 <= q < puts.len() ==> (#[trigger] puts[q]).0 != key,
    ensures
        with_puts(pairs, puts).contains_key(key) == pairs.contains_key(key),
        pairs.contains_key(key) ==> with_puts(pairs, puts)[key] == pairs[key],
    decreases puts.len(),
{
    if puts.len() > 0 {
        let rest = puts.drop_last();
        assert(puts[puts.len() - 1].0 != key);
        assert forall|q: int| 0 <= q < rest.len() implies (#[trigger] rest[q]).0 != key by {
            assert(rest[q] == puts[q]);
        }
        lemma_puts_of_others(pairs, rest, key);
    }
}

/// The baseline is loaded by insertions, of the pairs of the numbers from zero on: the key of
/// number `i` with the value of number `2 * i + 1`.
pub proof fn law_baseline_is_loaded_by_insertions(slots: Seq<SlotState>, cap: nat, i: nat)
    requires
        i < 0x8000_0000_0000_0000,
    ensures
        baseline(slots, cap, 0) == slots,
        baseline_insertion(slots, cap, i) == cuckoo::insertion(
            baseline(slots, cap, i),
            cap,
            keys::block_of(i as u64),
            keys::block_of((2 * i + 1) as u64),
        ),
        baseline(slots, cap, i + 1) == baseline_insertion(slots, cap, i).slots,
{
}

/// A well-formed table whose versions are not near their end serves, once `n` baseline pairs have
/// found their slots, the key of each number below `n` with the value of twice that number and one.
pub proof fn law_loaded_baseline_is_served(slots: Seq<SlotState>, cap: nat, n: nat, i: nat)
    requires
        cuckoo::well_formed(slots, cap),
        n <= 0x8000_0000_0000_0000,
        cuckoo::versions_below(slots, 0xFFFF_FFFE - 1024 * n),
        forall|j: nat| j < n ==> #[trigger] baseline_insertion(slots, cap, j).placed,
        i < n,
    ensures
        cuckoo::lookup(baseline(slots, cap, n), cap, keys::block_of(i as u64)) == Some(
            keys::block_of((2 * i + 1) as u64),
        ),
{
    assert forall|j: nat| j < n implies (#[trigger] baseline_insertion(slots, cap, j)).placed
        && !baseline_insertion(slots, cap, j).wrapped by {
        lemma_baseline_versions(slots, cap, j, 0xFFFF_FFFE - 1024 * n);
        cuckoo::law_low_versions_do_not_run_over(
            baseline(slots, cap, j),
            cap,
            keys::block_of(j as u64),
            baseline_value(j),
            0xFFFF_FFFE - 1024 * n + 1024 * j,
        );
    }
    law_baseline_is_served(slots, cap, n);
    assert(cuckoo::lookup(baseline(slots, cap, n), cap, keys::block_of(i as u64)) == Some(
        baseline_value(i),
    ));
}

proof fn lemma_baseline_versions(slots: Seq<SlotState>, cap: nat, n: nat, bound: int)
    requires
        cap > 0,
        slots.len() == 2 * cap,
        cuckoo::versions_below(slots, bound),
        bound + 1024 * n <= 0xFFFF_FFFE,
    ensures
        cuckoo::versions_below(baseline(slots, cap, n), bound + 1024 * n),
        baseline(slots, cap, n).len() == slots.len(),
    decreases n,
{
    if n > 0 {
        let last = (n - 1) as nat;
        lemma_baseline_versions(slots, cap, last, bound);
        cuckoo::law_low_versions_do_not_run_over(
            baseline(slots, cap, last),
            cap,
            keys::block_of(last as u64),
            baseline_value(last),
            bound + 1024 * last,
        );
    }
}

} // verus!
