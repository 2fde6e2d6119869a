//! Cuckoo hashing, as mathematics: what a lookup finds and what an insertion does to the slots.
//!
//! A table of capacity `cap` is a sequence of `2 * cap` slots, half A first. A key may stand in
//! one slot of each half, and an insertion that finds both taken moves their tenants on.

use vstd::prelude::*;

verus! {

/// How many slots an insertion writes before it gives up.
pub const MAX_DISPLACEMENTS: usize = 512;

/// What a slot holds.
#[verifier::ext_equal]
pub struct SlotState {
    pub ver_lo: u32,
    pub ver_hi: u32,
    pub key: Seq<u8>,
    pub value: Seq<u8>,
}

impl SlotState {
    /// A slot is taken once a write to it has finished: its low version is even and not zero.
    pub open spec fn occupied(self) -> bool {
        self.ver_lo != 0 && self.ver_lo % 2 == 0
    }

    /// Whether no write to the slot is under way: its versions agree and are even. A slot that was
    /// never written is at rest, too.
    pub open spec fn at_rest(self) -> bool {
        self.ver_lo == self.ver_hi && self.ver_lo % 2 == 0
    }

    /// What a reader gets: the pair, if the slot is taken and its two versions agree.
    pub open spec fn read(self) -> Option<(Seq<u8>, Seq<u8>)> {
        if self.occupied() && self.ver_lo == self.ver_hi {
            Some((self.key, self.value))
        } else {
            None
        }
    }

    /// The version that a slot shows while it is written: odd.
    pub open spec fn write_version(self) -> u32 {
        (self.ver_lo / 2 * 2 + 1) as u32
    }

    /// The version that the next write leaves: the next even number, in 32 bits.
    pub open spec fn next_version(self) -> u32 {
        ((self.ver_lo / 2 * 2 + 2) % 0x1_0000_0000) as u32
    }

    /// Whether the next write runs the version over to zero, which reads as a free slot.
    pub open spec fn at_last_version(self) -> bool {
        self.next_version() == 0
    }

    /// The slot after a whole write.
    pub open spec fn written(self, key: Seq<u8>, value: Seq<u8>) -> SlotState {
        SlotState {
            ver_lo: self.next_version(),
            ver_hi: self.next_version(),
            key,
            value,
        }
    }
}

/// A reader that sees a slot as it is at one moment never gets a pair that was not written as
/// such: while a pair is copied in, whatever part of it has arrived, the reader gets nothing;
/// once the low version is published, it gets nothing or the new pair; after the write it gets
/// the new pair, unless the version ran over to zero.
pub proof fn law_write_is_seen_whole(
    slot: SlotState,
    key: Seq<u8>,
    value: Seq<u8>,
    seen_key: Seq<u8>,
    seen_value: Seq<u8>,
)
    ensures
        (SlotState {
            ver_lo: slot.write_version(),
            ver_hi: slot.ver_hi,
            key: seen_key,
            value: seen_value,
        }).read() is None,
        (SlotState { ver_lo: slot.next_version(), ver_hi: slot.ver_hi, key, value }).read()
            matches Some(pair) ==> pair == (key, value),
        slot.written(key, value).read() == (if slot.at_last_version() {
            None
        } else {
            Some((key, value))
        }),
{
}

/// What a version says of a slot: an odd one that a write is under way, zero that nothing was ever
/// written, any other that a pair stands there; and that pair is read where the two versions agree.
pub proof fn law_versions_tell(slot: SlotState)
    ensures
        slot.ver_lo % 2 == 1 ==> !slot.occupied() && !slot.at_rest() && slot.read() is None,
        slot.ver_lo == 0 ==> !slot.occupied() && slot.read() is None,
        slot.ver_lo != 0 && slot.ver_lo % 2 == 0 ==> slot.occupied(),
        slot.ver_lo != slot.ver_hi ==> !slot.at_rest() && slot.read() is None,
        slot.ver_lo == slot.ver_hi && slot.ver_lo % 2 == 0 ==> slot.at_rest(),
        slot.ver_lo == slot.ver_hi && slot.ver_lo % 2 == 0 && slot.ver_lo != 0 ==> slot.read()
            == Some((slot.key, slot.value)),
{
}

/// A write raises the version of a slot, by two at most, and what it wrote is read back, as long as
/// there are higher versions; the last of them is followed by zero, which reads as a free slot.
pub proof fn law_what_is_written_is_read(slot: SlotState, key: Seq<u8>, value: Seq<u8>)
    ensures
        ({
            let after = slot.written(key, value);
            &&& after.ver_hi == after.ver_lo
            &&& after.ver_lo % 2 == 0
            &&& after.key == key
            &&& after.value == value
            &&& slot.ver_lo < 0xFFFF_FFFE ==> {
                &&& slot.ver_lo < slot.write_version() + 1 == after.ver_lo <= slot.ver_lo + 2
                &&& slot.write_version() % 2 == 1
                &&& !slot.at_last_version()
                &&& after.occupied()
                &&& after.read() == Some((key, value))
            }
            &&& slot.ver_lo >= 0xFFFF_FFFE ==> {
                &&& slot.write_version() == 0xFFFF_FFFF
                &&& slot.at_last_version()
                &&& after.ver_lo == 0
                &&& after.read() is None
            }
        }),
{
}

/// How far a write to a slot has come.
#[derive(PartialEq, Eq, Structural)]
pub enum WriteStage {
    /// Nothing is written yet.
    Before,
    /// The low version is odd.
    Begun,
    /// The pair is being copied in.
    Filling,
    /// The pair is in its place.
    Filled,
    /// The low version is the new one.
    LowPublished,
    /// The high version is the new one too: the write is over.
    After,
}

impl WriteStage {
    /// The stages in order.
    pub open spec fn number(self) -> int {
        match self {
            WriteStage::Before => 0,
            WriteStage::Begun => 1,
            WriteStage::Filling => 2,
            WriteStage::Filled => 3,
            WriteStage::LowPublished => 4,
            WriteStage::After => 5,
        }
    }
}

/// The low version of `slot` at a stage of a write to it.
pub open spec fn low_at(slot: SlotState, stage: WriteStage) -> u32 {
    if stage.number() < 1 {
        slot.ver_lo
    } else if stage.number() < 4 {
        slot.write_version()
    } else {
        slot.next_version()
    }
}

/// The high version of `slot` at a stage of a write to it.
pub open spec fn high_at(slot: SlotState, stage: WriteStage) -> u32 {
    if stage.number() < 5 {
        slot.ver_hi
    } else {
        slot.next_version()
    }
}

/// A reader takes the low version of a slot first, then the pair, then the high version, while a
/// write to the slot goes on: the low version at stage `low`, the pair from stage `first` to stage
/// `last`, the high version at stage `high`. Unless it took the low version before the write began,
/// some of the pair once that was being copied in, and the high version before the write was over,
/// it gets nothing, or the old pair, or the new pair: never a mixture.
pub proof fn law_reader_beside_a_writer(
    slot: SlotState,
    key: Seq<u8>,
    value: Seq<u8>,
    low: WriteStage,
    first: WriteStage,
    last: WriteStage,
    high: WriteStage,
    seen_key: Seq<u8>,
    seen_value: Seq<u8>,
)
    requires
        low.number() <= first.number() <= last.number() <= high.number(),
        last.number() < 2 ==> seen_key == slot.key && seen_value == slot.value,
        first.number() >= 3 ==> seen_key == key && seen_value == value,
        !(low.number() < 1 && last.number() >= 2 && high.number() < 5),
    ensures
        ({
            let seen = SlotState {
                ver_lo: low_at(slot, low),
                ver_hi: high_at(slot, high),
                key: seen_key,
                value: seen_value,
            };
            seen.read() matches Some(pair) ==> pair == (key, value) || slot.read() == Some(pair)
        }),
{
}

/// Where `key` may stand in half A.
pub open spec fn home_a(cap: nat, key: Seq<u8>) -> int {
    crate::hash::hash_a(key) as int % cap as int
}

/// Where `key` may stand in half B.
pub open spec fn home_b(cap: nat, key: Seq<u8>) -> int {
    cap + crate::hash::hash_b(key) as int % cap as int
}

/// Where `key` may stand in the half that `in_a` names.
pub open spec fn home(cap: nat, key: Seq<u8>, in_a: bool) -> int {
    if in_a {
        home_a(cap, key)
    } else {
        home_b(cap, key)
    }
}

/// What a lookup of `key` finds.
pub open spec fn lookup(slots: Seq<SlotState>, cap: nat, key: Seq<u8>) -> Option<Seq<u8>> {
    lookup_at(slots, home_a(cap, key), home_b(cap, key), key)
}

/// What a lookup of `key` finds in the slots `ia` and `ib`, tried in this order.
pub open spec fn lookup_at(slots: Seq<SlotState>, ia: int, ib: int, key: Seq<u8>) -> Option<
    Seq<u8>,
> {
    match slots[ia].read() {
        Some((k, v)) if k == key => Some(v),
        _ => match slots[ib].read() {
            Some((k, v)) if k == key => Some(v),
            _ => None,
        },
    }
}

/// All that lookups find.
pub open spec fn dict(slots: Seq<SlotState>, cap: nat) -> Map<Seq<u8>, Seq<u8>> {
    Map::new(
        |key: Seq<u8>| lookup(slots, cap, key) is Some,
        |key: Seq<u8>| lookup(slots, cap, key)->Some_0,
    )
}

/// Every tenant stands in a slot of its own key with versions that agree, and none stands twice.
pub open spec fn well_formed(slots: Seq<SlotState>, cap: nat) -> bool {
    &&& cap > 0
    &&& slots.len() == 2 * cap
    &&& forall|i: int|
        #![trigger slots[i]]
        0 <= i < slots.len() && slots[i].occupied() ==> {
            &&& slots[i].ver_hi == slots[i].ver_lo
            &&& i == home(cap, slots[i].key, i < cap)
        }
    &&& forall|i: int, j: int|
        #![trigger slots[i], slots[j]]
        0 <= i < cap <= j < slots.len() && slots[i].occupied() && slots[j].occupied()
            ==> slots[i].key != slots[j].key
}

/// No slot holds `key`.
pub open spec fn absent(slots: Seq<SlotState>, key: Seq<u8>) -> bool {
    forall|i: int|
        #![trigger slots[i]]
        0 <= i < slots.len() && slots[i].occupied() ==> slots[i].key != key
}

/// What an insertion comes to.
#[verifier::ext_equal]
pub struct Insertion {
    /// The slots afterwards.
    pub slots: Seq<SlotState>,
    /// Whether every pair found a slot.
    pub placed: bool,
    /// The pair that was left without a slot, where one was.
    pub key: Seq<u8>,
    pub value: Seq<u8>,
    /// Whether some write ran a version over to zero.
    pub wrapped: bool,
}

/// Writes a pair to its slot in the half that `in_a` names, then the pair that stood there to
/// its slot in the other half, and so on, until a free slot is met or `moves` slots are written.
pub open spec fn displace(
    slots: Seq<SlotState>,
    cap: nat,
    key: Seq<u8>,
    value: Seq<u8>,
    in_a: bool,
    moves: nat,
) -> Insertion
    decreases moves,
{
    if moves == 0 {
        Insertion { slots, placed: false, key, value, wrapped: false }
    } else {
        let i = home(cap, key, in_a);
        let tenant = slots[i];
        let after = slots.update(i, tenant.written(key, value));
        if !tenant.occupied() {
            Insertion { slots: after, placed: true, key, value, wrapped: tenant.at_last_version() }
        } else {
            let rest = displace(
                after,
                cap,
                tenant.key,
                tenant.value,
                !in_a,
                (moves - 1) as nat,
            );
            Insertion { wrapped: rest.wrapped || tenant.at_last_version(), ..rest }
        }
    }
}

/// An insertion: the key's own slot is written over where it has one, half A first; a key that
/// has none starts a chain of displacements in half A.
pub open spec fn insertion(
    slots: Seq<SlotState>,
    cap: nat,
    key: Seq<u8>,
    value: Seq<u8>,
) -> Insertion {
    let ia = home_a(cap, key);
    let ib = home_b(cap, key);
    if slots[ia].occupied() && slots[ia].key == key {
        Insertion {
            slots: slots.update(ia, slots[ia].written(key, value)),
            placed: true,
            key,
            value,
            wrapped: slots[ia].at_last_version(),
        }
    } else if slots[ib].occupied() && slots[ib].key == key {
        Insertion {
            slots: slots.update(ib, slots[ib].written(key, value)),
            placed: true,
            key,
            value,
            wrapped: slots[ib].at_last_version(),
        }
    } else {
        displace(slots, cap, key, value, true, MAX_DISPLACEMENTS as nat)
    }
}

/// The slots of a key stand in their halves.
pub proof fn lemma_home_bounds(cap: nat, key: Seq<u8>)
    requires
        cap > 0,
    ensures
        0 <= home_a(cap, key) < cap,
        cap <= home_b(cap, key) < 2 * cap,
{
}

/// In a well-formed table, a key is found exactly where a slot holds it.
pub proof fn lemma_lookup_is_presence(slots: Seq<SlotState>, cap: nat, key: Seq<u8>)
    requires
        well_formed(slots, cap),
    ensures
        lookup(slots, cap, key) is None <==> absent(slots, key),
        forall|i: int|
            #![trigger slots[i]]
            0 <= i < slots.len() && slots[i].occupied() && slots[i].key == key ==> lookup(
                slots,
                cap,
                key,
            ) == Some(slots[i].value),
{
    lemma_home_bounds(cap, key);
}

/// Writing a pair whose key stands nowhere to one of its slots: the tenant leaves, the pair
/// arrives, all else stays.
proof fn lemma_place(
    slots: Seq<SlotState>,
    cap: nat,
    key: Seq<u8>,
    value: Seq<u8>,
    in_a: bool,
)
    requires
        well_formed(slots, cap),
        absent(slots, key),
    ensures
        ({
            let i = home(cap, key, in_a);
            let tenant = slots[i];
            let after = slots.update(i, tenant.written(key, value));
            &&& well_formed(after, cap)
            &&& tenant.occupied() ==> absent(after, tenant.key)
            &&& tenant.occupied() ==> dict(slots, cap).contains_pair(tenant.key, tenant.value)
            &&& !tenant.at_last_version() ==> dict(after, cap) == (if tenant.occupied() {
                dict(slots, cap).remove(tenant.key)
            } else {
                dict(slots, cap)
            }).insert(key, value)
        }),
{
    lemma_home_bounds(cap, key);
    let i = home(cap, key, in_a);
    let tenant = slots[i];
    let after = slots.update(i, tenant.written(key, value));
    assert forall|j: int|
        #![trigger after[j]]
        0 <= j < after.len() && after[j].occupied() implies after[j].ver_hi == after[j].ver_lo && j
        == home(cap, after[j].key, j < cap) by {
        assert(j != i ==> after[j] == slots[j]);
    }
    assert forall|j: int, l: int|
        #![trigger after[j], after[l]]
        0 <= j < cap <= l < after.len() && after[j].occupied()
            && after[l].occupied() implies after[j].key != after[l].key by {
        assert(j != i ==> after[j] == slots[j]);
        assert(l != i ==> after[l] == slots[l]);
    }
    if tenant.occupied() {
        lemma_lookup_is_presence(slots, cap, tenant.key);
        assert forall|j: int|
            #![trigger after[j]]
            0 <= j < after.len() && after[j].occupied() implies after[j].key != tenant.key by {
            assert(j != i ==> after[j] == slots[j]);
            assert(slots[i] == tenant);
        }
    }
    if !tenant.at_last_version() {
        let base = if tenant.occupied() {
            dict(slots, cap).remove(tenant.key)
        } else {
            dict(slots, cap)
        };
        let goal = base.insert(key, value);
        assert forall|k: Seq<u8>| lookup(after, cap, k) == (if goal.contains_key(k) {
            Some(goal[k])
        } else {
            None
        }) by {
            lemma_lookup_is_presence(slots, cap, k);
            lemma_lookup_is_presence(after, cap, k);
            lemma_home_bounds(cap, k);
            if k == key {
                assert(after[i].occupied() && after[i].key == key);
            } else if tenant.occupied() && k == tenant.key {
                assert(absent(after, k));
            } else if lookup(slots, cap, k) is Some {
                let j = choose|j: int|
                    #![trigger slots[j]]
                    0 <= j < slots.len() && slots[j].occupied() && slots[j].key == k;
                assert(j != i);
                assert(after[j] == slots[j]);
            } else {
                assert forall|j: int|
                    #![trigger after[j]]
                    0 <= j < after.len() && after[j].occupied() implies after[j].key != k by {
                    assert(j != i ==> after[j] == slots[j]);
                }
            }
        }
        assert(dict(after, cap) =~= goal);
    }
}

/// A chain of displacements keeps the table well formed and, unless a version runs over, keeps
/// every pair but the one it leaves without a slot.
proof fn lemma_displace(
    slots: Seq<SlotState>,
    cap: nat,
    key: Seq<u8>,
    value: Seq<u8>,
    in_a: bool,
    moves: nat,
)
    requires
        well_formed(slots, cap),
        absent(slots, key),
    ensures
        ({
            let result = displace(slots, cap, key, value, in_a, moves);
            let wanted = dict(slots, cap).insert(key, value);
            &&& well_formed(result.slots, cap)
            &&& !result.wrapped && result.placed ==> dict(result.slots, cap) == wanted
            &&& !result.wrapped && !result.placed ==> {
                &&& wanted.contains_pair(result.key, result.value)
                &&& dict(result.slots, cap) == wanted.remove(result.key)
            }
        }),
    decreases moves,
{
    let wanted = dict(slots, cap).insert(key, value);
    lemma_lookup_is_presence(slots, cap, key);
    if moves == 0 {
        assert(wanted.remove(key) =~= dict(slots, cap));
    } else {
        lemma_place(slots, cap, key, value, in_a);
        let i = home(cap, key, in_a);
        let tenant = slots[i];
        let after = slots.update(i, tenant.written(key, value));
        if tenant.occupied() {
            lemma_home_bounds(cap, key);
            assert(tenant.key != key);
            lemma_displace(after, cap, tenant.key, tenant.value, !in_a, (moves - 1) as nat);
            if !tenant.at_last_version() {
                assert(dict(after, cap).insert(tenant.key, tenant.value) =~= wanted);
            }
        }
    }
}

/// Writing over the value of a key that has a slot.
proof fn lemma_update(slots: Seq<SlotState>, cap: nat, i: int, value: Seq<u8>)
    requires
        well_formed(slots, cap),
        0 <= i < slots.len(),
        slots[i].occupied(),
    ensures
        ({
            let after = slots.update(i, slots[i].written(slots[i].key, value));
            &&& well_formed(after, cap)
            &&& !slots[i].at_last_version() ==> dict(after, cap) == dict(slots, cap).insert(
                slots[i].key,
                value,
            )
        }),
{
    let key = slots[i].key;
    let after = slots.update(i, slots[i].written(key, value));
    assert forall|j: int, l: int|
        #![trigger after[j], after[l]]
        0 <= j < cap <= l < after.len() && after[j].occupied()
            && after[l].occupied() implies after[j].key != after[l].key by {
        assert(slots[j].key != slots[l].key);
    }
    if !slots[i].at_last_version() {
        let goal = dict(slots, cap).insert(key, value);
        assert forall|k: Seq<u8>| lookup(after, cap, k) == (if goal.contains_key(k) {
            Some(goal[k])
        } else {
            None
        }) by {
            lemma_lookup_is_presence(slots, cap, k);
            lemma_lookup_is_presence(after, cap, k);
            if k == key {
                assert(after[i].occupied() && after[i].key == key);
            } else if lookup(slots, cap, k) is Some {
                let j = choose|j: int|
                    #![trigger slots[j]]
                    0 <= j < slots.len() && slots[j].occupied() && slots[j].key == k;
                assert(after[j] == slots[j]);
            }
        }
        assert(dict(after, cap) =~= goal);
    }
}

/// What an insertion does to the pairs of a well-formed table, unless a version runs over to
/// zero on the way: where it succeeds, the table holds the new pair and all the others as they
/// were; where it fails, exactly one pair of those is gone, the one left without a slot. The
/// table stays well formed in any case.
pub proof fn law_insertion(slots: Seq<SlotState>, cap: nat, key: Seq<u8>, value: Seq<u8>)
    ensures
        well_formed(slots, cap) ==> ({
            let result = insertion(slots, cap, key, value);
            let wanted = dict(slots, cap).insert(key, value);
            &&& well_formed(result.slots, cap)
            &&& !result.wrapped && result.placed ==> dict(result.slots, cap) == wanted
            &&& !result.wrapped && !result.placed ==> {
                &&& wanted.contains_pair(result.key, result.value)
                &&& dict(result.slots, cap) == wanted.remove(result.key)
            }
        }),
{
    if well_formed(slots, cap) {
        lemma_home_bounds(cap, key);
        lemma_lookup_is_presence(slots, cap, key);
        let ia = home_a(cap, key);
        let ib = home_b(cap, key);
        if slots[ia].occupied() && slots[ia].key == key {
            lemma_update(slots, cap, ia, value);
        } else if slots[ib].occupied() && slots[ib].key == key {
            lemma_update(slots, cap, ib, value);
        } else {
            lemma_displace(slots, cap, key, value, true, MAX_DISPLACEMENTS as nat);
        }
    }
}

/// A lookup after an insertion that succeeded: the inserted key gives the inserted value, every
/// other key gives what it gave before.
pub proof fn law_lookup_after_insertion(
    slots: Seq<SlotState>,
    cap: nat,
    key: Seq<u8>,
    value: Seq<u8>,
    other: Seq<u8>,
)
    ensures
        ({
            let result = insertion(slots, cap, key, value);
            well_formed(slots, cap) && result.placed && !result.wrapped ==> {
                &&& lookup(result.slots, cap, key) == Some(value)
                &&& other != key ==> lookup(result.slots, cap, other) == lookup(slots, cap, other)
            }
        }),
{
    let result = insertion(slots, cap, key, value);
    law_insertion(slots, cap, key, value);
    if well_formed(slots, cap) && result.placed && !result.wrapped {
        let wanted = dict(slots, cap).insert(key, value);
        assert(wanted.contains_pair(key, value));
        assert(dict(result.slots, cap).contains_pair(key, value));
        assert(dict(result.slots, cap).contains_key(other) == wanted.contains_key(other));
        assert(dict(slots, cap).contains_key(other) == (lookup(slots, cap, other) is Some));
        assert(dict(result.slots, cap).contains_key(other) == (lookup(result.slots, cap, other)
            is Some));
        if other != key && dict(slots, cap).contains_key(other) {
            assert(wanted[other] == dict(slots, cap)[other]);
            assert(dict(result.slots, cap)[other] == wanted[other]);
        }
    }
}

/// A lookup after an insertion that failed: one key is gone, of the inserted one and those that
/// were there; every other key gives what it should.
pub proof fn law_lookup_after_failure(
    slots: Seq<SlotState>,
    cap: nat,
    key: Seq<u8>,
    value: Seq<u8>,
    other: Seq<u8>,
)
    ensures
        ({
            let result = insertion(slots, cap, key, value);
            well_formed(slots, cap) && !result.placed && !result.wrapped ==> {
                &&& lookup(result.slots, cap, result.key) is None
                &&& result.key == key || lookup(slots, cap, result.key) == Some(result.value)
                &&& other != result.key ==> lookup(result.slots, cap, other) == (if other == key {
                    Some(value)
                } else {
                    lookup(slots, cap, other)
                })
            }
        }),
{
    let result = insertion(slots, cap, key, value);
    law_insertion(slots, cap, key, value);
    if well_formed(slots, cap) && !result.placed && !result.wrapped {
        let wanted = dict(slots, cap).insert(key, value);
        let after = dict(result.slots, cap);
        assert(wanted.contains_pair(result.key, result.value));
        assert(!after.contains_key(result.key));
        assert(after.contains_key(result.key) == (lookup(result.slots, cap, result.key) is Some));
        assert(dict(slots, cap).contains_key(result.key) == (lookup(slots, cap, result.key)
            is Some));
        if other != result.key {
            assert(after.contains_key(other) == wanted.contains_key(other));
            assert(after.contains_key(other) == (lookup(result.slots, cap, other) is Some));
            assert(dict(slots, cap).contains_key(other) == (lookup(slots, cap, other) is Some));
            if wanted.contains_key(other) {
                assert(after[other] == wanted[other]);
            }
        }
    }
}

/// Writing to a key that is in the table always succeeds, and writes one slot of that key.
pub proof fn law_update_in_place(slots: Seq<SlotState>, cap: nat, key: Seq<u8>, value: Seq<u8>)
    ensures
        well_formed(slots, cap) && lookup(slots, cap, key) is Some ==> ({
            let result = insertion(slots, cap, key, value);
            let i = if slots[home_a(cap, key)].occupied() && slots[home_a(cap, key)].key == key {
                home_a(cap, key)
            } else {
                home_b(cap, key)
            };
            &&& result.placed
            &&& slots[i].key == key
            &&& result.slots == slots.update(i, slots[i].written(key, value))
        }),
{
}

/// Every slot is at rest.
pub open spec fn all_at_rest(slots: Seq<SlotState>) -> bool {
    forall|i: int| 0 <= i < slots.len() ==> (#[trigger] slots[i]).at_rest()
}

proof fn lemma_displace_keeps_rest(
    slots: Seq<SlotState>,
    cap: nat,
    key: Seq<u8>,
    value: Seq<u8>,
    in_a: bool,
    moves: nat,
)
    requires
        all_at_rest(slots),
        cap > 0,
        slots.len() == 2 * cap,
    ensures
        all_at_rest(displace(slots, cap, key, value, in_a, moves).slots),
        displace(slots, cap, key, value, in_a, moves).slots.len() == slots.len(),
    decreases moves,
{
    if moves > 0 {
        lemma_home_bounds(cap, key);
        let i = home(cap, key, in_a);
        let tenant = slots[i];
        let after = slots.update(i, tenant.written(key, value));
        if tenant.occupied() {
            lemma_displace_keeps_rest(
                after,
                cap,
                tenant.key,
                tenant.value,
                !in_a,
                (moves - 1) as nat,
            );
        }
    }
}

/// An insertion into a table at rest leaves it at rest, whether it succeeds or not.
pub proof fn law_insertion_keeps_rest(
    slots: Seq<SlotState>,
    cap: nat,
    key: Seq<u8>,
    value: Seq<u8>,
)
    requires
        all_at_rest(slots),
        cap > 0,
        slots.len() == 2 * cap,
    ensures
        all_at_rest(insertion(slots, cap, key, value).slots),
        insertion(slots, cap, key, value).slots.len() == slots.len(),
{
    lemma_home_bounds(cap, key);
    lemma_displace_keeps_rest(slots, cap, key, value, true, MAX_DISPLACEMENTS as nat);
}

/// A lookup finds what a key's slot in half A reads under that key, or else what its slot in half B
/// does, and otherwise nothing. These two slots are fixed by the two hashes of the key.
pub proof fn law_lookup_reads_two_slots(
    slots: Seq<SlotState>,
    cap: nat,
    key: Seq<u8>,
    value: Seq<u8>,
)
    requires
        cap > 0,
    ensures
        ({
            let a = slots[crate::hash::xxh3(key) as usize as int % cap as int];
            let b = slots[cap + crate::hash::xxh3_seeded(key, 0xC0FFEE_DEADBEEF) as usize as int
                % cap as int];
            let in_a = a.read() matches Some(pair) && pair.0 == key;
            let in_b = b.read() matches Some(pair) && pair.0 == key;
            &&& a.read() == Some((key, value)) ==> lookup(slots, cap, key) == Some(value)
            &&& !in_a && b.read() == Some((key, value)) ==> lookup(slots, cap, key) == Some(value)
            &&& !in_a && !in_b ==> lookup(slots, cap, key) is None
            &&& dict(slots, cap).contains_pair(key, value) <==> lookup(slots, cap, key) == Some(
                value,
            )
            &&& dict(slots, cap).contains_key(key) <==> in_a || in_b
        }),
{
}

/// One move of a chain: the pair of number `j` takes its slot, half A and half B in turn, from the
/// tenant there, which is the pair of number `j + 1`.
pub open spec fn moves_on(
    cap: nat,
    from_a: bool,
    tables: Seq<Seq<SlotState>>,
    pairs: Seq<(Seq<u8>, Seq<u8>)>,
    j: int,
) -> bool {
    let i = home(cap, pairs[j].0, (j % 2 == 0) == from_a);
    let tenant = tables[j][i];
    &&& tenant.occupied()
    &&& pairs[j + 1] == (tenant.key, tenant.value)
    &&& tables[j + 1] == tables[j].update(i, tenant.written(pairs[j].0, pairs[j].1))
}

/// The stations of a chain: each pair takes its slot from the next one, the first slot standing in
/// half A or not, as `from_a` says. `tables` are the slots before each pair moves in.
pub open spec fn is_chain(
    cap: nat,
    from_a: bool,
    tables: Seq<Seq<SlotState>>,
    pairs: Seq<(Seq<u8>, Seq<u8>)>,
) -> bool {
    &&& tables.len() == pairs.len()
    &&& forall|j: int|
        0 <= j < pairs.len() - 1 ==> #[trigger] moves_on(cap, from_a, tables, pairs, j)
}

/// A chain without its first station.
proof fn lemma_chain_tail(
    cap: nat,
    from_a: bool,
    tables: Seq<Seq<SlotState>>,
    pairs: Seq<(Seq<u8>, Seq<u8>)>,
)
    requires
        is_chain(cap, from_a, tables, pairs),
        pairs.len() > 0,
    ensures
        is_chain(cap, !from_a, tables.skip(1), pairs.skip(1)),
{
    let from_b = !from_a;
    let rest = tables.skip(1);
    let movers = pairs.skip(1);
    assert forall|j: int| 0 <= j < movers.len() - 1 implies #[trigger] moves_on(
        cap,
        from_b,
        rest,
        movers,
        j,
    ) by {
        assert(moves_on(cap, from_a, tables, pairs, j + 1));
    }
}

/// Where displacements end that go along a chain.
proof fn lemma_displace_along(
    cap: nat,
    from_a: bool,
    tables: Seq<Seq<SlotState>>,
    pairs: Seq<(Seq<u8>, Seq<u8>)>,
    moves: nat,
)
    requires
        is_chain(cap, from_a, tables, pairs),
        0 < pairs.len() <= moves + 1,
    ensures
        ({
            let n = pairs.len() - 1;
            let i = home(cap, pairs[n].0, (n % 2 == 0) == from_a);
            let free = tables[n][i];
            let result = displace(tables[0], cap, pairs[0].0, pairs[0].1, from_a, moves);
            &&& n < moves && !free.occupied() ==> {
                &&& result.placed
                &&& result.slots == tables[n].update(i, free.written(pairs[n].0, pairs[n].1))
            }
            &&& n == moves ==> {
                &&& !result.placed
                &&& result.slots == tables[n]
                &&& (result.key, result.value) == pairs[n]
            }
        }),
    decreases pairs.len(),
{
    if pairs.len() > 1 {
        assert(moves_on(cap, from_a, tables, pairs, 0));
        lemma_chain_tail(cap, from_a, tables, pairs);
        lemma_displace_along(cap, !from_a, tables.skip(1), pairs.skip(1), (moves - 1) as nat);
        let n = pairs.len() - 1;
        assert(pairs.skip(1)[n - 1] == pairs[n]);
        assert(tables.skip(1)[n - 1] == tables[n]);
        assert(((n - 1) % 2 == 0) == !(n % 2 == 0));
    }
}

/// The chain that displacements go along.
proof fn lemma_displace_chain(
    slots: Seq<SlotState>,
    cap: nat,
    key: Seq<u8>,
    value: Seq<u8>,
    from_a: bool,
    moves: nat,
) -> (chain: (Seq<Seq<SlotState>>, Seq<(Seq<u8>, Seq<u8>)>))
    ensures
        ({
            let (tables, pairs) = chain;
            let result = displace(slots, cap, key, value, from_a, moves);
            let n = pairs.len() - 1;
            &&& is_chain(cap, from_a, tables, pairs)
            &&& pairs.len() > 0
            &&& tables[0] == slots
            &&& pairs[0] == (key, value)
            &&& !result.placed ==> n == moves
            &&& result.placed ==> n < moves && !tables[n][home(
                cap,
                pairs[n].0,
                (n % 2 == 0) == from_a,
            )].occupied()
        }),
    decreases moves,
{
    let tenant = slots[home(cap, key, from_a)];
    if moves == 0 || !tenant.occupied() {
        (seq![slots], seq![(key, value)])
    } else {
        let after = slots.update(home(cap, key, from_a), tenant.written(key, value));
        let (rest, movers) = lemma_displace_chain(
            after,
            cap,
            tenant.key,
            tenant.value,
            !from_a,
            (moves - 1) as nat,
        );
        let tables = seq![slots] + rest;
        let pairs = seq![(key, value)] + movers;
        assert forall|j: int| 0 <= j < pairs.len() - 1 implies #[trigger] moves_on(
            cap,
            from_a,
            tables,
            pairs,
            j,
        ) by {
            if j > 0 {
                assert(moves_on(cap, !from_a, rest, movers, j - 1));
            }
        }
        let n = pairs.len() - 1;
        assert(pairs[n] == movers[n - 1]);
        assert(tables[n] == rest[n - 1]);
        assert(((n - 1) % 2 == 0) == !(n % 2 == 0));
        (tables, pairs)
    }
}

/// Whether `key` stands in neither of its slots.
pub open spec fn is_new(slots: Seq<SlotState>, cap: nat, key: Seq<u8>) -> bool {
    &&& !(slots[home_a(cap, key)].occupied() && slots[home_a(cap, key)].key == key)
    &&& !(slots[home_b(cap, key)].occupied() && slots[home_b(cap, key)].key == key)
}

/// The insertion of a new key goes along the chain that starts with its pair in half A. Where the
/// chain comes to a free slot with fewer than 512 moves, the insertion succeeds, and writes that
/// slot last.
pub proof fn law_insertion_ends_at_a_free_slot(
    cap: nat,
    tables: Seq<Seq<SlotState>>,
    pairs: Seq<(Seq<u8>, Seq<u8>)>,
)
    requires
        0 < pairs.len() <= 512,
        is_chain(cap, true, tables, pairs),
        is_new(tables[0], cap, pairs[0].0),
        !tables.last()[home(cap, pairs.last().0, pairs.len() % 2 == 1)].occupied(),
    ensures
        ({
            let result = insertion(tables[0], cap, pairs[0].0, pairs[0].1);
            let i = home(cap, pairs.last().0, pairs.len() % 2 == 1);
            &&& result.placed
            &&& result.slots == tables.last().update(
                i,
                tables.last()[i].written(pairs.last().0, pairs.last().1),
            )
        }),
{
    lemma_displace_along(cap, true, tables, pairs, MAX_DISPLACEMENTS as nat);
}

/// Where 512 slots in a row of its chain are taken, the insertion of a new key fails, and leaves
/// out the tenant of the last of them.
pub proof fn law_insertion_fails_after_512_taken_slots(
    cap: nat,
    tables: Seq<Seq<SlotState>>,
    pairs: Seq<(Seq<u8>, Seq<u8>)>,
)
    requires
        pairs.len() == 513,
        is_chain(cap, true, tables, pairs),
        is_new(tables[0], cap, pairs[0].0),
    ensures
        ({
            let result = insertion(tables[0], cap, pairs[0].0, pairs[0].1);
            &&& !result.placed
            &&& result.slots == tables.last()
            &&& (result.key, result.value) == pairs.last()
        }),
{
    lemma_displace_along(cap, true, tables, pairs, MAX_DISPLACEMENTS as nat);
}

/// An insertion fails for no other reason: where one does, its key is new, and 512 slots in a row
/// of its chain were taken.
pub proof fn law_failure_met_512_taken_slots(
    slots: Seq<SlotState>,
    cap: nat,
    key: Seq<u8>,
    value: Seq<u8>,
)
    requires
        !insertion(slots, cap, key, value).placed,
    ensures
        is_new(slots, cap, key),
        exists|tables: Seq<Seq<SlotState>>, pairs: Seq<(Seq<u8>, Seq<u8>)>| #[trigger]
            is_chain(cap, true, tables, pairs) && pairs.len() == 513 && tables[0] == slots
                && pairs[0] == (key, value),
{
    let (tables, pairs) = lemma_displace_chain(
        slots,
        cap,
        key,
        value,
        true,
        MAX_DISPLACEMENTS as nat,
    );
    assert(is_chain(cap, true, tables, pairs));
}

/// What an insertion comes to that finds a free slot at once, or after one move. A key that stands
/// in neither of its slots goes to half A, where its slot is free; where that is taken, its tenant
/// makes room, if its own slot in half B is free. A key that stands in one of its slots is written
/// over there.
pub proof fn law_insertion_takes_a_free_slot(
    slots: Seq<SlotState>,
    cap: nat,
    key: Seq<u8>,
    value: Seq<u8>,
)
    requires
        cap > 0,
        slots.len() == 2 * cap,
    ensures
        ({
            let result = insertion(slots, cap, key, value);
            let ia = crate::hash::xxh3(key) as usize as int % cap as int;
            let ib = cap + crate::hash::xxh3_seeded(key, 0xC0FFEE_DEADBEEF) as usize as int
                % cap as int;
            let a = slots[ia];
            let b = slots[ib];
            let in_a = a.occupied() && a.key == key;
            let in_b = b.occupied() && b.key == key;
            let next = cap + crate::hash::xxh3_seeded(a.key, 0xC0FFEE_DEADBEEF) as usize as int
                % cap as int;
            &&& in_a ==> {
                &&& result.placed
                &&& result.slots == slots.update(ia, a.written(key, value))
            }
            &&& !in_a && in_b ==> {
                &&& result.placed
                &&& result.slots == slots.update(ib, b.written(key, value))
            }
            &&& !in_b && !a.occupied() ==> {
                &&& result.placed
                &&& result.slots == slots.update(ia, a.written(key, value))
            }
            &&& !in_a && !in_b && a.occupied() && !slots[next].occupied() ==> {
                &&& result.placed
                &&& result.slots == slots.update(ia, a.written(key, value)).update(
                    next,
                    slots[next].written(a.key, a.value),
                )
            }
        }),
{
    lemma_home_bounds(cap, key);
    let ia = home_a(cap, key);
    let a = slots[ia];
    lemma_home_bounds(cap, a.key);
    if is_new(slots, cap, key) {
        if !a.occupied() {
            law_insertion_ends_at_a_free_slot(cap, seq![slots], seq![(key, value)]);
        } else if !slots[home_b(cap, a.key)].occupied() {
            let after = slots.update(ia, a.written(key, value));
            let tables = seq![slots, after];
            let pairs = seq![(key, value), (a.key, a.value)];
            assert(moves_on(cap, true, tables, pairs, 0));
            law_insertion_ends_at_a_free_slot(cap, tables, pairs);
        }
    }
}

/// Every version is below `n`.
pub open spec fn versions_below(slots: Seq<SlotState>, n: int) -> bool {
    forall|i: int| 0 <= i < slots.len() ==> (#[trigger] slots[i]).ver_lo < n
}

proof fn lemma_displace_versions(
    slots: Seq<SlotState>,
    cap: nat,
    key: Seq<u8>,
    value: Seq<u8>,
    in_a: bool,
    moves: nat,
    n: int,
)
    requires
        cap > 0,
        slots.len() == 2 * cap,
        versions_below(slots, n),
        n + 2 * moves <= 0xFFFF_FFFE,
    ensures
        ({
            let result = displace(slots, cap, key, value, in_a, moves);
            &&& !result.wrapped
            &&& versions_below(result.slots, n + 2 * moves)
            &&& result.slots.len() == slots.len()
        }),
    decreases moves,
{
    if moves > 0 {
        lemma_home_bounds(cap, key);
        let i = home(cap, key, in_a);
        let tenant = slots[i];
        let after = slots.update(i, tenant.written(key, value));
        if tenant.occupied() {
            lemma_displace_versions(
                after,
                cap,
                tenant.key,
                tenant.value,
                !in_a,
                (moves - 1) as nat,
                n + 2,
            );
        }
    }
}

/// As long as the versions of a table are not near their end, no insertion runs one over; it raises
/// none by more than 1024.
pub proof fn law_low_versions_do_not_run_over(
    slots: Seq<SlotState>,
    cap: nat,
    key: Seq<u8>,
    value: Seq<u8>,
    n: int,
)
    requires
        cap > 0,
        slots.len() == 2 * cap,
        versions_below(slots, n),
        n + 1024 <= 0xFFFF_FFFE,
    ensures
        ({
            let result = insertion(slots, cap, key, value);
            &&& !result.wrapped
            &&& versions_below(result.slots, n + 1024)
            &&& result.slots.len() == slots.len()
        }),
{
    lemma_home_bounds(cap, key);
    lemma_displace_versions(slots, cap, key, value, true, MAX_DISPLACEMENTS as nat, n);
}

/// An insertion into a table in which lookups find nothing succeeds, whatever the pair, and lookups
/// then find that pair, as long as the versions of the table are not near their end.
pub proof fn law_first_insertion_succeeds(
    slots: Seq<SlotState>,
    cap: nat,
    key: Seq<u8>,
    value: Seq<u8>,
)
    requires
        well_formed(slots, cap),
        forall|k: Seq<u8>| #[trigger] lookup(slots, cap, k) is None,
        versions_below(slots, 0xFFFF_FBFE),
    ensures
        ({
            let result = insertion(slots, cap, key, value);
            &&& result.placed
            &&& lookup(result.slots, cap, key) == Some(value)
            &&& forall|k: Seq<u8>| k != key ==> #[trigger] lookup(result.slots, cap, k) is None
        }),
{
    let result = insertion(slots, cap, key, value);
    lemma_home_bounds(cap, key);
    let a = slots[home_a(cap, key)];
    let b = slots[home_b(cap, key)];
    if a.occupied() {
        lemma_lookup_is_presence(slots, cap, a.key);
        assert(lookup(slots, cap, a.key) is None);
    }
    if b.occupied() {
        lemma_lookup_is_presence(slots, cap, b.key);
        assert(lookup(slots, cap, b.key) is None);
    }
    law_insertion_takes_a_free_slot(slots, cap, key, value);
    law_low_versions_do_not_run_over(slots, cap, key, value, 0xFFFF_FBFE);
    law_lookup_after_insertion(slots, cap, key, value, key);
    assert forall|k: Seq<u8>| k != key implies #[trigger] lookup(result.slots, cap, k) is None by {
        law_lookup_after_insertion(slots, cap, key, value, k);
        assert(lookup(slots, cap, k) is None);
    }
}

} // verus!
