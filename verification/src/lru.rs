//! A read cache that drops what was used least recently.
//!
//! Each use of a key gets a new stamp. The cache keeps, beside its entries, the list of all uses
//! in order; an item of that list counts only while the entry of its key still has its stamp.
//! So a use is one push, and the list is cleared of uses that no longer count as room is made.

use std::collections::VecDeque;

use vstd::prelude::*;

use crate::keymap::KeyMap;

verus! {

/// `contents` without `key`.
pub open spec fn without(contents: Seq<(Seq<u8>, Seq<u8>)>, key: Seq<u8>) -> Seq<
    (Seq<u8>, Seq<u8>),
> {
    contents.filter(|pair: (Seq<u8>, Seq<u8>)| pair.0 != key)
}

/// `contents` after a use of `key`, which has the value `value`: the most recent use stands last.
pub open spec fn used(
    contents: Seq<(Seq<u8>, Seq<u8>)>,
    key: Seq<u8>,
    value: Seq<u8>,
) -> Seq<(Seq<u8>, Seq<u8>)> {
    without(contents, key).push((key, value))
}

/// The last `n` items, or all where there are no more.
pub open spec fn most_recent(contents: Seq<(Seq<u8>, Seq<u8>)>, n: nat) -> Seq<
    (Seq<u8>, Seq<u8>),
> {
    if contents.len() <= n {
        contents
    } else {
        contents.skip(contents.len() - n)
    }
}

/// The value of `key` in `contents`.
pub open spec fn value_in(contents: Seq<(Seq<u8>, Seq<u8>)>, key: Seq<u8>) -> Option<Seq<u8>> {
    if exists|i: int| 0 <= i < contents.len() && (#[trigger] contents[i]).0 == key {
        let p = choose|i: int| 0 <= i < contents.len() && (#[trigger] contents[i]).0 == key;
        Some(contents[p].1)
    } else {
        None
    }
}

/// No key stands twice in `contents`.
pub open spec fn no_key_twice(contents: Seq<(Seq<u8>, Seq<u8>)>) -> bool {
    forall|p: int, q: int|
        0 <= p < q < contents.len() ==> (#[trigger] contents[p]).0 != (#[trigger] contents[q]).0
}

/// Whether an item of the list of uses counts.
spec fn counts(entries: Map<Seq<u8>, (Seq<u8>, u64)>, item: ([u8; 24], u64)) -> bool {
    entries.contains_key(item.0@) && entries[item.0@].1 == item.1
}

/// What the cache holds, by the uses that count.
spec fn contents_of(
    uses: Seq<([u8; 24], u64)>,
    entries: Map<Seq<u8>, (Seq<u8>, u64)>,
) -> Seq<(Seq<u8>, Seq<u8>)>
    decreases uses.len(),
{
    if uses.len() == 0 {
        Seq::empty()
    } else {
        let item = uses.last();
        let before = contents_of(uses.drop_last(), entries);
        if counts(entries, item) {
            before.push((item.0@, entries[item.0@].0))
        } else {
            before
        }
    }
}

/// The stamps of the uses are those up to `generation`, without gap, in 64 bits.
spec fn stamped(uses: Seq<([u8; 24], u64)>, generation: u64) -> bool {
    forall|i: int|
        0 <= i < uses.len() ==> (#[trigger] uses[i]).1 == (generation - (uses.len() - 1 - i))
            % 0x1_0000_0000_0000_0000
}

/// Every entry has a use that counts.
spec fn covered(uses: Seq<([u8; 24], u64)>, entries: Map<Seq<u8>, (Seq<u8>, u64)>) -> bool {
    forall|key: Seq<u8>| #[trigger]
        entries.contains_key(key) ==> exists|i: int|
            0 <= i < uses.len() && (#[trigger] uses[i]).0@ == key && uses[i].1 == entries[key].1
}

/// No two uses have the same stamp.
spec fn distinct(uses: Seq<([u8; 24], u64)>) -> bool {
    forall|i: int, j: int|
        0 <= i < j < uses.len() ==> (#[trigger] uses[i]).1 != (#[trigger] uses[j]).1
}

proof fn lemma_stamps_differ(uses: Seq<([u8; 24], u64)>, generation: u64)
    requires
        stamped(uses, generation),
        uses.len() <= usize::MAX,
    ensures
        distinct(uses),
        forall|i: int|
            0 <= i < uses.len() ==> (#[trigger] uses[i]).1 != (generation + 1)
                % 0x1_0000_0000_0000_0000,
{
}

/// An item of the contents comes of a use that counts.
proof fn lemma_contents(
    uses: Seq<([u8; 24], u64)>,
    entries: Map<Seq<u8>, (Seq<u8>, u64)>,
    p: int,
) -> (i: int)
    requires
        0 <= p < contents_of(uses, entries).len(),
    ensures
        0 <= i < uses.len(),
        counts(entries, uses[i]),
        contents_of(uses, entries)[p] == (uses[i].0@, entries[uses[i].0@].0),
    decreases uses.len(),
{
    let item = uses.last();
    let before = contents_of(uses.drop_last(), entries);
    if p < before.len() {
        lemma_contents(uses.drop_last(), entries, p)
    } else {
        uses.len() - 1
    }
}

/// A use that counts shows in the contents.
proof fn lemma_counted(
    uses: Seq<([u8; 24], u64)>,
    entries: Map<Seq<u8>, (Seq<u8>, u64)>,
    i: int,
) -> (p: int)
    requires
        0 <= i < uses.len(),
        counts(entries, uses[i]),
    ensures
        0 <= p < contents_of(uses, entries).len(),
        contents_of(uses, entries)[p] == (uses[i].0@, entries[uses[i].0@].0),
    decreases uses.len(),
{
    if i == uses.len() - 1 {
        contents_of(uses.drop_last(), entries).len() as int
    } else {
        assert(uses.drop_last()[i] == uses[i]);
        lemma_counted(uses.drop_last(), entries, i)
    }
}

proof fn lemma_no_key_twice(
    uses: Seq<([u8; 24], u64)>,
    entries: Map<Seq<u8>, (Seq<u8>, u64)>,
)
    requires
        distinct(uses),
    ensures
        no_key_twice(contents_of(uses, entries)),
    decreases uses.len(),
{
    if uses.len() > 0 {
        let item = uses.last();
        let rest = uses.drop_last();
        let before = contents_of(rest, entries);
        assert forall|i: int, j: int| 0 <= i < j < rest.len() implies (#[trigger] rest[i]).1 != (
        #[trigger] rest[j]).1 by {
            assert(rest[i] == uses[i] && rest[j] == uses[j]);
        }
        lemma_no_key_twice(rest, entries);
        if counts(entries, item) {
            assert forall|p: int| 0 <= p < before.len() implies (#[trigger] before[p]).0
                != item.0@ by {
                let i = lemma_contents(rest, entries, p);
                assert(rest[i] == uses[i]);
            }
        }
    }
}

/// Entries that agree on the uses give the same contents.
proof fn lemma_contents_depend(
    uses: Seq<([u8; 24], u64)>,
    a: Map<Seq<u8>, (Seq<u8>, u64)>,
    b: Map<Seq<u8>, (Seq<u8>, u64)>,
)
    requires
        forall|i: int|
            0 <= i < uses.len() ==> counts(a, #[trigger] uses[i]) == counts(b, uses[i]) && (counts(
                a,
                uses[i],
            ) ==> a[uses[i].0@].0 == b[uses[i].0@].0),
    ensures
        contents_of(uses, a) == contents_of(uses, b),
    decreases uses.len(),
{
    if uses.len() > 0 {
        let rest = uses.drop_last();
        assert forall|i: int| 0 <= i < rest.len() implies counts(a, #[trigger] rest[i]) == counts(
            b,
            rest[i],
        ) && (counts(a, rest[i]) ==> a[rest[i].0@].0 == b[rest[i].0@].0) by {
            assert(rest[i] == uses[i]);
        }
        lemma_contents_depend(rest, a, b);
        assert(counts(a, uses[uses.len() - 1]) == counts(b, uses[uses.len() - 1]));
    }
}

/// A new stamp for a key takes it out of what the uses so far give.
proof fn lemma_restamped(
    uses: Seq<([u8; 24], u64)>,
    entries: Map<Seq<u8>, (Seq<u8>, u64)>,
    key: Seq<u8>,
    value: Seq<u8>,
    stamp: u64,
)
    requires
        forall|i: int| 0 <= i < uses.len() ==> (#[trigger] uses[i]).1 != stamp,
    ensures
        contents_of(uses, entries.insert(key, (value, stamp))) == without(
            contents_of(uses, entries),
            key,
        ),
    decreases uses.len(),
{
    reveal(Seq::filter);
    if uses.len() > 0 {
        let item = uses.last();
        let rest = uses.drop_last();
        let before = contents_of(rest, entries);
        assert forall|i: int| 0 <= i < rest.len() implies (#[trigger] rest[i]).1 != stamp by {
            assert(rest[i] == uses[i]);
        }
        lemma_restamped(rest, entries, key, value, stamp);
        if counts(entries, item) {
            assert(before.push((item.0@, entries[item.0@].0)).drop_last() =~= before);
        }
    }
}

/// The oldest use stands first.
proof fn lemma_first_use(
    uses: Seq<([u8; 24], u64)>,
    entries: Map<Seq<u8>, (Seq<u8>, u64)>,
)
    requires
        uses.len() > 0,
    ensures
        contents_of(uses, entries) == (if counts(entries, uses[0]) {
            seq![(uses[0].0@, entries[uses[0].0@].0)]
        } else {
            Seq::empty()
        }) + contents_of(uses.subrange(1, uses.len() as int), entries),
    decreases uses.len(),
{
    let tail = uses.subrange(1, uses.len() as int);
    if uses.len() == 1 {
        assert(uses.drop_last() =~= Seq::empty());
        assert(contents_of(uses.drop_last(), entries) =~= Seq::empty());
        assert(contents_of(tail, entries) =~= Seq::empty());
    } else {
        lemma_first_use(uses.drop_last(), entries);
        assert(uses.drop_last().subrange(1, uses.len() - 1) =~= tail.drop_last());
        assert(tail.last() == uses.last());
    }
    assert(contents_of(uses, entries) =~= (if counts(entries, uses[0]) {
        seq![(uses[0].0@, entries[uses[0].0@].0)]
    } else {
        Seq::empty()
    }) + contents_of(tail, entries));
}

/// Taking out a key that stands at most once.
proof fn lemma_without_len(contents: Seq<(Seq<u8>, Seq<u8>)>, key: Seq<u8>)
    requires
        no_key_twice(contents),
    ensures
        without(contents, key).len() == (if value_in(contents, key) is Some {
            contents.len() - 1
        } else {
            contents.len() as int
        }),
        value_in(contents, key) is None ==> without(contents, key) == contents,
    decreases contents.len(),
{
    reveal(Seq::filter);
    if contents.len() > 0 {
        let rest = contents.drop_last();
        assert(forall|p: int| 0 <= p < rest.len() ==> rest[p] == contents[p]);
        lemma_without_len(rest, key);
        if contents.last().0 == key {
            assert(contents[contents.len() - 1].0 == key);
        }
        if value_in(rest, key) is Some {
            let p = choose|p: int| 0 <= p < rest.len() && (#[trigger] rest[p]).0 == key;
            assert(contents[p].0 == key);
        } else if contents.last().0 != key {
            assert forall|p: int| 0 <= p < contents.len() implies (#[trigger] contents[p]).0
                != key by {
                if p < rest.len() {
                    assert(rest[p].0 != key);
                }
            }
            assert(rest.push(contents.last()) =~= contents);
        }
    }
}

/// Whether a use of `key`, which has the value `value` then, turns `before` into `after`: the pair
/// of the key stands last; all others are there as they were, in the order in which they were.
pub open spec fn moved_last(
    before: Seq<(Seq<u8>, Seq<u8>)>,
    key: Seq<u8>,
    value: Seq<u8>,
    after: Seq<(Seq<u8>, Seq<u8>)>,
) -> bool {
    &&& forall|p: int|
        #![trigger before[p]]
        0 <= p < before.len() && before[p].0 == key ==> after == before.remove(p).push((key, value))
    &&& (forall|p: int| 0 <= p < before.len() ==> (#[trigger] before[p]).0 != key) ==> after
        == before.push((key, value))
}

/// After a use of a key its pair stands last, with the value that it has then. The pair that the
/// key had before is gone from its place; all others stand in the order in which they stood.
pub proof fn law_use_moves_a_pair_last(
    contents: Seq<(Seq<u8>, Seq<u8>)>,
    key: Seq<u8>,
    value: Seq<u8>,
)
    requires
        no_key_twice(contents),
    ensures
        ({
            let after = used(contents, key, value);
            &&& after.last() == (key, value)
            &&& forall|p: int|
                #![trigger contents[p]]
                0 <= p < contents.len() && contents[p].0 == key ==> after == contents.remove(
                    p,
                ).push((key, value))
            &&& (forall|p: int| 0 <= p < contents.len() ==> (#[trigger] contents[p]).0 != key)
                ==> after == contents.push((key, value))
        }),
{
    let after = used(contents, key, value);
    assert forall|p: int|
        #![trigger contents[p]]
        0 <= p < contents.len() && contents[p].0 == key implies after == contents.remove(p).push(
        (key, value),
    ) by {
        lemma_without_at(contents, key, p);
    }
    if forall|p: int| 0 <= p < contents.len() ==> (#[trigger] contents[p]).0 != key {
        lemma_without_len(contents, key);
    }
}

/// Taking out the key that stands at `p`.
proof fn lemma_without_at(contents: Seq<(Seq<u8>, Seq<u8>)>, key: Seq<u8>, p: int)
    requires
        no_key_twice(contents),
        0 <= p < contents.len(),
        contents[p].0 == key,
    ensures
        without(contents, key) == contents.remove(p),
    decreases contents.len(),
{
    reveal(Seq::filter);
    let rest = contents.drop_last();
    assert(forall|q: int| 0 <= q < rest.len() ==> rest[q] == contents[q]);
    if p == contents.len() - 1 {
        lemma_without_len(rest, key);
        assert(value_in(rest, key) is None) by {
            if value_in(rest, key) is Some {
                let q = choose|q: int| 0 <= q < rest.len() && (#[trigger] rest[q]).0 == key;
                assert(contents[q].0 != contents[p].0);
            }
        }
        assert(contents.remove(p) =~= rest);
    } else {
        lemma_without_at(rest, key, p);
        assert(contents[p].0 != contents[contents.len() - 1].0);
        assert(rest.remove(p).push(contents.last()) =~= contents.remove(p));
    }
}

/// A cache of at most `cap` pairs.
pub struct LruCache {
    cap: usize,
    generation: u64,
    entries: KeyMap,
    order: VecDeque<([u8; 24], u64)>,
}

impl LruCache {
    /// How many pairs the cache may hold.
    pub closed spec fn capacity(&self) -> nat {
        self.cap as nat
    }

    /// The list of uses, the oldest first: the key of each, and its stamp. It may list uses that no
    /// longer count, as their keys were used again or are gone.
    pub closed spec fn uses(&self) -> Seq<(Seq<u8>, u64)> {
        self.order@.map_values(|item: ([u8; 24], u64)| (item.0@, item.1))
    }

    /// The pairs that the cache holds, the one that was used last standing last.
    pub closed spec fn contents(&self) -> Seq<(Seq<u8>, Seq<u8>)> {
        contents_of(self.order@, self.entries@)
    }

    /// The entries and the list of uses agree. This is all that holds between a use and the
    /// eviction after it.
    pub closed spec fn consistent(&self) -> bool {
        &&& self.cap < usize::MAX
        &&& self.entries.inv()
        &&& self.entries@.dom().finite()
        &&& self.order@.len() <= usize::MAX
        &&& stamped(self.order@, self.generation)
        &&& covered(self.order@, self.entries@)
        &&& self.contents().len() == self.entries@.dom().len()
    }

    /// The cache is consistent and not over its capacity.
    pub open spec fn inv(&self) -> bool {
        self.consistent() && self.contents().len() <= self.capacity()
    }

    /// An empty cache of at most `cap` pairs.
    pub fn new(cap: usize) -> (cache: Self)
        requires
            cap < usize::MAX,
        ensures
            cache.inv(),
            cache.capacity() == cap,
            cache.contents() == Seq::<(Seq<u8>, Seq<u8>)>::empty(),
            cache.uses() == Seq::<(Seq<u8>, u64)>::empty(),
    {
        let entries = KeyMap::new();
        let _n: usize = entries.len();
        LruCache { cap, generation: 0, entries, order: VecDeque::new() }
    }

    /// What the entries say of a key, the contents say too.
    proof fn lemma_agree(&self, key: Seq<u8>)
        requires
            self.consistent(),
        ensures
            no_key_twice(self.contents()),
            value_in(self.contents(), key) == (if self.entries@.contains_key(key) {
                Some(self.entries@[key].0)
            } else {
                None
            }),
    {
        lemma_stamps_differ(self.order@, self.generation);
        lemma_no_key_twice(self.order@, self.entries@);
        let contents = self.contents();
        if self.entries@.contains_key(key) {
            let i = choose|i: int|
                0 <= i < self.order@.len() && (#[trigger] self.order@[i]).0@ == key
                    && self.order@[i].1 == self.entries@[key].1;
            let p = lemma_counted(self.order@, self.entries@, i);
            assert(contents[p].0 == key);
        }
        if value_in(contents, key) is Some {
            let p = choose|p: int| 0 <= p < contents.len() && (#[trigger] contents[p]).0 == key;
            let i = lemma_contents(self.order@, self.entries@, p);
        }
    }

    /// Looks `key` up, which is a use of it.
    pub fn get(&mut self, key: &[u8; 24]) -> (value: Option<[u8; 24]>)
        requires
            old(self).consistent(),
        ensures
            final(self).consistent(),
            final(self).capacity() == old(self).capacity(),
            final(self).contents().len() == old(self).contents().len(),
            match value {
                Some(v) => {
                    &&& value_in(old(self).contents(), key@) == Some(v@)
                    &&& final(self).contents() == used(old(self).contents(), key@, v@)
                    &&& moved_last(old(self).contents(), key@, v@, final(self).contents())
                },
                None => {
                    &&& value_in(old(self).contents(), key@) is None
                    &&& *final(self) == *old(self)
                },
            },
    {
        proof {
            self.lemma_agree(key@);
            lemma_without_len(self.contents(), key@);
        }
        match self.entries.get(key) {
            Some((value, _)) => {
                self.touch(key, &value);
                Some(value)
            },
            None => None,
        }
    }

    /// Sets the value of `key`, which is a use of it. Where there is no room, the pair that was
    /// used least recently goes.
    pub fn insert(&mut self, key: &[u8; 24], value: &[u8; 24])
        requires
            old(self).consistent(),
            value_in(old(self).contents(), key@) is Some || old(self).contents().len()
                < usize::MAX,
        ensures
            final(self).inv(),
            final(self).capacity() == old(self).capacity(),
            final(self).contents() == most_recent(
                used(old(self).contents(), key@, value@),
                old(self).capacity(),
            ),
            old(self).capacity() > 0 ==> {
                &&& final(self).contents().len() > 0
                &&& final(self).contents().last() == (key@, value@)
            },
    {
        self.touch(key, value);
        self.evict();
    }

    /// Sets the value of `key` under a new stamp, and adds the use to the list; nothing goes.
    pub fn touch(&mut self, key: &[u8; 24], value: &[u8; 24])
        requires
            old(self).consistent(),
            value_in(old(self).contents(), key@) is Some || old(self).contents().len()
                < usize::MAX,
        ensures
            final(self).consistent(),
            final(self).capacity() == old(self).capacity(),
            final(self).contents() == used(old(self).contents(), key@, value@),
            moved_last(old(self).contents(), key@, value@, final(self).contents()),
            final(self).uses().len() == old(self).uses().len() + 1,
            final(self).uses().drop_last() == old(self).uses(),
            final(self).uses().last().0 == key@,
    {
        let ghost uses = self.order@;
        let ghost entries = self.entries@;
        proof {
            self.lemma_agree(key@);
            lemma_stamps_differ(uses, self.generation);
            law_use_moves_a_pair_last(self.contents(), key@, value@);
        }
        self.generation = self.generation.wrapping_add(1);
        assert(self.generation == (old(self).generation + 1) % 0x1_0000_0000_0000_0000);
        self.entries.insert(key, value, self.generation);
        self.order.push_back((*key, self.generation));
        let _uses: usize = self.order.len();
        proof {
            let stamp = self.generation;
            let now = self.order@;
            assert(self.entries@.dom() =~= entries.dom().insert(key@));
            lemma_restamped(uses, entries, key@, value@, stamp);
            assert(now.drop_last() =~= uses);
            assert(self.uses().drop_last() =~= old(self).uses());
            lemma_without_len(old(self).contents(), key@);
            assert forall|i: int| 0 <= i < now.len() implies (#[trigger] now[i]).1 == (stamp - (
            now.len() - 1 - i)) % 0x1_0000_0000_0000_0000 by {
                if i < uses.len() {
                    assert(now[i] == uses[i]);
                }
            }
            assert forall|k: Seq<u8>| #[trigger] self.entries@.contains_key(k) implies exists|
                i: int,
            |
                0 <= i < now.len() && (#[trigger] now[i]).0@ == k && now[i].1
                    == self.entries@[k].1 by {
                if k == key@ {
                    assert(now[now.len() - 1].0@ == k);
                } else {
                    assert(entries.contains_key(k));
                    let i = choose|i: int|
                        0 <= i < uses.len() && (#[trigger] uses[i]).0@ == k && uses[i].1
                            == entries[k].1;
                    assert(now[i] == uses[i]);
                }
            }
        }
    }

    /// Drops pairs until the cache is not over its capacity, the least recently used first. A cache
    /// that is not over its capacity stays as it is, its list of uses too; otherwise uses go from
    /// the list, the oldest first.
    pub fn evict(&mut self)
        requires
            old(self).consistent(),
        ensures
            final(self).inv(),
            final(self).capacity() == old(self).capacity(),
            final(self).contents() == most_recent(old(self).contents(), old(self).capacity()),
            final(self).contents() == old(self).contents().skip(
                old(self).contents().len() - final(self).contents().len(),
            ),
            final(self).contents().len() == vstd::math::min(
                old(self).contents().len() as int,
                old(self).capacity() as int,
            ),
            old(self).contents().len() <= old(self).capacity() ==> *final(self) == *old(self),
            final(self).uses().len() <= old(self).uses().len(),
            final(self).uses() == old(self).uses().skip(
                old(self).uses().len() - final(self).uses().len(),
            ),
    {
        let ghost start = self.contents();
        while self.entries.len() > self.cap
            invariant
                self.consistent(),
                self.cap == old(self).cap,
                old(self).contents().len() <= old(self).capacity() ==> *self == *old(self),
                self.uses().len() <= old(self).uses().len(),
                self.uses() == old(self).uses().skip(old(self).uses().len() - self.uses().len()),
                start == old(self).contents(),
                self.contents().len() <= start.len(),
                self.contents().len() >= vstd::math::min(start.len() as int, self.cap as int),
                self.contents() == start.skip(start.len() - self.contents().len()),
            decreases self.order@.len(),
        {
            let ghost uses = self.order@;
            let ghost entries = self.entries@;
            let ghost contents = self.contents();
            let ghost listed = self.uses();
            proof {
                lemma_stamps_differ(uses, self.generation);
            }
            assert(uses.len() > 0);
            proof {
                lemma_first_use(uses, entries);
            }
            let (key, generation) = match self.order.pop_front() {
                Some(item) => item,
                None => {
                    return;
                },
            };
            let ghost rest = self.order@;
            assert(forall|i: int| 0 <= i < rest.len() ==> rest[i] == uses[i + 1]);
            let current = match self.entries.get(&key) {
                Some((_, current)) => current == generation,
                None => false,
            };
            assert(current == counts(entries, uses[0]));
            if current {
                self.entries.remove(&key);
                proof {
                    assert(self.entries@.dom() =~= entries.dom().remove(key@));
                    lemma_contents_depend(rest, entries, self.entries@);
                }
            }
            proof {
                assert(self.uses() =~= listed.skip(1));
                assert(listed.skip(1) =~= old(self).uses().skip(
                    old(self).uses().len() - listed.len() + 1,
                ));
                assert forall|k: Seq<u8>| #[trigger] self.entries@.contains_key(k) implies exists|
                    i: int,
                |
                    0 <= i < rest.len() && (#[trigger] rest[i]).0@ == k && rest[i].1
                        == self.entries@[k].1 by {
                    assert(entries.contains_key(k));
                    let i = choose|i: int|
                        0 <= i < uses.len() && (#[trigger] uses[i]).0@ == k && uses[i].1
                            == entries[k].1;
                    assert(i > 0);
                    assert(rest[i - 1] == uses[i]);
                }
                assert(self.contents() =~= (if current {
                    contents.skip(1)
                } else {
                    contents
                }));
                assert(start.skip(start.len() - contents.len()).skip(1) =~= start.skip(
                    start.len() - contents.len() + 1,
                ));
            }
        }
    }
}

/// A pair that stands alone with its key is what is found under the key.
proof fn lemma_value_at(contents: Seq<(Seq<u8>, Seq<u8>)>, p: int)
    requires
        no_key_twice(contents),
        0 <= p < contents.len(),
    ensures
        value_in(contents, contents[p].0) == Some(contents[p].1),
{
    let q = choose|q: int|
        0 <= q < contents.len() && (#[trigger] contents[q]).0 == contents[p].0;
}

/// Taking a key out leaves the others as they are.
proof fn lemma_without_value(contents: Seq<(Seq<u8>, Seq<u8>)>, key: Seq<u8>, other: Seq<u8>)
    requires
        no_key_twice(contents),
    ensures
        no_key_twice(without(contents, key)),
        value_in(without(contents, key), other) == (if other == key {
            None
        } else {
            value_in(contents, other)
        }),
    decreases contents.len(),
{
    reveal(Seq::filter);
    if contents.len() > 0 {
        let rest = contents.drop_last();
        let last = contents.last();
        let left = without(rest, key);
        assert(forall|p: int| 0 <= p < rest.len() ==> rest[p] == contents[p]);
        lemma_without_value(rest, key, other);
        lemma_without_value(rest, key, last.0);
        assert(value_in(rest, last.0) is None);
        if last.0 != key {
            assert(without(contents, key) == left.push(last));
            assert forall|p: int| 0 <= p < left.len() implies (#[trigger] left[p]).0 != last.0 by {
                if left[p].0 == last.0 {
                    assert(value_in(left, last.0) is Some);
                }
            }
            lemma_push_value(left, last, other);
        } else {
            assert(without(contents, key) == left);
        }
        assert(rest.push(last) =~= contents);
        lemma_push_value(rest, last, other);
    }
}

/// A pair with a new key is found under it, and the others as before.
proof fn lemma_push_value(
    contents: Seq<(Seq<u8>, Seq<u8>)>,
    pair: (Seq<u8>, Seq<u8>),
    other: Seq<u8>,
)
    requires
        no_key_twice(contents),
        value_in(contents, pair.0) is None,
    ensures
        no_key_twice(contents.push(pair)),
        value_in(contents.push(pair), other) == (if other == pair.0 {
            Some(pair.1)
        } else {
            value_in(contents, other)
        }),
{
    let longer = contents.push(pair);
    assert forall|p: int, q: int| 0 <= p < q < longer.len() implies (#[trigger] longer[p]).0 != (
    #[trigger] longer[q]).0 by {
        assert(longer[p] == contents[p]);
        if q < contents.len() {
            assert(longer[q] == contents[q]);
        } else {
            assert(contents[p].0 != pair.0);
        }
    }
    assert(longer[contents.len() as int] == pair);
    if other == pair.0 {
        lemma_value_at(longer, contents.len() as int);
    } else if value_in(longer, other) is Some {
        let p = choose|p: int| 0 <= p < longer.len() && (#[trigger] longer[p]).0 == other;
        assert(longer[p] == contents[p]);
        lemma_value_at(contents, p);
    } else if value_in(contents, other) is Some {
        let p = choose|p: int| 0 <= p < contents.len() && (#[trigger] contents[p]).0 == other;
        assert(longer[p] == contents[p]);
    }
}

/// A cache never holds more pairs than it may, nor two pairs with one key.
pub proof fn law_cache_is_bounded(cache: &LruCache)
    requires
        cache.inv(),
    ensures
        cache.contents().len() <= cache.capacity(),
        cache.contents().len() <= cache.uses().len(),
        no_key_twice(cache.contents()),
{
    cache.lemma_agree(Seq::empty());
    lemma_contents_len(cache.order@, cache.entries@);
}

proof fn lemma_contents_len(
    uses: Seq<([u8; 24], u64)>,
    entries: Map<Seq<u8>, (Seq<u8>, u64)>,
)
    ensures
        contents_of(uses, entries).len() <= uses.len(),
    decreases uses.len(),
{
    if uses.len() > 0 {
        lemma_contents_len(uses.drop_last(), entries);
    }
}

/// After a pair is inserted into a cache that may hold any, its key has its value; every other key
/// has what it had, but for the one that was used least recently, which goes where the cache is
/// full and the inserted key is new.
pub proof fn law_insert_drops_the_least_recent(
    contents: Seq<(Seq<u8>, Seq<u8>)>,
    cap: nat,
    key: Seq<u8>,
    value: Seq<u8>,
    other: Seq<u8>,
)
    requires
        no_key_twice(contents),
        contents.len() <= cap,
        cap > 0,
    ensures
        ({
            let after = most_recent(used(contents, key, value), cap);
            let full = value_in(contents, key) is None && contents.len() == cap;
            &&& value_in(after, key) == Some(value)
            &&& other != key ==> value_in(after, other) == (if full && other == contents[0].0 {
                None
            } else {
                value_in(contents, other)
            })
        }),
{
    let whole = used(contents, key, value);
    let after = most_recent(whole, cap);
    lemma_without_len(contents, key);
    lemma_without_value(contents, key, key);
    lemma_without_value(contents, key, other);
    lemma_push_value(without(contents, key), (key, value), key);
    lemma_push_value(without(contents, key), (key, value), other);
    if whole.len() > cap {
        assert(after == whole.skip(1));
        assert(whole == contents.push((key, value)));
        assert(whole[0] == contents[0]);
        lemma_skip_first_value(whole, key);
        lemma_skip_first_value(whole, other);
        lemma_value_at(whole, contents.len() as int);
        assert(contents[0].0 != key);
    }
}

/// Without its first pair, contents lack that pair's key and no other.
proof fn lemma_skip_first_value(contents: Seq<(Seq<u8>, Seq<u8>)>, key: Seq<u8>)
    requires
        no_key_twice(contents),
        contents.len() > 0,
    ensures
        value_in(contents.skip(1), key) == (if key == contents[0].0 {
            None
        } else {
            value_in(contents, key)
        }),
{
    let rest = contents.skip(1);
    assert(forall|p: int| 0 <= p < rest.len() ==> #[trigger] rest[p] == contents[p + 1]);
    assert(no_key_twice(rest));
    if value_in(rest, key) is Some {
        let p = choose|p: int| 0 <= p < rest.len() && (#[trigger] rest[p]).0 == key;
        lemma_value_at(rest, p);
        lemma_value_at(contents, p + 1);
    } else if value_in(contents, key) is Some && key != contents[0].0 {
        let p = choose|p: int| 0 <= p < contents.len() && (#[trigger] contents[p]).0 == key;
        assert(rest[p - 1].0 == key);
    }
}

/// Evicting twice is evicting once: what is left of some contents is left as it is.
pub proof fn law_evict_again_changes_nothing(contents: Seq<(Seq<u8>, Seq<u8>)>, cap: nat)
    ensures
        most_recent(contents, cap).len() <= cap,
        most_recent(most_recent(contents, cap), cap) == most_recent(contents, cap),
{
}

/// A use of a key changes the value of none.
pub proof fn law_use_changes_no_value(
    contents: Seq<(Seq<u8>, Seq<u8>)>,
    key: Seq<u8>,
    other: Seq<u8>,
)
    requires
        no_key_twice(contents),
        value_in(contents, key) is Some,
    ensures
        value_in(used(contents, key, value_in(contents, key)->Some_0), other) == value_in(
            contents,
            other,
        ),
        used(contents, key, value_in(contents, key)->Some_0).len() == contents.len(),
{
    let value = value_in(contents, key)->Some_0;
    lemma_without_len(contents, key);
    lemma_without_value(contents, key, key);
    lemma_without_value(contents, key, other);
    lemma_push_value(without(contents, key), (key, value), other);
}

/// What is found under a key: the value of its pair, where that stands, and nothing where none
/// does.
pub proof fn law_value_is_that_of_the_pair(
    contents: Seq<(Seq<u8>, Seq<u8>)>,
    key: Seq<u8>,
    value: Seq<u8>,
)
    requires
        no_key_twice(contents),
    ensures
        value_in(contents, key) == Some(value) <==> contents.contains((key, value)),
        value_in(contents, key) is None <==> (forall|p: int|
            0 <= p < contents.len() ==> (#[trigger] contents[p]).0 != key),
{
    if contents.contains((key, value)) {
        let p = choose|p: int| 0 <= p < contents.len() && contents[p] == (key, value);
        lemma_value_at(contents, p);
    }
    if value_in(contents, key) is Some {
        let p = choose|p: int| 0 <= p < contents.len() && (#[trigger] contents[p]).0 == key;
        assert(contents[p] == (key, value_in(contents, key)->Some_0));
    }
}

/// What is kept of some contents, where at most `n` pairs may be: the last `n`, in their order, and
/// all of them where there are no more.
pub proof fn law_the_last_ones_are_kept(contents: Seq<(Seq<u8>, Seq<u8>)>, n: nat, p: int)
    ensures
        most_recent(contents, n).len() == vstd::math::min(contents.len() as int, n as int),
        0 <= p < most_recent(contents, n).len() ==> most_recent(contents, n)[p]
            == contents[contents.len() - most_recent(contents, n).len() + p],
{
}

/// The contents of a cache of `cap` pairs after uses, one after the other: insertions and hits
/// alike.
pub open spec fn after_uses(
    contents: Seq<(Seq<u8>, Seq<u8>)>,
    cap: nat,
    uses: Seq<(Seq<u8>, Seq<u8>)>,
) -> Seq<(Seq<u8>, Seq<u8>)>
    decreases uses.len(),
{
    if uses.len() == 0 {
        contents
    } else {
        let before = after_uses(contents, cap, uses.drop_last());
        most_recent(used(before, uses.last().0, uses.last().1), cap)
    }
}

/// Where a pair stands after a use of another key: as far from the end as before, or one further.
proof fn lemma_pair_after_use(
    contents: Seq<(Seq<u8>, Seq<u8>)>,
    cap: nat,
    p: int,
    key: Seq<u8>,
    value: Seq<u8>,
) -> (q: int)
    requires
        no_key_twice(contents),
        0 <= p < contents.len() <= cap,
        contents[p].0 != key,
        contents.len() - p < cap,
    ensures
        ({
            let after = most_recent(used(contents, key, value), cap);
            &&& no_key_twice(after)
            &&& 0 <= q < after.len() <= cap
            &&& after[q] == contents[p]
            &&& after.len() - q <= contents.len() - p + 1
        }),
{
    let whole = used(contents, key, value);
    let after = most_recent(whole, cap);
    law_use_moves_a_pair_last(contents, key, value);
    lemma_without_value(contents, key, key);
    lemma_push_value(without(contents, key), (key, value), key);
    let at = if exists|r: int| 0 <= r < contents.len() && (#[trigger] contents[r]).0 == key {
        let r = choose|r: int| 0 <= r < contents.len() && (#[trigger] contents[r]).0 == key;
        assert(whole == contents.remove(r).push((key, value)));
        if p < r {
            p
        } else {
            p - 1
        }
    } else {
        assert(whole == contents.push((key, value)));
        p
    };
    assert(whole[at] == contents[p]);
    let q = at - (whole.len() - after.len());
    assert(forall|i: int|
        0 <= i < after.len() ==> #[trigger] after[i] == whole[i + whole.len() - after.len()]);
    q
}

/// A key that was used stays while fewer than `cap` uses of other keys follow: whatever was not
/// used since goes before it.
pub proof fn law_a_used_key_outlives_those_not_used_since(
    contents: Seq<(Seq<u8>, Seq<u8>)>,
    cap: nat,
    key: Seq<u8>,
    value: Seq<u8>,
    uses: Seq<(Seq<u8>, Seq<u8>)>,
)
    requires
        no_key_twice(contents),
        contents.len() <= cap,
        uses.len() < cap,
        forall|i: int| 0 <= i < uses.len() ==> (#[trigger] uses[i]).0 != key,
    ensures
        value_in(
            after_uses(most_recent(used(contents, key, value), cap), cap, uses),
            key,
        ) == Some(value),
{
    let start = most_recent(used(contents, key, value), cap);
    law_use_moves_a_pair_last(contents, key, value);
    lemma_without_value(contents, key, key);
    lemma_push_value(without(contents, key), (key, value), key);
    assert(start[start.len() - 1] == (key, value));
    let q = lemma_pair_after_uses(start, cap, start.len() - 1, uses);
    lemma_value_at(after_uses(start, cap, uses), q);
}

proof fn lemma_pair_after_uses(
    contents: Seq<(Seq<u8>, Seq<u8>)>,
    cap: nat,
    p: int,
    uses: Seq<(Seq<u8>, Seq<u8>)>,
) -> (q: int)
    requires
        no_key_twice(contents),
        0 <= p < contents.len() <= cap,
        contents.len() - p + uses.len() <= cap,
        forall|i: int| 0 <= i < uses.len() ==> (#[trigger] uses[i]).0 != contents[p].0,
    ensures
        ({
            let after = after_uses(contents, cap, uses);
            &&& no_key_twice(after)
            &&& 0 <= q < after.len() <= cap
            &&& after[q] == contents[p]
            &&& after.len() - q <= contents.len() - p + uses.len()
        }),
    decreases uses.len(),
{
    if uses.len() == 0 {
        p
    } else {
        let rest = uses.drop_last();
        assert forall|i: int| 0 <= i < rest.len() implies (#[trigger] rest[i]).0
            != contents[p].0 by {
            assert(rest[i] == uses[i]);
        }
        let q = lemma_pair_after_uses(contents, cap, p, rest);
        assert(uses[uses.len() - 1].0 != contents[p].0);
        lemma_pair_after_use(
            after_uses(contents, cap, rest),
            cap,
            q,
            uses.last().0,
            uses.last().1,
        )
    }
}

/// An insertion drops no pair that was used after another one: of the pairs of a cache, all but the
/// one that was used least recently are there afterwards, in their order.
pub proof fn law_drops_go_by_use(
    contents: Seq<(Seq<u8>, Seq<u8>)>,
    cap: nat,
    key: Seq<u8>,
    value: Seq<u8>,
    p: int,
    q: int,
)
    requires
        no_key_twice(contents),
        0 < p < q < contents.len() <= cap,
        contents[p].0 != key,
        contents[q].0 != key,
    ensures
        ({
            let after = most_recent(used(contents, key, value), cap);
            exists|i: int, j: int|
                0 <= i < j < after.len() - 1 && #[trigger] after[i] == contents[p]
                    && #[trigger] after[j] == contents[q]
        }),
{
    let whole = used(contents, key, value);
    let after = most_recent(whole, cap);
    law_use_moves_a_pair_last(contents, key, value);
    let i = lemma_pair_after_use(contents, cap, p, key, value);
    let j = lemma_pair_after_use(contents, cap, q, key, value);
    let shift = whole.len() - after.len();
    assert(forall|k: int| 0 <= k < after.len() ==> #[trigger] after[k] == whole[k + shift]);
    if exists|r: int| 0 <= r < contents.len() && (#[trigger] contents[r]).0 == key {
        let r = choose|r: int| 0 <= r < contents.len() && (#[trigger] contents[r]).0 == key;
        assert(whole == contents.remove(r).push((key, value)));
        let back = |k: int|
            if k < r {
                k
            } else {
                k + 1
            };
        assert(whole[i + shift] == contents[back(i + shift)]);
        assert(whole[j + shift] == contents[back(j + shift)]);
    } else {
        assert(whole == contents.push((key, value)));
    }
    assert(contents[p].0 != contents[q].0);
}

} // verus!
