//! A map from 24-byte keys: entries stand in buckets, and a bucket is found by the hash of the key.

use std::collections::HashMap;

use vstd::prelude::*;
use xxhash_rust::xxh3::xxh3_64;

use crate::hash;
use crate::region::same_block;

verus! {

/// A key with its value and the stamp of its last use.
pub struct Entry {
    pub key: [u8; 24],
    pub value: [u8; 24],
    pub stamp: u64,
}

/// A map from keys to values and stamps.
pub struct KeyMap {
    buckets: HashMap<u64, Vec<Entry>>,
    len: usize,
}

/// Whether entry `i` of a bucket is that of `key`.
spec fn is_at(bucket: Seq<Entry>, i: int, key: Seq<u8>) -> bool {
    0 <= i < bucket.len() && bucket[i].key@ == key
}

/// Where the entry of `key` stands in a bucket.
spec fn place(bucket: Seq<Entry>, key: Seq<u8>) -> int {
    choose|i: int| is_at(bucket, i, key)
}

/// Whether a bucket has an entry of `key`.
spec fn bucket_holds(bucket: Seq<Entry>, key: Seq<u8>) -> bool {
    exists|i: int| is_at(bucket, i, key)
}

/// The entries of a bucket have the hash `h`, and no key has two.
spec fn bucket_ok(bucket: Seq<Entry>, h: u64) -> bool {
    &&& forall|i: int| 0 <= i < bucket.len() ==> hash::xxh3((#[trigger] bucket[i]).key@) == h
    &&& forall|i: int, j: int|
        0 <= i < j < bucket.len() ==> (#[trigger] bucket[i]).key@ != (#[trigger] bucket[j]).key@
}

/// Whether some buckets hold `key`.
spec fn buckets_hold(buckets: Map<u64, Vec<Entry>>, key: Seq<u8>) -> bool {
    buckets.contains_key(hash::xxh3(key)) && bucket_holds(buckets[hash::xxh3(key)]@, key)
}

/// The entry of `key` in some buckets.
spec fn entry_in(buckets: Map<u64, Vec<Entry>>, key: Seq<u8>) -> (Seq<u8>, u64) {
    let bucket = buckets[hash::xxh3(key)]@;
    let entry = bucket[place(bucket, key)];
    (entry.value@, entry.stamp)
}

spec fn map_of(buckets: Map<u64, Vec<Entry>>) -> Map<Seq<u8>, (Seq<u8>, u64)> {
    Map::new(|key: Seq<u8>| buckets_hold(buckets, key), |key: Seq<u8>| entry_in(buckets, key))
}

/// The entry of a key is where it is found.
proof fn lemma_place(bucket: Seq<Entry>, h: u64, i: int)
    requires
        bucket_ok(bucket, h),
        0 <= i < bucket.len(),
    ensures
        bucket_holds(bucket, bucket[i].key@),
        place(bucket, bucket[i].key@) == i,
{
    assert(is_at(bucket, i, bucket[i].key@));
    let p = place(bucket, bucket[i].key@);
    assert(is_at(bucket, p, bucket[i].key@));
    if p != i {
        assert(bucket[p].key@ == bucket[i].key@);
    }
}

impl View for KeyMap {
    type V = Map<Seq<u8>, (Seq<u8>, u64)>;

    closed spec fn view(&self) -> Map<Seq<u8>, (Seq<u8>, u64)> {
        map_of(self.buckets@)
    }
}

impl KeyMap {
    /// Every entry stands in the bucket of its key's hash, none stands twice, and they are
    /// counted.
    pub closed spec fn inv(&self) -> bool {
        &&& forall|h: u64|
            #![trigger self.buckets@[h]]
            self.buckets@.contains_key(h) ==> bucket_ok(self.buckets@[h]@, h)
        &&& self@.dom().finite()
        &&& self@.dom().len() == self.len
    }

    /// An empty map.
    pub fn new() -> (map: Self)
        ensures
            map.inv(),
            map@ == Map::<Seq<u8>, (Seq<u8>, u64)>::empty(),
    {
        let map = KeyMap { buckets: HashMap::new(), len: 0 };
        assert(map@ =~= Map::<Seq<u8>, (Seq<u8>, u64)>::empty());
        map
    }

    /// How many keys there are.
    pub fn len(&self) -> (n: usize)
        requires
            self.inv(),
        ensures
            self@.dom().finite(),
            n == self@.dom().len(),
    {
        self.len
    }

    /// The place of `key` in a bucket, or its length.
    fn find(bucket: &Vec<Entry>, key: &[u8; 24]) -> (i: usize)
        ensures
            i <= bucket@.len(),
            i < bucket@.len() ==> bucket@[i as int].key@ == key@,
            i == bucket@.len() ==> !bucket_holds(bucket@, key@),
    {
        let mut i: usize = 0;
        while i < bucket.len()
            invariant
                i <= bucket@.len(),
                forall|j: int| 0 <= j < i ==> (#[trigger] bucket@[j]).key@ != key@,
            decreases bucket@.len() - i,
        {
            if same_block(&bucket[i].key, key) {
                return i;
            }
            i += 1;
        }
        i
    }

    /// The value and the stamp of `key`.
    pub fn get(&self, key: &[u8; 24]) -> (found: Option<([u8; 24], u64)>)
        requires
            self.inv(),
        ensures
            match found {
                Some((value, stamp)) => self@.contains_pair(key@, (value@, stamp)),
                None => !self@.contains_key(key@),
            },
    {
        broadcast use vstd::std_specs::hash::group_hash_axioms;

        let h: u64 = xxh3_64(key);
        match self.buckets.get(&h) {
            Some(bucket) => {
                let i: usize = KeyMap::find(bucket, key);
                if i < bucket.len() {
                    assert(self.buckets@[h] == *bucket);
                    proof {
                        lemma_place(bucket@, h, i as int);
                    }
                    Some((bucket[i].value, bucket[i].stamp))
                } else {
                    None
                }
            },
            None => None,
        }
    }

    /// Sets the value and the stamp of `key`.
    pub fn insert(&mut self, key: &[u8; 24], value: &[u8; 24], stamp: u64)
        requires
            old(self).inv(),
            old(self)@.contains_key(key@) || old(self)@.dom().len() < usize::MAX,
        ensures
            final(self).inv(),
            final(self)@ == old(self)@.insert(key@, (value@, stamp)),
    {
        broadcast use vstd::std_specs::hash::group_hash_axioms;

        let ghost before = self.buckets@;
        let h: u64 = xxh3_64(key);
        let mut bucket: Vec<Entry> = match self.buckets.remove(&h) {
            Some(bucket) => bucket,
            None => Vec::new(),
        };
        let ghost was = bucket@;
        assert(before.contains_key(h) ==> before[h]@ == was);
        assert(bucket_ok(was, h));
        assert(buckets_hold(before, key@) == bucket_holds(was, key@));
        let i: usize = KeyMap::find(&bucket, key);
        let entry = Entry { key: *key, value: *value, stamp };
        if i < bucket.len() {
            proof {
                lemma_place(was, h, i as int);
            }
            bucket[i] = entry;
        } else {
            assert forall|j: int| 0 <= j < was.len() implies (#[trigger] was[j]).key@ != key@ by {
                if was[j].key@ == key@ {
                    assert(is_at(was, j, key@));
                }
            }
            bucket.push(entry);
            self.len += 1;
        }
        let ghost now = bucket@;
        assert(bucket_ok(now, h));
        self.buckets.insert(h, bucket);
        proof {
            assert(self.buckets@.dom() =~= before.dom().insert(h));
            lemma_bucket_changed(before, self.buckets@, h, was, now, i as int);
        }
    }

    /// Takes `key` out.
    pub fn remove(&mut self, key: &[u8; 24])
        requires
            old(self).inv(),
        ensures
            final(self).inv(),
            final(self)@ == old(self)@.remove(key@),
    {
        broadcast use vstd::std_specs::hash::group_hash_axioms;

        let ghost before = self.buckets@;
        let h: u64 = xxh3_64(key);
        let mut bucket: Vec<Entry> = match self.buckets.remove(&h) {
            Some(bucket) => bucket,
            None => {
                assert(self.buckets@ =~= before);
                assert(self@ =~= old(self)@.remove(key@));
                return;
            },
        };
        let ghost was = bucket@;
        assert(before[h]@ == was);
        let i: usize = KeyMap::find(&bucket, key);
        if i < bucket.len() {
            proof {
                lemma_place(was, h, i as int);
            }
            let _gone = bucket.remove(i);
            assert(self.len > 0) by {
                assert(old(self)@.dom().contains(key@));
            }
            self.len -= 1;
        }
        let ghost now = bucket@;
        assert(bucket_ok(now, h));
        if bucket.len() > 0 {
            self.buckets.insert(h, bucket);
        }
        proof {
            lemma_bucket_shrunk(before, self.buckets@, h, was, now, i as int, key@);
        }
    }
}

/// Setting entry `i` of a bucket, or adding one behind the last, sets that entry's key.
proof fn lemma_bucket_changed(
    before: Map<u64, Vec<Entry>>,
    after: Map<u64, Vec<Entry>>,
    h: u64,
    was: Seq<Entry>,
    now: Seq<Entry>,
    i: int,
)
    requires
        before.contains_key(h) ==> before[h]@ == was,
        !before.contains_key(h) ==> was.len() == 0,
        after.dom() == before.dom().insert(h),
        after[h]@ == now,
        forall|g: u64|
            #![trigger after[g]]
            g != h && before.contains_key(g) ==> after[g] == before[g],
        0 <= i <= was.len(),
        bucket_ok(was, h),
        bucket_ok(now, h),
        i < was.len() ==> now == was.update(i, now[i]) && now[i].key@ == was[i].key@,
        i == was.len() ==> now == was.push(now[i]),
    ensures
        map_of(after) == map_of(before).insert(now[i].key@, (now[i].value@, now[i].stamp)),
{
    let key = now[i].key@;
    let wanted = map_of(before).insert(key, (now[i].value@, now[i].stamp));
    lemma_place(now, h, i);
    assert forall|k: Seq<u8>|
        #![trigger map_of(after).dom().contains(k)]
        #![trigger map_of(after)[k]]
        map_of(after).dom().contains(k) == wanted.dom().contains(k) && (wanted.dom().contains(k)
            ==> map_of(after)[k] == wanted[k]) by {
        if hash::xxh3(k) == h {
            if bucket_holds(was, k) && k != key {
                let p = place(was, k);
                assert(is_at(was, p, k));
                assert(is_at(now, p, k));
                assert(now[p] == was[p]);
                lemma_place(now, h, p);
            }
            if bucket_holds(now, k) && k != key {
                let p = place(now, k);
                assert(is_at(now, p, k));
                assert(was[p] == now[p]);
                assert(is_at(was, p, k));
            }
        } else {
            assert(after.contains_key(hash::xxh3(k)) == before.contains_key(hash::xxh3(k)));
            if before.contains_key(hash::xxh3(k)) {
                assert(after[hash::xxh3(k)] == before[hash::xxh3(k)]);
            }
        }
    }
    assert(map_of(after) =~= wanted);
}

/// Taking entry `i` out of a bucket, where there is one, takes its key out.
proof fn lemma_bucket_shrunk(
    before: Map<u64, Vec<Entry>>,
    after: Map<u64, Vec<Entry>>,
    h: u64,
    was: Seq<Entry>,
    now: Seq<Entry>,
    i: int,
    key: Seq<u8>,
)
    requires
        before.contains_key(h),
        before[h]@ == was,
        hash::xxh3(key) == h,
        after.contains_key(h) ==> after[h]@ == now,
        !after.contains_key(h) ==> now.len() == 0,
        forall|g: u64|
            #![trigger after[g]]
            g != h ==> after.contains_key(g) == before.contains_key(g) && after[g] == before[g],
        0 <= i <= was.len(),
        bucket_ok(was, h),
        bucket_ok(now, h),
        i < was.len() ==> now == was.remove(i) && was[i].key@ == key,
        i == was.len() ==> now == was && !bucket_holds(was, key),
    ensures
        map_of(after) == map_of(before).remove(key),
{
    let wanted = map_of(before).remove(key);
    assert forall|k: Seq<u8>|
        #![trigger map_of(after).dom().contains(k)]
        #![trigger map_of(after)[k]]
        map_of(after).dom().contains(k) == wanted.dom().contains(k) && (wanted.dom().contains(k)
            ==> map_of(after)[k] == wanted[k]) by {
        if hash::xxh3(k) == h {
            if bucket_holds(was, k) && k != key {
                let p = place(was, k);
                assert(is_at(was, p, k));
                let q = if p < i {
                    p
                } else if i < was.len() {
                    p - 1
                } else {
                    p
                };
                assert(now[q] == was[p]);
                lemma_place(now, h, q);
            }
            if bucket_holds(now, k) {
                let q = place(now, k);
                assert(is_at(now, q, k));
                let p = if q < i {
                    q
                } else if i < was.len() {
                    q + 1
                } else {
                    q
                };
                assert(was[p] == now[q]);
                assert(is_at(was, p, k));
                if i < was.len() && k == key {
                    assert(was[p].key@ == was[i].key@);
                }
            }
        } else {
            assert(after[hash::xxh3(k)] == before[hash::xxh3(k)]);
        }
    }
    assert(map_of(after) =~= wanted);
}

} // verus!
