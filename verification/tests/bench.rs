use zerokv::bench::{
    add_count, batch_addrs, batch_sizes, collect_batch, pipelined_orders, random_key, random_keys,
    read_batch_result, BenchRun, CacheRun, CacheStep, Counts, GetResult, BENCH_BUF_LEN,
    CACHE_ENTRIES,
};
use zerokv::client::slot_addrs;
use zerokv::handshake::PeerInfo;
use zerokv::histogram::LatencyHistogram;
use zerokv::keymap::KeyMap;
use zerokv::keys::{make_key, make_val, val_number};
use zerokv::lru::LruCache;
use zerokv::server::TABLE_CAP;
use zerokv::stats::Latencies;
use zerokv::table::write_slot_at;
use zerokv::Table;

fn peer() -> PeerInfo {
    PeerInfo {
        qpn: 1,
        lid: 0,
        gid: [0u8; 16],
        rkey: 70,
        addr: 0x10_0000,
        addr_b: 0,
        len: 0,
        msgbuf_addr: 0,
        msgbuf_rkey: 0,
    }
}

fn value(result: &GetResult) -> Option<u64> {
    match result {
        GetResult::HitA(v) => Some(val_number(v)),
        GetResult::HitB(v) => Some(val_number(v)),
        GetResult::Miss => None,
    }
}

#[test]
fn a_batch_result_names_the_half() {
    let mut memory: Vec<u8> = vec![0u8; BENCH_BUF_LEN];
    assert_eq!(memory.len(), 4096);
    write_slot_at(&mut memory, 3 * 128, &make_key(1), &make_val(10));
    write_slot_at(&mut memory, 3 * 128 + 64, &make_key(2), &make_val(20));
    assert!(matches!(read_batch_result(&memory, 3, &make_key(1)), GetResult::HitA(_)));
    assert!(matches!(read_batch_result(&memory, 3, &make_key(2)), GetResult::HitB(_)));
    assert!(matches!(read_batch_result(&memory, 3, &make_key(3)), GetResult::Miss));
    assert!(matches!(read_batch_result(&memory, 31, &make_key(1)), GetResult::Miss));
}

#[test]
fn a_batch_finds_what_the_table_finds() {
    let mut t = Table::new(TABLE_CAP);
    for n in 0u64..20 {
        assert!(t.insert(&make_key(n), &make_val(n + 100)));
    }
    let table = t.into_mr().to_vec();
    let keys: Vec<[u8; 24]> = (10u64..30).map(make_key).collect();
    let addrs = batch_addrs(&peer(), &keys);
    let mut local: Vec<u8> = vec![0u8; BENCH_BUF_LEN];
    for (i, (a, b)) in addrs.iter().enumerate() {
        assert_eq!((*a, *b), slot_addrs(&peer(), &keys[i]));
        let a: usize = (*a - 0x10_0000) as usize;
        let b: usize = (*b - 0x10_0000) as usize;
        local[i * 128..i * 128 + 64].copy_from_slice(&table[a..a + 64]);
        local[i * 128 + 64..i * 128 + 128].copy_from_slice(&table[b..b + 64]);
    }
    let completions: Vec<u64> = (0u64..20).rev().collect();
    let results = collect_batch(&local, &keys, &completions);
    assert_eq!(results.len(), 20);
    for (i, result) in results.iter().enumerate() {
        let n: u64 = 10 + i as u64;
        let expected = if n < 20 { Some(n + 100) } else { None };
        assert_eq!(value(result), expected);
    }
    let some = collect_batch(&local, &keys, &[2, 2]);
    assert_eq!(value(&some[2]), Some(112));
    assert_eq!(value(&some[0]), None);
}

#[test]
fn a_pipelined_get_posts_two_reads() {
    let key = make_key(4);
    let (a, b) = pipelined_orders(&peer(), &key);
    let (addr_a, addr_b) = slot_addrs(&peer(), &key);
    assert_eq!((a.wr_id, a.local_offset, a.len), (0xA, 0, 64));
    assert_eq!((a.remote_addr, a.remote_rkey), (addr_a, 70));
    assert_eq!((b.wr_id, b.local_offset, b.len), (0xB, 64, 64));
    assert_eq!((b.remote_addr, b.remote_rkey), (addr_b, 70));
}

#[test]
fn results_are_counted() {
    let mut counts = Counts::new();
    add_count(&mut counts, &GetResult::HitA(make_val(1)));
    add_count(&mut counts, &GetResult::HitB(make_val(1)));
    add_count(&mut counts, &GetResult::HitB(make_val(1)));
    add_count(&mut counts, &GetResult::Miss);
    assert_eq!((counts.hit_a, counts.hit_b, counts.miss), (1, 2, 1));
    let mut full = Counts { hit_a: u64::MAX, hit_b: 0, miss: 0 };
    add_count(&mut full, &GetResult::HitB(make_val(1)));
    assert_eq!((full.hit_a, full.hit_b), (u64::MAX, 1));
}

#[test]
fn random_keys_are_in_the_key_space() {
    let mut rng = rand::thread_rng();
    let keys = random_keys(&mut rng, 10, 1000);
    assert_eq!(keys.len(), 1000);
    let mut seen: usize = 0;
    for n in 0u64..10 {
        if keys.contains(&make_key(n)) {
            seen += 1;
        }
    }
    assert_eq!(seen, 10);
    for key in &keys {
        assert_eq!(*key, make_key(val_number(key)));
        assert!(val_number(key) < 10);
    }
    assert_eq!(random_key(&mut rng, 1), make_key(0));
}

#[test]
fn batches_make_every_get() {
    assert_eq!(batch_sizes(), [1, 4, 8, 16, 32]);
    let mut run = BenchRun::new(70);
    let mut sizes: Vec<usize> = Vec::new();
    loop {
        let n: usize = run.next_batch(32);
        if n == 0 {
            break;
        }
        sizes.push(n);
        let mut results: Vec<GetResult> = vec![GetResult::Miss; n];
        results[0] = GetResult::HitA(make_val(1));
        run.record(1_000 * sizes.len() as u64, &results);
    }
    assert_eq!(sizes, vec![32, 32, 6]);
    assert_eq!(run.done, 70);
    assert_eq!((run.counts.hit_a, run.counts.hit_b, run.counts.miss), (3, 0, 67));
    let latencies = run.latencies();
    let counts: Vec<u64> = latencies.iter().map(|(_, n)| *n).collect();
    assert_eq!(counts, vec![32, 32, 6]);
    assert_eq!(latencies[0].0, 1_000);
    assert_eq!(BenchRun::new(0).next_batch(8), 0);
}

#[test]
fn latencies_keep_three_digits() {
    let mut histogram = LatencyHistogram::new();
    assert!(histogram.recorded().is_empty());
    for v in [0u64, 5, 5, 2047, 2048, 2049, 2050, 1_000_000, u64::MAX] {
        histogram.record(v);
    }
    let list = histogram.recorded();
    let counts: Vec<u64> = list.iter().map(|(_, n)| *n).collect();
    assert_eq!(counts, vec![1, 2, 1, 2, 1, 1, 1]);
    let values: Vec<u64> = list.iter().map(|(v, _)| *v).collect();
    assert_eq!(&values[..5], &[0, 5, 2047, 2049, 2051]);
    assert!(values[5] >= 1_000_000 && values[5] < 1_001_000);
    assert!(values[6] >= u64::MAX - (1 << 53));
}

#[test]
fn listed_latencies_have_the_quantiles_of_those_recorded() {
    let mut direct = hdrhistogram::Histogram::<u64>::new(3).unwrap();
    let mut ours = LatencyHistogram::new();
    let mut v: u64 = 1;
    for _ in 0..5_000 {
        v = (v * 6_364_136_223 + 1_442_695) % 3_000_017;
        direct.record(v).unwrap();
        ours.record(v);
    }
    let mut rebuilt = hdrhistogram::Histogram::<u64>::new(3).unwrap();
    for (value, count) in ours.recorded() {
        rebuilt.record_n(value, count).unwrap();
    }
    assert_eq!(rebuilt.len(), 5_000);
    for q in [0.5, 0.99, 0.999, 1.0] {
        assert_eq!(rebuilt.value_at_quantile(q), direct.value_at_quantile(q));
    }
    assert_eq!(rebuilt.max(), direct.max());
}

#[test]
fn a_cached_run_counts_hits_and_misses() {
    assert_eq!(CACHE_ENTRIES, 1_000);
    let remote = peer();
    let mut run = CacheRun::new(4);
    // The first use of a key is never a hit.
    match run.begin(&remote, &make_key(1)) {
        CacheStep::Read(a, b) => {
            let (order_a, order_b) = pipelined_orders(&remote, &make_key(1));
            assert!(a == order_a && b == order_b);
        }
        CacheStep::Served(_) => panic!("served from an empty cache"),
    }
    run.record_read(100, &GetResult::HitB(make_val(10)));
    match run.begin(&remote, &make_key(1)) {
        CacheStep::Served(v) => assert_eq!(v, make_val(10)),
        CacheStep::Read(..) => panic!("not served"),
    }
    assert_eq!((run.cache_hits, run.done), (1, 1));
    run.record_hit(3);
    // What was missed is not cached.
    assert!(matches!(run.begin(&remote, &make_key(2)), CacheStep::Read(..)));
    run.record_read(100, &GetResult::Miss);
    assert!(matches!(run.begin(&remote, &make_key(2)), CacheStep::Read(..)));
    run.record_read(100, &GetResult::HitA(make_val(20)));
    assert_eq!(run.cache.get(&make_key(2)), Some(make_val(20)));
    assert_eq!((run.done, run.cache_hits, run.rdma_misses), (4, 1, 1));
    assert_eq!(run.latencies(), vec![(3, 1), (100, 3)]);
}

#[test]
fn hits_are_at_most_the_gets_less_the_keys() {
    let mut run = CacheRun::new(3_000);
    for n in 0u64..3_000 {
        // Twelve hundred keys in turn, each right after itself now and then.
        let key = make_key((n / 2) % 1_200);
        match run.begin(&peer(), &key) {
            CacheStep::Served(v) => {
                assert_eq!(v, key);
                run.record_hit(1);
            }
            CacheStep::Read(..) => run.record_read(2, &GetResult::HitA(key)),
        }
    }
    assert_eq!(run.done, 3_000);
    assert_eq!(run.cache_hits, 1_500);
    assert!(run.cache_hits <= 3_000 - 1_200);
    assert_eq!(run.latencies(), vec![(1, 1_500), (2, 1_500)]);
}

#[test]
fn a_full_cache_drops_what_was_used_least_recently() {
    let mut cache = LruCache::new(3);
    assert_eq!(cache.get(&make_key(1)), None);
    for n in 1u64..4 {
        cache.insert(&make_key(n), &make_val(n * 10));
    }
    assert_eq!(cache.get(&make_key(1)), Some(make_val(10)));
    cache.insert(&make_key(4), &make_val(40));
    assert_eq!(cache.get(&make_key(2)), None);
    assert_eq!(cache.get(&make_key(3)), Some(make_val(30)));
    assert_eq!(cache.get(&make_key(1)), Some(make_val(10)));
    // A new value for a key that is there drops nothing.
    cache.insert(&make_key(4), &make_val(41));
    assert_eq!(cache.get(&make_key(4)), Some(make_val(41)));
    assert_eq!(cache.get(&make_key(3)), Some(make_val(30)));
    assert_eq!(cache.get(&make_key(1)), Some(make_val(10)));
}

#[test]
fn evicting_goes_by_the_last_use_and_twice_is_once() {
    let mut cache = LruCache::new(2);
    for n in [1u64, 2, 3, 1] {
        cache.touch(&make_key(n), &make_val(n * 10));
    }
    // Three pairs are held until one is evicted: the one that was used least recently.
    assert_eq!(cache.get(&make_key(3)), Some(make_val(30)));
    cache.evict();
    cache.evict();
    assert_eq!(cache.get(&make_key(2)), None);
    assert_eq!(cache.get(&make_key(1)), Some(make_val(10)));
    assert_eq!(cache.get(&make_key(3)), Some(make_val(30)));
}

#[test]
fn a_cache_holds_no_more_than_it_may() {
    let mut cache = LruCache::new(1_000);
    for n in 0u64..5_000 {
        cache.insert(&make_key(n), &make_val(n));
        if n >= 10 {
            // Uses of one key do not crowd out others.
            assert_eq!(cache.get(&make_key(n - 10)), Some(make_val(n - 10)));
        }
    }
    let mut held: usize = 0;
    for n in 0u64..5_000 {
        if cache.get(&make_key(n)).is_some() {
            held += 1;
        }
    }
    assert_eq!(held, 1_000);
    let mut none = LruCache::new(0);
    none.insert(&make_key(1), &make_val(1));
    assert_eq!(none.get(&make_key(1)), None);
}

#[test]
fn a_key_map_maps_keys() {
    let mut map = KeyMap::new();
    assert_eq!(map.len(), 0);
    for n in 0u64..100 {
        map.insert(&make_key(n), &make_val(n), n);
    }
    map.insert(&make_key(7), &make_val(70), 7_000);
    assert_eq!(map.len(), 100);
    assert_eq!(map.get(&make_key(7)), Some((make_val(70), 7_000)));
    map.remove(&make_key(7));
    map.remove(&make_key(7));
    map.remove(&make_key(1_000));
    assert_eq!(map.len(), 99);
    assert_eq!(map.get(&make_key(7)), None);
    assert_eq!(map.get(&make_key(8)), Some((make_val(8), 8)));
}

#[test]
fn latencies_are_ranked() {
    assert!(Latencies::new(&[]).is_none());
    let l = Latencies::new(&[30, 10, 20, 20]).unwrap();
    assert_eq!(l.sorted, vec![10, 20, 20, 30]);
    assert_eq!(l.count(), 4);
    assert_eq!(l.at_rank(0), 10);
    assert_eq!(l.at_rank(2), 20);
    assert_eq!(l.at_rank(3), 30);
    assert_eq!(l.at_rank(400), 30);
    assert_eq!(l.max(), 30);
}
