use zerokv::cuckoo::MAX_DISPLACEMENTS;
use zerokv::hash::{slot_index, H2_SEED};
use zerokv::keys::{make_key, make_val, val_number};
use zerokv::look::Look;
use zerokv::region::{Line, Lines, Region};
use zerokv::server::{load_baseline, BASELINE_KEYS, TABLE_BYTES, TABLE_CAP};
use zerokv::table::{
    attempt_slot, begin_write, fill_slot, look_at_slot, publish_hi, publish_lo, read_slot_at,
    write_slot_at, SLOT_BYTES,
};
use zerokv::{h1, h2, read_slot, write_slot, Slot, Table};

#[test]
fn insert_and_read_50k() {
    let mut t = Table::new(1 << 17); // 131 072 slots per half
    for i in 0u64..50_000 {
        assert!(t.insert(&make_key(i), &make_val(i)), "insert failed at {i}");
    }
    for i in 0u64..50_000 {
        let v = t.get(&make_key(i)).expect("key missing");
        assert_eq!(&v[..8], &i.to_le_bytes(), "value wrong at {i}");
    }
}

#[test]
fn slot_size() {
    assert_eq!(std::mem::size_of::<Slot>(), 64);
}

#[test]
fn seqlock_single_threaded() {
    let mut slot = Slot::zeroed();
    let k = make_key(42);
    let v = make_val(99);
    write_slot(&mut slot, &k, &v);
    let (rk, rv) = read_slot(&slot).unwrap();
    assert_eq!(rk, k);
    assert_eq!(rv, v);
}

#[test]
fn from_mr_roundtrip() {
    let cap: usize = 1usize << 10; // 1024 slots per half
    let size: usize = cap * 2 * std::mem::size_of::<Slot>();
    let mut buf: Vec<u8> = vec![0u8; size];

    let mut t = Table::from_mr(&mut buf[..], cap);
    for i in 0u64..500 {
        assert!(t.insert(&make_key(i), &make_val(i * 10)), "insert failed at {i}");
    }
    for i in 0u64..500 {
        let v = t.get(&make_key(i)).expect("key missing in from_mr table");
        assert_eq!(u64::from_le_bytes(v[..8].try_into().unwrap()), i * 10);
    }

    // What the table wrote stays in the buffer.
    drop(t);
    let t = Table::from_mr(&mut buf[..], cap);
    assert_eq!(t.get(&make_key(499)), Some(make_val(4990)));
    assert_eq!(t.get(&make_key(500)), None);
}

#[test]
fn zeroed_memory_is_an_empty_table() {
    let t = Table::new(8);
    assert_eq!(t.slots_a_ptr(), 0);
    assert_eq!(t.slots_b_ptr(), 512);
    for i in 0u64..100 {
        assert_eq!(t.get(&make_key(i)), None);
    }
    let mem = t.into_mr();
    assert_eq!((mem.size(), mem.address()), (1024, 0));
    assert_eq!(mem.to_vec(), vec![0u8; 1024]);
}

#[test]
fn hashes_are_xxh3() {
    let key = make_key(1);
    assert_eq!(h1(&key), xxhash_rust::xxh3::xxh3_64(&key) as usize);
    assert_eq!(h2(&key), xxhash_rust::xxh3::xxh3_64_with_seed(&key, 0xC0FFEE_DEADBEEF) as usize);
    assert_eq!(H2_SEED, 0xC0FFEE_DEADBEEF);
    assert_ne!(h1(&key), h2(&key));
    assert_eq!(slot_index(0x1_2345, 0x100), 0x45);
}

#[test]
fn a_pair_stands_in_its_slot_byte_by_byte() {
    let key = make_key(0x0102_0304);
    let val = make_val(0x0A0B);
    let mut t = Table::new(4);
    assert!(t.insert(&key, &val));
    let at: usize = (h1(&key) % 4) * SLOT_BYTES;
    let mem = t.into_mr().to_vec();
    assert_eq!(&mem[at..at + 8], &[2, 0, 0, 0, 2, 0, 0, 0]);
    assert_eq!(&mem[at + 8..at + 12], &[4, 3, 2, 1]);
    assert_eq!(&mem[at + 32..at + 34], &[0x0B, 0x0A]);
    assert_eq!(&mem[at + 56..at + 64], &[0u8; 8]);
}

#[test]
fn update_keeps_the_slot_and_moves_its_version_on() {
    let key = make_key(7);
    let mut t = Table::new(16);
    assert!(t.insert(&key, &make_val(1)));
    assert!(t.insert(&key, &make_val(2)));
    assert_eq!(t.get(&key), Some(make_val(2)));
    let at: usize = (h1(&key) % 16) * SLOT_BYTES;
    let mem = t.into_mr();
    assert_eq!(mem.load_u32(at), 4);
    assert_eq!(mem.load_u32(at + 4), 4);
    // The key stands nowhere else.
    let mut taken: usize = 0;
    for i in 0..32usize {
        if Slot::load(&mem, i * SLOT_BYTES).is_occupied() {
            taken += 1;
        }
    }
    assert_eq!(taken, 1);
}

#[test]
fn insertion_leaves_other_keys_alone() {
    let mut t = Table::new(64);
    let mut placed: u64 = 0;
    while placed < 60 {
        assert!(t.insert(&make_key(placed), &make_val(placed + 1000)));
        placed += 1;
        for j in 0..placed {
            assert_eq!(t.get(&make_key(j)), Some(make_val(j + 1000)));
        }
    }
}

#[test]
fn a_full_table_refuses_and_loses_exactly_one_pair() {
    assert_eq!(MAX_DISPLACEMENTS, 512);
    let mut t = Table::new(1);
    assert!(t.insert(&make_key(1), &make_val(10)));
    assert!(t.insert(&make_key(2), &make_val(20)));
    assert!(!t.insert(&make_key(3), &make_val(30)));
    let mut found: usize = 0;
    for i in 1u64..4 {
        match t.get(&make_key(i)) {
            Some(v) => {
                assert_eq!(val_number(&v), i * 10);
                found += 1;
            }
            None => {}
        }
    }
    assert_eq!(found, 2);
    // A key that is there can still be written over.
    for i in 1u64..4 {
        if t.get(&make_key(i)).is_some() {
            assert!(t.insert(&make_key(i), &make_val(i * 100)));
            assert_eq!(t.get(&make_key(i)), Some(make_val(i * 100)));
        }
    }
}

#[test]
fn lines_are_memory_aligned_to_cache_lines() {
    assert_eq!(std::mem::size_of::<Line>(), 128);
    assert_eq!(std::mem::align_of::<Line>(), 128);
    let mut lines = Lines::zeroed(3);
    let mut bytes: Vec<u8> = vec![0u8; 384];
    assert_eq!(lines.size(), 384);
    lines.store(127, 5);
    bytes.store(127, 5);
    lines.store(383, 6);
    bytes.store(383, 6);
    lines.store_u32(126, 0x0403_0201);
    bytes.store_u32(126, 0x0403_0201);
    assert_eq!(lines.to_vec(), bytes);
    assert_eq!(&bytes[126..130], &[1, 2, 3, 4]);
    assert_eq!((lines.load_u32(126), lines.load(383)), (0x0403_0201, 6));
}

#[test]
fn displacement_steps() {
    let mut t = Table::new(2);
    let key = make_key(5);
    assert_eq!(t.place_at(3, &key, &make_val(50)), None);
    let moved = t.place_at(3, &make_key(6), &make_val(60));
    assert_eq!(moved, Some((key, make_val(50))));
    assert!(!t.update_at(0, 1, &key, &make_val(51)));
    assert!(t.update_at(0, 1, &make_key(6), &make_val(61)));
    assert_eq!(t.get_at(0, 1, &make_key(6)), Some(make_val(61)));
    assert_eq!(t.get_at(0, 0, &make_key(6)), None);
}

#[test]
fn a_write_is_seen_whole_or_not_at_all() {
    let mut mem: Vec<u8> = vec![0u8; 64];
    write_slot_at(&mut mem, 0, &make_key(1), &make_val(10));
    assert_eq!(read_slot_at(&mem, 0), Some((make_key(1), make_val(10))));

    let even: u32 = begin_write(&mut mem, 0);
    assert_eq!(even, 4);
    assert_eq!(mem.load_u32(0), 3);
    assert_eq!(read_slot_at(&mem, 0), None);
    mem.store(9, 0x77);
    assert_eq!(read_slot_at(&mem, 0), None);
    fill_slot(&mut mem, 0, &make_key(2), &make_val(20));
    assert_eq!(read_slot_at(&mem, 0), None);
    publish_lo(&mut mem, 0, even);
    assert_eq!(read_slot_at(&mem, 0), None);
    publish_hi(&mut mem, 0, even);
    assert_eq!(read_slot_at(&mem, 0), Some((make_key(2), make_val(20))));
    let mut look = Look::new(&mem);
    assert_eq!(attempt_slot(&mut look, 0), Some((make_key(2), make_val(20))));
    assert_eq!(look_at_slot(&mut look, 0), Some((make_key(2), make_val(20))));
}

#[test]
fn slots_that_show_no_pair() {
    let mut slot = Slot::zeroed();
    assert!(!slot.is_occupied());
    assert!(read_slot(&slot).is_none());
    assert!(slot.is_at_rest());
    assert_eq!(slot._pad, [0u8; 8]);
    slot.ver_lo = 3;
    slot.ver_hi = 3;
    assert!(!slot.is_at_rest());
    assert!(!slot.is_occupied());
    assert!(read_slot(&slot).is_none());
    slot.ver_lo = 4;
    slot.ver_hi = 2;
    assert!(!slot.is_at_rest());
    assert!(slot.is_occupied());
    assert!(read_slot(&slot).is_none());
}

#[test]
fn the_version_runs_over_to_zero() {
    let mut slot = Slot::zeroed();
    slot.ver_lo = 0xFFFF_FFFC;
    slot.ver_hi = 0xFFFF_FFFC;
    write_slot(&mut slot, &make_key(1), &make_val(1));
    assert_eq!(slot.ver_lo, 0xFFFF_FFFE);
    assert!(read_slot(&slot).is_some());
    write_slot(&mut slot, &make_key(1), &make_val(2));
    assert_eq!(slot.ver_lo, 0);
    assert!(read_slot(&slot).is_none());
    // A write that was left half done is taken up at the next even version.
    slot.ver_lo = 7;
    slot._pad = [5u8; 8];
    write_slot(&mut slot, &make_key(1), &make_val(3));
    assert_eq!(slot.ver_lo, 8);
    assert_eq!(slot.ver_hi, 8);
    assert_eq!(slot._pad, [5u8; 8]);
}

#[test]
fn numbers_stand_in_blocks() {
    let block = make_key(0x1122_3344_5566_7788);
    assert_eq!(&block[..8], &0x1122_3344_5566_7788u64.to_le_bytes());
    assert_eq!(&block[8..], &[0u8; 16]);
    for n in [0u64, 1, 255, 256, 99_999, u64::MAX] {
        assert_eq!(val_number(&make_val(n)), n);
    }
}

#[test]
fn the_baseline_is_served() {
    assert_eq!(TABLE_BYTES, 16_777_216);
    let mut t = Table::new(TABLE_CAP);
    assert!(t.insert(&make_key(1 << 40), &make_val(5)));
    assert_eq!(load_baseline(&mut t, BASELINE_KEYS), Ok(()));
    for i in 0..BASELINE_KEYS {
        assert_eq!(t.get(&make_key(i)), Some(make_val(i * 2 + 1)));
    }
    assert_eq!(t.get(&make_key(BASELINE_KEYS)), None);
    assert_eq!(t.get(&make_key(1 << 40)), Some(make_val(5)));
}

#[test]
fn a_baseline_that_does_not_fit_stops_at_the_first_pair_without_a_slot() {
    let mut t = Table::new(1);
    assert_eq!(load_baseline(&mut t, 10), Err(2));
    let mut u = Table::new(1);
    assert_eq!(load_baseline(&mut u, 2), Ok(()));
    assert_eq!(load_baseline(&mut u, 0), Ok(()));
}

#[test]
fn a_reader_beside_a_writer() {
    // The slot holds (1, 10) under version 2, and (2, 20) is being written.
    let parts = |lo: u32, key: u64, value: u64, hi: u32| {
        let mut slot = Slot::zeroed();
        slot.ver_lo = lo;
        slot.key = make_key(key);
        slot.value = make_val(value);
        slot.ver_hi = hi;
        read_slot(&slot).map(|(k, v)| (val_number(&k), val_number(&v)))
    };
    // All of it before the copy; or the high version after the write.
    assert_eq!(parts(2, 1, 10, 2), Some((1, 10)));
    assert_eq!(parts(2, 1, 10, 4), None);
    // The low version once the write has begun, or is published.
    assert_eq!(parts(3, 2, 10, 2), None);
    assert_eq!(parts(4, 2, 20, 2), None);
    assert_eq!(parts(4, 2, 20, 4), Some((2, 20)));
    // The low version before, part of the pair during, the high version after the write.
    assert_eq!(parts(2, 2, 10, 4), None);
    // The low version before, part of the pair during, the high version before the end.
    assert_eq!(parts(2, 2, 10, 2), Some((2, 10)));
}
