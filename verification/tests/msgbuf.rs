use zerokv::keys::{make_key, make_val};
use zerokv::look::Look;
use zerokv::msgbuf::{core_for_hash, look_at_message, slot_offset, PUT_MAGIC};
use zerokv::server::PutLoader;
use zerokv::{
    build_put_payload, core_for_key, MsgBuf, MsgSlot, Table, MSGBUF_BYTES, MSG_BYTES, NUM_CORES,
    SLOTS_PER_CORE,
};

#[test]
fn slot_layout() {
    assert_eq!(std::mem::size_of::<MsgSlot>(), 128);
    assert_eq!(std::mem::align_of::<MsgSlot>(), 128);
}

#[test]
fn poll_core_basic() {
    let mut mb = MsgBuf::new_owned();

    // Manually write a PUT into core 2, slot 5.
    let mut slot = MsgSlot::zeroed();
    slot.key = {
        let mut k = [0u8; 24];
        k[..8].copy_from_slice(&42u64.to_le_bytes());
        k
    };
    slot.value = {
        let mut v = [0u8; 24];
        v[..8].copy_from_slice(&99u64.to_le_bytes());
        v
    };
    slot.magic = 0xFF;
    mb.deposit(2, 5, &slot);

    let mut got: Vec<([u8; 24], [u8; 24])> = Vec::new();
    let processed: usize = mb.poll_core(2, &mut got);

    assert_eq!(processed, 1);
    assert_eq!(got.len(), 1);
    let (k, v) = got[0];
    assert_eq!(u64::from_le_bytes(k[..8].try_into().unwrap()), 42);
    assert_eq!(u64::from_le_bytes(v[..8].try_into().unwrap()), 99);

    // Slot must be cleared after poll.
    assert_eq!(mb.slot(2, 5).magic, 0, "magic not cleared after poll");
}

#[test]
fn build_put_payload_layout() {
    let key = {
        let mut k = [0u8; 24];
        k[..8].copy_from_slice(&7u64.to_le_bytes());
        k
    };
    let val = {
        let mut v = [0u8; 24];
        v[..8].copy_from_slice(&13u64.to_le_bytes());
        v
    };
    let p = build_put_payload(&key, &val);
    assert_eq!(p[0], 0xFF, "magic byte");
    assert_eq!(&p[8..32], &key, "key region");
    assert_eq!(&p[32..56], &val, "value region");
    assert_eq!(&p[56..], &[0u8; 72][..], "tail must be zero");
}

#[test]
fn core_for_key_in_range() {
    for i in 0u64..1024 {
        let mut k = [0u8; 24];
        k[..8].copy_from_slice(&i.to_le_bytes());
        assert!(core_for_key(&k) < NUM_CORES);
    }
}

#[test]
fn slot_offset_no_overlap() {
    // Adjacent slots must be MSG_BYTES apart.
    let off0: usize = MsgBuf::slot_offset(0, 0);
    let off1: usize = MsgBuf::slot_offset(0, 1);
    assert_eq!(off1 - off0, MSG_BYTES);

    // First slot of core 1 must immediately follow last slot of core 0.
    let last0: usize = MsgBuf::slot_offset(0, SLOTS_PER_CORE - 1);
    let first1: usize = MsgBuf::slot_offset(1, 0);
    assert_eq!(first1 - last0, MSG_BYTES);
}

#[test]
fn slots_tile_the_buffer() {
    assert_eq!(MSGBUF_BYTES, 65_536);
    let mut expected: usize = 0;
    for core in 0..NUM_CORES {
        for slot in 0..SLOTS_PER_CORE {
            assert_eq!(slot_offset(core, slot), expected);
            expected += 128;
        }
    }
    assert_eq!(expected, MSGBUF_BYTES);
}

#[test]
fn the_core_goes_by_the_hash() {
    assert_eq!(core_for_hash(0), 0);
    assert_eq!(core_for_hash(7), 0);
    assert_eq!(core_for_hash(8), 1);
    assert_eq!(core_for_hash(0x3F), 7);
    assert_eq!(core_for_hash(0x40), 0);
    let key = make_key(3);
    assert_eq!(core_for_key(&key), (xxhash_rust::xxh3::xxh3_64(&key) as usize >> 3) % 8);
}

#[test]
fn a_sweep_takes_what_waits_in_slot_order_and_leaves_other_cores_alone() {
    let mut memory: Vec<u8> = vec![0u8; MSGBUF_BYTES];
    for (core, slot, n) in [(1usize, 9usize, 90u64), (1, 2, 20), (1, 63, 630), (4, 0, 1)] {
        let at: usize = slot_offset(core, slot);
        let payload = build_put_payload(&make_key(n), &make_val(n + 1));
        memory[at..at + 128].copy_from_slice(&payload);
    }
    let mut mb = MsgBuf::from_mr(memory);
    assert_eq!(mb.slot(1, 9).magic, PUT_MAGIC);
    assert_eq!(mb.slot(1, 9).key, make_key(90));
    let at: usize = slot_offset(1, 9);
    let put = look_at_message(&mut Look::new(mb.base_ptr()), at);
    assert_eq!(put, Some((make_key(90), make_val(91))));

    let mut got: Vec<([u8; 24], [u8; 24])> = Vec::new();
    assert_eq!(mb.poll_core(1, &mut got), 3);
    assert_eq!(
        got,
        vec![
            (make_key(20), make_val(21)),
            (make_key(90), make_val(91)),
            (make_key(630), make_val(631)),
        ]
    );
    assert_eq!(mb.poll_core(1, &mut got), 0);
    assert_eq!(got.len(), 3);
    assert_eq!(mb.slot(4, 0).magic, PUT_MAGIC);
    assert_eq!(mb.poll_core(4, &mut got), 1);
    // Keys and values stay behind; only the magic byte goes.
    assert_eq!(mb.base_ptr()[at], 0);
    assert_eq!(look_at_message(&mut Look::new(mb.base_ptr()), at), None);
    assert_eq!(mb.slot(1, 9).key, make_key(90));
}

#[test]
fn any_magic_but_zero_is_a_pending_put() {
    let mut mb = MsgBuf::new_owned();
    let mut slot = MsgSlot::zeroed();
    assert_eq!((slot._pad0, slot._pad1), ([0u8; 7], [0u8; 72]));
    slot.magic = 1;
    mb.deposit(0, 0, &slot);
    let mut got: Vec<([u8; 24], [u8; 24])> = Vec::new();
    assert_eq!(mb.poll_core(0, &mut got), 1);
}

#[test]
fn a_loader_inserts_what_a_sweep_finds_and_the_last_put_counts() {
    let mut mb = MsgBuf::new_owned();
    for (slot, n) in [(0usize, 1u64), (5, 2), (6, 1)] {
        let mut msg = MsgSlot::zeroed();
        msg.magic = PUT_MAGIC;
        msg.key = make_key(n);
        msg.value = make_val(n * 100 + slot as u64);
        mb.deposit(3, slot, &msg);
    }
    let mut loader = PutLoader::new(Table::new(64));
    assert!(loader.table.insert(&make_key(9), &make_val(9)));
    assert_eq!(mb.poll_core(3, &mut loader), 3);
    assert_eq!(loader.table.get(&make_key(1)), Some(make_val(106)));
    assert_eq!(loader.table.get(&make_key(2)), Some(make_val(205)));
    assert_eq!(loader.table.get(&make_key(9)), Some(make_val(9)));
    assert_eq!(loader.dropped, 0);
}

#[test]
fn a_loader_counts_what_finds_no_slot() {
    let mut mb = MsgBuf::new_owned();
    for slot in 0..5usize {
        let mut msg = MsgSlot::zeroed();
        msg.magic = PUT_MAGIC;
        msg.key = make_key(slot as u64);
        mb.deposit(0, slot, &msg);
    }
    let mut loader = PutLoader::new(Table::new(1));
    assert_eq!(mb.poll_core(0, &mut loader), 5);
    assert_eq!(loader.dropped, 3);
}
