use zerokv::client::{
    planned_op, slot_addrs, slot_value, GetMode, GetResult, GetSession, GetStep, PlannedOp,
    PutCursors, Tally, BUF_LEN, HALF_BYTES, OPS_PER_THREAD, PUT_STAGING_OFFSET, READER_THREADS,
    TEST_KEYS,
};
use zerokv::handshake::PeerInfo;
use zerokv::keys::{make_key, make_val, val_number};
use zerokv::server::{PutLoader, TABLE_CAP};
use zerokv::table::SLOT_BYTES;
use zerokv::{
    build_put_payload, core_for_key, h1, h2, write_slot, MsgBuf, Slot, Table, MSGBUF_BYTES,
};

fn peer() -> PeerInfo {
    PeerInfo {
        qpn: 1,
        lid: 0,
        gid: [0u8; 16],
        rkey: 70,
        addr: 0x10_0000,
        addr_b: 0,
        len: 0,
        msgbuf_addr: 0x9000_0000,
        msgbuf_rkey: 80,
    }
}

fn slot_with(key: u64, value: u64) -> Slot {
    let mut slot = Slot::zeroed();
    write_slot(&mut slot, &make_key(key), &make_val(value));
    slot
}

/// Runs a GET against a table whose memory starts at the peer's address. Returns the result, and
/// how many slots were read.
fn get(memory: &Vec<u8>, key: &[u8; 24], mode: GetMode) -> (GetResult, usize) {
    let remote = peer();
    let mut session = GetSession::new(&remote, key, mode);
    let mut reads: usize = 0;
    loop {
        let order = session.order();
        assert_eq!(order.len, 64);
        assert_eq!(order.remote_rkey, 70);
        let slot = Slot::load(memory, (order.remote_addr - remote.addr) as usize);
        reads += 1;
        match session.step(&slot) {
            GetStep::Done(result) => return (result, reads),
            GetStep::Again => {}
        }
    }
}

#[test]
fn slots_have_addresses() {
    assert_eq!(HALF_BYTES, 8 * 1024 * 1024);
    let remote = peer();
    for n in 0u64..100 {
        let key = make_key(n);
        let (a, b) = slot_addrs(&remote, &key);
        assert_eq!(a, 0x10_0000 + (h1(&key) & (TABLE_CAP - 1)) as u64 * 64);
        assert_eq!(b, 0x10_0000 + HALF_BYTES + (h2(&key) & (TABLE_CAP - 1)) as u64 * 64);
    }
}

#[test]
fn a_get_finds_what_the_table_finds() {
    let mut t = Table::new(TABLE_CAP);
    for n in 0u64..2000 {
        assert!(t.insert(&make_key(n), &make_val(n + 1)));
    }
    let memory = t.into_mr().to_vec();
    let t = Table::from_mr(memory.clone(), TABLE_CAP);
    for n in 0u64..2100 {
        let key = make_key(n);
        let expected = t.get(&key);
        let (checking, _) = get(&memory, &key, GetMode::Checking);
        let (sync, _) = get(&memory, &key, GetMode::Sync);
        assert_eq!(checking.value(), expected);
        assert_eq!(sync.value(), expected);
        if expected.is_none() {
            assert!(matches!(checking, GetResult::Miss));
            assert!(matches!(sync, GetResult::Miss));
        }
    }
}

#[test]
fn a_key_whose_slots_were_never_written_is_a_miss() {
    let memory: Vec<u8> = vec![0u8; 2 * HALF_BYTES as usize];
    let (result, reads) = get(&memory, &make_key(1), GetMode::Checking);
    assert!(matches!(result, GetResult::Miss));
    assert_eq!(reads, 2);
    let (result, reads) = get(&memory, &make_key(1), GetMode::Sync);
    assert!(matches!(result, GetResult::Miss));
    assert_eq!(reads, 8);
}

#[test]
fn a_get_reads_each_slot_at_most_four_times() {
    let key = make_key(1);
    let mut memory: Vec<u8> = vec![0u8; 2 * HALF_BYTES as usize];
    // A write was left half done in half B.
    let at: usize = HALF_BYTES as usize + (h2(&key) % TABLE_CAP) * SLOT_BYTES;
    memory[at] = 1;
    for mode in [GetMode::Checking, GetMode::Sync] {
        let (result, reads) = get(&memory, &key, mode);
        assert!(matches!(result, GetResult::TornRead));
        assert_eq!(reads, 8);
    }
}

#[test]
fn the_reads_of_a_get_are_numbered() {
    let key = make_key(1);
    let mut torn = Slot::zeroed();
    torn.ver_lo = 2;
    let modes = [(GetMode::Checking, 0xA0u64, 0xB0u64), (GetMode::Sync, 0xC0, 0xD0)];
    for (mode, first_a, first_b) in modes {
        let mut session = GetSession::new(&peer(), &key, mode);
        for attempt in 0u64..4 {
            let order = session.order();
            assert_eq!((order.wr_id, order.local_offset), (first_a + attempt, 0));
            assert!(matches!(session.step(&torn), GetStep::Again));
            let order = session.order();
            assert_eq!((order.wr_id, order.local_offset), (first_b + attempt, 64));
            let last = matches!(session.step(&torn), GetStep::Done(GetResult::TornRead));
            assert_eq!(last, attempt == 3);
        }
    }
}

#[test]
fn two_slots_at_rest_settle_a_checking_get() {
    let other = slot_with(2, 20);
    let mut session = GetSession::new(&peer(), &make_key(1), GetMode::Checking);
    assert!(matches!(session.step(&other), GetStep::Again));
    assert!(matches!(session.step(&other), GetStep::Done(GetResult::Miss)));
    let mut session = GetSession::new(&peer(), &make_key(1), GetMode::Sync);
    assert!(matches!(session.step(&other), GetStep::Again));
    assert!(matches!(session.step(&other), GetStep::Again));
    assert_eq!(session.attempt, 1);
}

#[test]
fn a_torn_slot_is_read_again() {
    let mut torn = slot_with(1, 10);
    torn.ver_lo = 3;
    let mut session = GetSession::new(&peer(), &make_key(1), GetMode::Checking);
    assert!(matches!(session.step(&torn), GetStep::Again));
    assert!(matches!(session.step(&torn), GetStep::Again));
    match session.step(&slot_with(1, 11)) {
        GetStep::Done(GetResult::Found(v)) => assert_eq!(val_number(&v), 11),
        _ => panic!("not found"),
    }
}

#[test]
fn a_key_that_is_being_overwritten_in_half_a_is_no_miss() {
    // The key stands in half A and is being written; its slot in half B was never written.
    let mut torn = slot_with(1, 10);
    torn.ver_lo = 3;
    let mut session = GetSession::new(&peer(), &make_key(1), GetMode::Checking);
    for attempt in 0u64..4 {
        assert_eq!(session.attempt, attempt);
        assert!(matches!(session.step(&torn), GetStep::Again));
        let step = session.step(&Slot::zeroed());
        if attempt < 3 {
            assert!(matches!(step, GetStep::Again));
        } else {
            assert!(matches!(step, GetStep::Done(GetResult::TornRead)));
        }
    }
    // The same where half B holds another key.
    let mut session = GetSession::new(&peer(), &make_key(1), GetMode::Checking);
    assert!(matches!(session.step(&torn), GetStep::Again));
    assert!(matches!(session.step(&slot_with(2, 20)), GetStep::Again));
    // Once the write is over, the key is found; were it gone, it would be a miss.
    match session.step(&slot_with(1, 11)) {
        GetStep::Done(GetResult::Found(v)) => assert_eq!(val_number(&v), 11),
        _ => panic!("not found"),
    }
    let mut session = GetSession::new(&peer(), &make_key(1), GetMode::Checking);
    assert!(matches!(session.step(&torn), GetStep::Again));
    assert!(matches!(session.step(&Slot::zeroed()), GetStep::Again));
    assert!(matches!(session.step(&Slot::zeroed()), GetStep::Again));
    assert!(matches!(session.step(&Slot::zeroed()), GetStep::Done(GetResult::Miss)));
}

#[test]
fn a_slot_is_asked_for_one_key() {
    let slot = slot_with(5, 50);
    assert_eq!(slot_value(&slot, &make_key(5)), Some(make_val(50)));
    assert_eq!(slot_value(&slot, &make_key(6)), None);
    assert_eq!(slot_value(&Slot::zeroed(), &make_key(0)), None);
}

#[test]
fn puts_go_round_the_slots_of_their_core() {
    assert!(PUT_STAGING_OFFSET as usize + 128 <= BUF_LEN);
    let mut cursors = PutCursors::new();
    let remote = peer();
    for n in 0usize..130 {
        let plan = cursors.plan_for_core(&remote, 3, &make_key(1), &make_val(2));
        assert_eq!((plan.core, plan.slot), (3, n % 64));
        let write = plan.write;
        assert_eq!(write.wr_id, 0xEE00_0300 | (n as u64 % 64));
        assert_eq!((write.local_offset, write.len, write.remote_rkey), (128, 128, 80));
        assert_eq!(write.remote_addr, 0x9000_0000 + (3 * 64 + n as u64 % 64) * 128);
        assert_eq!(plan.payload, build_put_payload(&make_key(1), &make_val(2)));
    }
    assert_eq!(cursors.next, [0, 0, 0, 2, 0, 0, 0, 0]);
}

#[test]
fn a_put_goes_to_the_core_of_its_key() {
    let mut cursors = PutCursors::new();
    for n in 0u64..50 {
        let before = cursors.next;
        let plan = cursors.plan(&peer(), &make_key(n), &make_val(n));
        assert_eq!(plan.core, core_for_key(&make_key(n)));
        assert_eq!(plan.slot, before[plan.core]);
        assert_eq!(cursors.next[plan.core], plan.slot + 1);
    }
}

#[test]
fn what_a_put_writes_a_get_reads() {
    let remote = peer();
    let mut cursors = PutCursors::new();
    let mut loader = PutLoader::new(Table::new(TABLE_CAP));
    let mut messages: Vec<u8> = vec![0u8; MSGBUF_BYTES];
    for n in 0u64..40 {
        let plan = cursors.plan(&remote, &make_key(n), &make_val(n * 3 + 7));
        let at: usize = (plan.write.remote_addr - remote.msgbuf_addr) as usize;
        messages[at..at + 128].copy_from_slice(&plan.payload);
    }
    let mut buffer = MsgBuf::from_mr(messages);
    let mut taken: usize = 0;
    for core in 0usize..8 {
        taken += buffer.poll_core(core, &mut loader);
    }
    assert_eq!(taken, 40);
    let memory = loader.table.into_mr().to_vec();
    for n in 0u64..40 {
        let (result, _) = get(&memory, &make_key(n), GetMode::Checking);
        assert_eq!(result.value(), Some(make_val(n * 3 + 7)));
    }
}

#[test]
fn five_in_a_hundred_operations_are_puts() {
    for thread in 0..READER_THREADS {
        let mut puts: usize = 0;
        for op in 0..OPS_PER_THREAD {
            match planned_op(thread, op) {
                PlannedOp::Put { key, value } => {
                    puts += 1;
                    assert_eq!(key, make_key(op as u64));
                    assert_eq!(value, make_val(op as u64 * 3 + 7));
                }
                PlannedOp::Get { key } => assert_eq!(key, make_key(op as u64)),
            }
        }
        assert_eq!(puts, 5_000);
    }
    assert_eq!(TEST_KEYS, 100_000);
}

#[test]
fn gets_and_puts_are_tallied() {
    let mut tally = Tally::new();
    tally.count_get(&GetResult::Found(make_val(9)));
    tally.count_get(&GetResult::Found(make_val(0)));
    tally.count_get(&GetResult::Miss);
    tally.count_get(&GetResult::Miss);
    tally.count_get(&GetResult::TornRead);
    tally.count_put();
    assert_eq!((tally.correct, tally.mismatch, tally.miss, tally.torn), (1, 1, 2, 1));
    assert_eq!(tally.puts, 1);
    assert_eq!(tally.gets(6), 5);
    let mut full = Tally { miss: u64::MAX, ..Tally::new() };
    full.count_get(&GetResult::Miss);
    assert_eq!(full.miss, 0);
}
