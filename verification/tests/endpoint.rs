use zerokv::handshake::{frame, greeting, unframe, PeerInfo};
use zerokv::rdma_context::{
    memory_access, queue_caps, Completion, DeviceReport, Opcode, RdmaContext, WorkRequest,
};

fn report() -> DeviceReport {
    DeviceReport { qpn: 17, lid: 3, gid: [9u8; 16], gid_index: 2, lkey: 100, rkey: 200 }
}

#[test]
fn an_endpoint_keeps_what_the_device_reports() {
    let ctx = RdmaContext::new(0x1000, 4096, report());
    assert_eq!((ctx.buf, ctx.buf_len), (0x1000, 4096));
    assert_eq!((ctx.qpn, ctx.lid, ctx.gid), (17, 3, [9u8; 16]));
    assert_eq!((ctx.lkey, ctx.rkey, ctx.gid_index), (100, 200, 2));
    assert!(ctx.owns_buffer());
    let shared = RdmaContext::new_with_buf(0x1000, report());
    assert_eq!(shared.buf_len, 0);
    assert!(!shared.owns_buffer());
    assert!(!RdmaContext::new(0, 4096, report()).owns_buffer());
    let odd = RdmaContext::new(0, 0, DeviceReport { gid_index: 258, ..report() });
    assert_eq!(odd.gid_index, 2);
    let negative = RdmaContext::new(0, 0, DeviceReport { gid_index: -1, ..report() });
    assert_eq!(negative.gid_index, 255);
}

#[test]
fn a_queue_pair_is_set_up_in_three_steps() {
    let ctx = RdmaContext::new(0x1000, 4096, report());
    let access = memory_access();
    assert!(access.local_write && access.remote_read && access.remote_write);
    let caps = queue_caps();
    assert_eq!((caps.cq_entries, caps.max_send_wr, caps.max_recv_wr), (128, 128, 128));
    assert_eq!((caps.max_send_sge, caps.max_recv_sge, caps.max_inline_data), (1, 1, 64));

    let init = ctx.move_to_init();
    assert_eq!((init.pkey_index, init.port_num), (0, 1));
    assert!(!init.access.local_write && init.access.remote_read && init.access.remote_write);

    let rtr = ctx.connect_rtr(44, 5, [7u8; 16]);
    assert_eq!((rtr.path_mtu, rtr.dest_qp_num, rtr.rq_psn), (1024, 44, 0));
    assert_eq!((rtr.max_dest_rd_atomic, rtr.min_rnr_timer), (1, 12));
    assert_eq!((rtr.dlid, rtr.sl, rtr.src_path_bits, rtr.port_num), (5, 0, 0, 1));
    assert_eq!((rtr.is_global, rtr.dgid, rtr.sgid_index), (true, [7u8; 16], 2));
    assert_eq!((rtr.hop_limit, rtr.traffic_class, rtr.flow_label), (64, 0, 0));

    let rts = ctx.connect_rts();
    assert_eq!((rts.timeout, rts.retry_cnt, rts.rnr_retry), (14, 7, 7));
    assert_eq!((rts.sq_psn, rts.max_rd_atomic), (0, 1));
}

#[test]
fn reads_and_writes_are_transfers_of_the_buffer() {
    let mut ctx = RdmaContext::new(0x1000, 4096, report());
    let read = WorkRequest {
        wr_id: 5,
        opcode: Opcode::Read,
        signaled: true,
        local_addr: 0x1040,
        len: 64,
        lkey: 100,
        remote_addr: 0xABC0,
        remote_rkey: 300,
    };
    assert!(ctx.post_read(5, 64, 64, 0xABC0, 300) == read);
    assert!(
        ctx.post_read_unsignaled(5, 64, 64, 0xABC0, 300) == WorkRequest { signaled: false, ..read }
    );
    let write = WorkRequest { opcode: Opcode::Write, ..read };
    assert!(ctx.post_write_signaled(5, 64, 64, 0xABC0, 300) == write);
    let post = ctx.post_write(5, 64, 64, 0xABC0, 300);
    assert!(post.wr == WorkRequest { signaled: false, ..write });
    assert!(!post.drain);
    assert_eq!(ctx.unsignaled_count, 1);
}

#[test]
fn every_64th_write_is_signaled_and_waited_for() {
    let mut ctx = RdmaContext::new(0x1000, 4096, report());
    for n in 0u64..200 {
        assert_eq!(ctx.unsignaled_count as u64, n % 64);
        let post = ctx.post_write(n, 128, 128, 0, 0);
        assert_eq!(post.drain, n % 64 == 63);
        assert_eq!(post.wr.signaled, post.drain);
    }
}

#[test]
fn a_batch_is_a_chain_of_pairs_with_one_completion_each() {
    let ctx = RdmaContext::new(0x1000, 4096, report());
    let wrs = ctx.post_read_pairs_batched(&[(1, 2), (3, 4), (5, 6)], 128, 64, 300);
    assert_eq!(wrs.len(), 6);
    for (k, wr) in wrs.iter().enumerate() {
        assert_eq!(wr.wr_id, k as u64 / 2);
        assert_eq!(wr.signaled, k % 2 == 1);
        assert_eq!(wr.local_addr, 0x1000 + (k as u64 / 2) * 128 + (k as u64 % 2) * 64);
        assert_eq!(wr.remote_addr, k as u64 + 1);
        assert_eq!((wr.len, wr.lkey, wr.remote_rkey), (64, 100, 300));
        assert!(wr.opcode == Opcode::Read);
    }
    // Half B arrives 64 bytes behind half A, however much of a slot is read.
    let short = ctx.post_read_pairs_batched(&[(1, 2), (3, 4)], 128, 32, 300);
    assert_eq!((short[0].local_addr, short[0].len), (0x1000, 32));
    assert_eq!((short[1].local_addr, short[1].len), (0x1040, 32));
    assert_eq!((short[3].local_addr, short[3].len), (0x10C0, 32));
    let whole: Vec<(u64, u64)> = vec![(0, 0); 32];
    assert_eq!(ctx.post_read_pairs_batched(&whole, 128, 64, 0).len(), 64);
}

#[test]
fn completions_are_collected_until_all_are_there() {
    let ctx = RdmaContext::new(0x1000, 4096, report());
    let mut poll = ctx.poll_n(40);
    assert_eq!(poll.want(), 32);
    let chunk: Vec<Completion> = (0u64..30).map(|i| Completion { wr_id: i, ok: true }).collect();
    assert_eq!(poll.take(&chunk), Ok(()));
    assert!(!poll.done());
    assert_eq!(poll.want(), 10);
    assert_eq!(poll.take(&[]), Ok(()));
    let rest: Vec<Completion> = (30u64..40).map(|i| Completion { wr_id: i, ok: true }).collect();
    assert_eq!(poll.take(&rest), Ok(()));
    assert!(poll.done());
    assert_eq!(poll.want(), 0);
    assert_eq!(poll.ids, (0u64..40).collect::<Vec<u64>>());
    assert!(ctx.poll_n(0).done());
}

#[test]
fn a_completion_with_an_error_stops_the_collection() {
    let ctx = RdmaContext::new(0x1000, 4096, report());
    let mut poll = ctx.poll_n(3);
    let batch = [
        Completion { wr_id: 8, ok: true },
        Completion { wr_id: 9, ok: false },
        Completion { wr_id: 10, ok: true },
    ];
    assert_eq!(poll.take(&batch), Err(1));
    assert_eq!(poll.ids, vec![8]);
    let mut one = ctx.poll_one();
    assert_eq!(one.want(), 1);
    assert_eq!(one.take(&batch[..1]), Ok(()));
    assert!(one.done());
    assert_eq!(one.ids, vec![8]);
}

#[test]
fn a_greeting_tells_of_the_endpoint_and_of_the_message_buffer() {
    let ctx = RdmaContext::new(0x1000, 4096, report());
    let info = PeerInfo::from_ctx(&ctx);
    assert_eq!((info.qpn, info.lid, info.gid, info.rkey), (17, 3, [9u8; 16], 200));
    assert_eq!((info.addr, info.addr_b, info.len), (0x1000, 0, 4096));
    assert_eq!((info.msgbuf_addr, info.msgbuf_rkey), (0, 0));
    let info = greeting(&ctx, 0x9000, 77);
    assert_eq!((info.msgbuf_addr, info.msgbuf_rkey), (0x9000, 77));
    assert_eq!((info.qpn, info.addr), (17, 0x1000));
}

#[test]
fn a_frame_is_undone() {
    let message = b"{\"qpn\":17}".to_vec();
    let line = frame(message.clone());
    assert_eq!(line, b"{\"qpn\":17}\n");
    assert_eq!(unframe(&line), Some(message.clone()));
    let mut more = line.clone();
    more.extend_from_slice(b"next\n");
    assert_eq!(unframe(&more), Some(message));
}

#[test]
fn lines_end_as_lines_do() {
    assert_eq!(unframe(b""), None);
    assert_eq!(unframe(b"\n"), Some(b"".to_vec()));
    assert_eq!(unframe(b"\r\n"), Some(b"".to_vec()));
    assert_eq!(unframe(b"ab\r\n"), Some(b"ab".to_vec()));
    assert_eq!(unframe(b"ab\r"), Some(b"ab\r".to_vec()));
    assert_eq!(unframe(b"a\rb\r\r\n"), Some(b"a\rb\r".to_vec()));
    assert_eq!(unframe(b"ab"), Some(b"ab".to_vec()));
}
