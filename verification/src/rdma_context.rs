//! One endpoint of a reliable connection: how its queue pair is set up, what work it posts, and
//! how completions are collected.
//!
//! The functions here decide; they hand out plain values, and the program that owns the device
//! carries them out.

use vstd::prelude::*;

verus! {

/// The port of the device that is used.
pub const RDMA_PORT: u8 = 1;

/// The alignment of a buffer that an endpoint allocates.
pub const BUF_ALIGN: usize = 128;

/// How many work requests a send queue holds.
pub const MAX_SEND_WR: usize = 128;

/// How many writes go by until one is signaled and waited for.
pub const DRAIN_INTERVAL: u32 = 64;

/// How far behind the slot of half A that of half B arrives.
pub const HALF_B_OFFSET: usize = 64;

/// How many completions are fetched at once.
pub const POLL_CHUNK: usize = 32;

/// What a device reports of a queue pair and of the memory that is registered for it.
#[derive(Clone, Copy)]
pub struct DeviceReport {
    pub qpn: u32,
    pub lid: u16,
    pub gid: [u8; 16],
    pub gid_index: i32,
    pub lkey: u32,
    pub rkey: u32,
}

/// What a peer, or the endpoint itself, may do with registered memory.
#[derive(Clone, Copy, PartialEq, Eq, Structural)]
pub struct AccessFlags {
    pub local_write: bool,
    pub remote_read: bool,
    pub remote_write: bool,
}

/// The size of a queue pair and of its completion queue.
#[derive(Clone, Copy, PartialEq, Eq, Structural)]
pub struct QueueCaps {
    pub cq_entries: u32,
    pub max_send_wr: u32,
    pub max_recv_wr: u32,
    pub max_send_sge: u32,
    pub max_recv_sge: u32,
    pub max_inline_data: u32,
}

/// What the transition of a queue pair from RESET to INIT sets.
#[derive(Clone, Copy, PartialEq, Eq, Structural)]
pub struct InitAttr {
    pub pkey_index: u16,
    pub port_num: u8,
    pub access: AccessFlags,
}

/// What the transition of a queue pair from INIT to RTR sets.
#[derive(Clone, Copy)]
pub struct RtrAttr {
    pub path_mtu: u32,
    pub dest_qp_num: u32,
    pub rq_psn: u32,
    pub max_dest_rd_atomic: u8,
    pub min_rnr_timer: u8,
    pub dlid: u16,
    pub sl: u8,
    pub src_path_bits: u8,
    pub port_num: u8,
    pub is_global: bool,
    pub dgid: [u8; 16],
    pub sgid_index: u8,
    pub hop_limit: u8,
    pub traffic_class: u8,
    pub flow_label: u32,
}

/// What the transition of a queue pair from RTR to RTS sets.
#[derive(Clone, Copy, PartialEq, Eq, Structural)]
pub struct RtsAttr {
    pub timeout: u8,
    pub retry_cnt: u8,
    pub rnr_retry: u8,
    pub sq_psn: u32,
    pub max_rd_atomic: u8,
}

/// The direction of a one-sided transfer.
#[derive(Clone, Copy, PartialEq, Eq, Structural)]
pub enum Opcode {
    Read,
    Write,
}

/// One transfer between local and remote memory.
#[derive(Clone, Copy, PartialEq, Eq, Structural)]
pub struct WorkRequest {
    pub wr_id: u64,
    pub opcode: Opcode,
    /// Whether the transfer reports its completion.
    pub signaled: bool,
    pub local_addr: u64,
    pub len: u32,
    pub lkey: u32,
    pub remote_addr: u64,
    pub remote_rkey: u32,
}

/// A write to post, and whether to wait for one completion after it is posted.
#[derive(Clone, Copy, PartialEq, Eq, Structural)]
pub struct WritePost {
    pub wr: WorkRequest,
    pub drain: bool,
}

/// What a completion queue reports of one work request.
#[derive(Clone, Copy, PartialEq, Eq, Structural)]
pub struct Completion {
    pub wr_id: u64,
    pub ok: bool,
}

/// The access that is asked for when memory is registered.
pub fn memory_access() -> (access: AccessFlags)
    ensures
        access == (AccessFlags { local_write: true, remote_read: true, remote_write: true }),
{
    AccessFlags { local_write: true, remote_read: true, remote_write: true }
}

/// The size that is asked for when a queue pair is created.
pub fn queue_caps() -> (caps: QueueCaps)
    ensures
        caps == (QueueCaps {
            cq_entries: 128,
            max_send_wr: 128,
            max_recv_wr: 128,
            max_send_sge: 1,
            max_recv_sge: 1,
            max_inline_data: 64,
        }),
{
    QueueCaps {
        cq_entries: 128,
        max_send_wr: 128,
        max_recv_wr: 128,
        max_send_sge: 1,
        max_recv_sge: 1,
        max_inline_data: 64,
    }
}

/// One endpoint (server or client).
pub struct RdmaContext {
    /// The address of the registered buffer.
    pub buf: u64,
    /// Its length; zero where the caller owns the buffer.
    pub buf_len: usize,
    pub qpn: u32,
    pub lid: u16,
    pub gid: [u8; 16],
    pub rkey: u32,
    pub lkey: u32,
    pub gid_index: u8,
    /// How many writes were posted unsignaled since the last one that was waited for.
    pub unsignaled_count: u32,
}

/// The count of unsignaled writes after one more write.
pub open spec fn count_after_write(count: nat) -> nat {
    if count >= DRAIN_INTERVAL - 1 {
        0
    } else {
        count + 1
    }
}

/// The count of unsignaled writes after `n` writes of a new endpoint.
pub open spec fn count_after(n: nat) -> nat
    decreases n,
{
    if n == 0 {
        0
    } else {
        count_after_write(count_after((n - 1) as nat))
    }
}

/// The two reads of logical GET `i`: the slot of half A unsignaled, to `i * local_stride` in the
/// buffer at `buf`; then that of half B signaled, 64 bytes further on.
pub open spec fn read_pair(
    buf: int,
    lkey: u32,
    i: int,
    addrs: (u64, u64),
    local_stride: int,
    len: u32,
    remote_rkey: u32,
) -> (WorkRequest, WorkRequest) {
    (
        WorkRequest {
            wr_id: i as u64,
            opcode: Opcode::Read,
            signaled: false,
            local_addr: (buf + i * local_stride) as u64,
            len,
            lkey,
            remote_addr: addrs.0,
            remote_rkey,
        },
        WorkRequest {
            wr_id: i as u64,
            opcode: Opcode::Read,
            signaled: true,
            local_addr: (buf + i * local_stride + HALF_B_OFFSET) as u64,
            len,
            lkey,
            remote_addr: addrs.1,
            remote_rkey,
        },
    )
}

impl RdmaContext {
    /// The count of unsignaled writes stays below the interval at which they are waited for.
    pub open spec fn inv(&self) -> bool {
        self.unsignaled_count < DRAIN_INTERVAL
    }

    /// The transfer of `len` bytes between the buffer at `local_offset` and remote memory.
    pub open spec fn transfer(
        &self,
        opcode: Opcode,
        signaled: bool,
        wr_id: u64,
        local_offset: int,
        len: u32,
        remote_addr: u64,
        remote_rkey: u32,
    ) -> WorkRequest {
        WorkRequest {
            wr_id,
            opcode,
            signaled,
            local_addr: (self.buf + local_offset) as u64,
            len,
            lkey: self.lkey,
            remote_addr,
            remote_rkey,
        }
    }

    /// An endpoint with a buffer of its own, of `buf_len` bytes at address `buf`. It keeps the low
    /// eight bits of the GID index: the index itself, where that is one a device has.
    pub fn new(buf: u64, buf_len: usize, device: DeviceReport) -> (ctx: Self)
        ensures
            ctx.inv(),
            ctx == (RdmaContext {
                buf,
                buf_len,
                qpn: device.qpn,
                lid: device.lid,
                gid: device.gid,
                rkey: device.rkey,
                lkey: device.lkey,
                gid_index: device.gid_index as u8,
                unsignaled_count: 0,
            }),
            0 <= device.gid_index < 256 ==> ctx.gid_index == device.gid_index,
    {
        RdmaContext {
            buf,
            buf_len,
            qpn: device.qpn,
            lid: device.lid,
            gid: device.gid,
            rkey: device.rkey,
            lkey: device.lkey,
            gid_index: device.gid_index as u8,
            unsignaled_count: 0,
        }
    }

    /// An endpoint whose buffer at address `buf` the caller owns: its length is kept as zero, and
    /// the buffer is not freed with the endpoint.
    ///
    /// A server registers one table for many queue pairs in this way.
    pub fn new_with_buf(buf: u64, device: DeviceReport) -> (ctx: Self)
        ensures
            ctx.inv(),
            ctx == (RdmaContext {
                buf,
                buf_len: 0,
                qpn: device.qpn,
                lid: device.lid,
                gid: device.gid,
                rkey: device.rkey,
                lkey: device.lkey,
                gid_index: device.gid_index as u8,
                unsignaled_count: 0,
            }),
            0 <= device.gid_index < 256 ==> ctx.gid_index == device.gid_index,
    {
        RdmaContext::new(buf, 0, device)
    }

    /// Whether the buffer is freed with the endpoint.
    pub fn owns_buffer(&self) -> (owned: bool)
        ensures
            owned == (self.buf != 0 && self.buf_len > 0),
    {
        self.buf != 0 && self.buf_len > 0
    }

    /// The transition RESET to INIT.
    pub fn move_to_init(&self) -> (attr: InitAttr)
        ensures
            attr == (InitAttr {
                pkey_index: 0,
                port_num: RDMA_PORT,
                access: AccessFlags { local_write: false, remote_read: true, remote_write: true },
            }),
            attr.port_num == 1,
    {
        InitAttr {
            pkey_index: 0,
            port_num: RDMA_PORT,
            access: AccessFlags { local_write: false, remote_read: true, remote_write: true },
        }
    }

    /// The transition INIT to RTR. Routing is by GID, with the index that the local GID was
    /// queried under.
    pub fn connect_rtr(&self, remote_qpn: u32, remote_lid: u16, remote_gid: [u8; 16]) -> (attr:
        RtrAttr)
        ensures
            attr == (RtrAttr {
                path_mtu: 1024,
                dest_qp_num: remote_qpn,
                rq_psn: 0,
                max_dest_rd_atomic: 1,
                min_rnr_timer: 12,
                dlid: remote_lid,
                sl: 0,
                src_path_bits: 0,
                port_num: RDMA_PORT,
                is_global: true,
                dgid: remote_gid,
                sgid_index: self.gid_index,
                hop_limit: 64,
                traffic_class: 0,
                flow_label: 0,
            }),
            attr.port_num == 1,
    {
        RtrAttr {
            path_mtu: 1024,
            dest_qp_num: remote_qpn,
            rq_psn: 0,
            max_dest_rd_atomic: 1,
            min_rnr_timer: 12,
            dlid: remote_lid,
            sl: 0,
            src_path_bits: 0,
            port_num: RDMA_PORT,
            is_global: true,
            dgid: remote_gid,
            sgid_index: self.gid_index,
            hop_limit: 64,
            traffic_class: 0,
            flow_label: 0,
        }
    }

    /// The transition RTR to RTS.
    pub fn connect_rts(&self) -> (attr: RtsAttr)
        ensures
            attr == (RtsAttr {
                timeout: 14,
                retry_cnt: 7,
                rnr_retry: 7,
                sq_psn: 0,
                max_rd_atomic: 1,
            }),
    {
        RtsAttr { timeout: 14, retry_cnt: 7, rnr_retry: 7, sq_psn: 0, max_rd_atomic: 1 }
    }

    /// One READ, signaled.
    pub fn post_read(
        &self,
        wr_id: u64,
        local_offset: usize,
        len: u32,
        remote_addr: u64,
        remote_rkey: u32,
    ) -> (wr: WorkRequest)
        requires
            self.buf + local_offset <= u64::MAX,
        ensures
            wr == self.transfer(
                Opcode::Read,
                true,
                wr_id,
                local_offset as int,
                len,
                remote_addr,
                remote_rkey,
            ),
            (wr.wr_id, wr.opcode, wr.signaled) == (wr_id, Opcode::Read, true),
            wr.local_addr == self.buf + local_offset,
            (wr.len, wr.lkey) == (len, self.lkey),
            (wr.remote_addr, wr.remote_rkey) == (remote_addr, remote_rkey),
    {
        WorkRequest {
            wr_id,
            opcode: Opcode::Read,
            signaled: true,
            local_addr: self.buf + local_offset as u64,
            len,
            lkey: self.lkey,
            remote_addr,
            remote_rkey,
        }
    }

    /// One READ, unsignaled.
    pub fn post_read_unsignaled(
        &self,
        wr_id: u64,
        local_offset: usize,
        len: u32,
        remote_addr: u64,
        remote_rkey: u32,
    ) -> (wr: WorkRequest)
        requires
            self.buf + local_offset <= u64::MAX,
        ensures
            wr == self.transfer(
                Opcode::Read,
                false,
                wr_id,
                local_offset as int,
                len,
                remote_addr,
                remote_rkey,
            ),
            (wr.wr_id, wr.opcode, wr.signaled) == (wr_id, Opcode::Read, false),
            wr.local_addr == self.buf + local_offset,
            (wr.len, wr.lkey) == (len, self.lkey),
            (wr.remote_addr, wr.remote_rkey) == (remote_addr, remote_rkey),
    {
        WorkRequest {
            signaled: false,
            ..self.post_read(wr_id, local_offset, len, remote_addr, remote_rkey)
        }
    }

    /// N logical GETs as one chain of READs, in the order in which they are posted.
    ///
    /// Each GET is two reads: half A into local offset `i * local_stride`, half B into local offset
    /// `i * local_stride + 64`. Only the second is signaled, so that there are exactly N
    /// completions, each with the number `i` of its GET.
    pub fn post_read_pairs_batched(
        &self,
        remote_addrs: &[(u64, u64)],
        local_stride: usize,
        len: u32,
        remote_rkey: u32,
    ) -> (wrs: Vec<WorkRequest>)
        requires
            remote_addrs@.len() > 0,
            remote_addrs@.len() * 2 <= MAX_SEND_WR,
            remote_addrs@.len() * local_stride <= self.buf_len,
            self.buf + (remote_addrs@.len() - 1) * local_stride + HALF_B_OFFSET <= u64::MAX,
            (remote_addrs@.len() - 1) * local_stride + HALF_B_OFFSET <= usize::MAX,
        ensures
            wrs@.len() == 2 * remote_addrs@.len(),
            forall|i: int|
                #![trigger remote_addrs@[i]]
                0 <= i < remote_addrs@.len() ==> (wrs@[2 * i], wrs@[2 * i + 1]) == read_pair(
                    self.buf as int,
                    self.lkey,
                    i,
                    remote_addrs@[i],
                    local_stride as int,
                    len,
                    remote_rkey,
                ),
    {
        let mut wrs: Vec<WorkRequest> = Vec::new();
        let mut i: usize = 0;
        while i < remote_addrs.len()
            invariant
                i <= remote_addrs@.len(),
                remote_addrs@.len() * 2 <= MAX_SEND_WR,
                self.buf + (remote_addrs@.len() - 1) * local_stride + HALF_B_OFFSET <= u64::MAX,
                (remote_addrs@.len() - 1) * local_stride + HALF_B_OFFSET <= usize::MAX,
                wrs@.len() == 2 * i,
                forall|j: int|
                    #![trigger remote_addrs@[j]]
                    0 <= j < i ==> (wrs@[2 * j], wrs@[2 * j + 1]) == read_pair(
                        self.buf as int,
                        self.lkey,
                        j,
                        remote_addrs@[j],
                        local_stride as int,
                        len,
                        remote_rkey,
                    ),
            decreases remote_addrs@.len() - i,
        {
            assert(i * local_stride <= (remote_addrs@.len() - 1) * local_stride)
                by (nonlinear_arith)
                requires
                    i <= remote_addrs@.len() - 1,
                    local_stride >= 0,
            ;
            assert(i * local_stride >= 0) by (nonlinear_arith)
                requires
                    i >= 0,
                    local_stride >= 0,
            ;
            let base: usize = i * local_stride;
            let (addr_a, addr_b) = remote_addrs[i];
            let ghost before = wrs@;
            wrs.push(
                WorkRequest {
                    wr_id: i as u64,
                    opcode: Opcode::Read,
                    signaled: false,
                    local_addr: self.buf + base as u64,
                    len,
                    lkey: self.lkey,
                    remote_addr: addr_a,
                    remote_rkey,
                },
            );
            wrs.push(
                WorkRequest {
                    wr_id: i as u64,
                    opcode: Opcode::Read,
                    signaled: true,
                    local_addr: self.buf + (base + HALF_B_OFFSET) as u64,
                    len,
                    lkey: self.lkey,
                    remote_addr: addr_b,
                    remote_rkey,
                },
            );
            assert forall|j: int|
                #![trigger remote_addrs@[j]]
                0 <= j < i + 1 implies (wrs@[2 * j], wrs@[2 * j + 1]) == read_pair(
                self.buf as int,
                self.lkey,
                j,
                remote_addrs@[j],
                local_stride as int,
                len,
                remote_rkey,
            ) by {
                if j < i {
                    assert(wrs@[2 * j] == before[2 * j]);
                    assert(wrs@[2 * j + 1] == before[2 * j + 1]);
                }
            }
            i += 1;
        }
        wrs
    }

    /// One WRITE, unsignaled but for every 64th, which is signaled and waited for: so the send
    /// queue never fills up with writes of which nobody hears.
    pub fn post_write(
        &mut self,
        wr_id: u64,
        local_offset: u32,
        len: u32,
        remote_addr: u64,
        remote_rkey: u32,
    ) -> (post: WritePost)
        requires
            old(self).buf + local_offset <= u64::MAX,
        ensures
            final(self).inv(),
            final(self).unsignaled_count == count_after_write(old(self).unsignaled_count as nat),
            *final(self) == (RdmaContext {
                unsignaled_count: final(self).unsignaled_count,
                ..*old(self)
            }),
            post.drain == (old(self).unsignaled_count >= DRAIN_INTERVAL - 1),
            post.wr == old(self).transfer(
                Opcode::Write,
                post.drain,
                wr_id,
                local_offset as int,
                len,
                remote_addr,
                remote_rkey,
            ),
            post.drain <==> old(self).unsignaled_count >= 63,
            post.drain ==> final(self).unsignaled_count == 0,
            !post.drain ==> final(self).unsignaled_count == old(self).unsignaled_count + 1,
            (post.wr.wr_id, post.wr.opcode, post.wr.signaled) == (wr_id, Opcode::Write, post.drain),
            post.wr.local_addr == old(self).buf + local_offset,
            (post.wr.len, post.wr.lkey) == (len, old(self).lkey),
            (post.wr.remote_addr, post.wr.remote_rkey) == (remote_addr, remote_rkey),
    {
        let drain = self.unsignaled_count >= DRAIN_INTERVAL - 1;
        self.unsignaled_count = if drain {
            0
        } else {
            self.unsignaled_count + 1
        };
        let wr = WorkRequest {
            signaled: drain,
            ..self.post_write_signaled(wr_id, local_offset, len, remote_addr, remote_rkey)
        };
        WritePost { wr, drain }
    }

    /// One WRITE, signaled.
    pub fn post_write_signaled(
        &self,
        wr_id: u64,
        local_offset: u32,
        len: u32,
        remote_addr: u64,
        remote_rkey: u32,
    ) -> (wr: WorkRequest)
        requires
            self.buf + local_offset <= u64::MAX,
        ensures
            wr == self.transfer(
                Opcode::Write,
                true,
                wr_id,
                local_offset as int,
                len,
                remote_addr,
                remote_rkey,
            ),
            (wr.wr_id, wr.opcode, wr.signaled) == (wr_id, Opcode::Write, true),
            wr.local_addr == self.buf + local_offset,
            (wr.len, wr.lkey) == (len, self.lkey),
            (wr.remote_addr, wr.remote_rkey) == (remote_addr, remote_rkey),
    {
        WorkRequest {
            wr_id,
            opcode: Opcode::Write,
            signaled: true,
            local_addr: self.buf + local_offset as u64,
            len,
            lkey: self.lkey,
            remote_addr,
            remote_rkey,
        }
    }

    /// Begins to wait for one completion.
    pub fn poll_one(&self) -> (poll: Poll)
        ensures
            poll.inv(),
            poll.target == 1,
            poll.ids@ == Seq::<u64>::empty(),
    {
        self.poll_n(1)
    }

    /// Begins to wait for `target` completions.
    pub fn poll_n(&self, target: usize) -> (poll: Poll)
        ensures
            poll.inv(),
            poll.target == target,
            poll.ids@ == Seq::<u64>::empty(),
    {
        Poll { target, ids: Vec::new() }
    }
}

/// Completions on their way in.
pub struct Poll {
    /// How many are awaited.
    pub target: usize,
    /// The ids of those that have arrived, in the order of their arrival.
    pub ids: Vec<u64>,
}

/// The ids of some completions.
pub open spec fn ids_of(batch: Seq<Completion>) -> Seq<u64> {
    batch.map_values(|c: Completion| c.wr_id)
}

impl Poll {
    /// No more arrive than are awaited.
    pub open spec fn inv(&self) -> bool {
        self.ids@.len() <= self.target
    }

    /// Whether all have arrived.
    pub fn done(&self) -> (done: bool)
        requires
            self.inv(),
        ensures
            done == (self.ids@.len() == self.target),
    {
        self.ids.len() >= self.target
    }

    /// How many completions to fetch next: those that are missing, at most 32.
    pub fn want(&self) -> (n: usize)
        requires
            self.inv(),
        ensures
            n == vstd::math::min(self.target - self.ids@.len(), POLL_CHUNK as int),
            n <= 32,
            n == 0 <==> self.ids@.len() == self.target,
    {
        let missing: usize = self.target - self.ids.len();
        if missing < POLL_CHUNK {
            missing
        } else {
            POLL_CHUNK
        }
    }

    /// Takes the completions that were fetched. Fails on the first that reports an error, with its
    /// place among them; those before it are taken.
    pub fn take(&mut self, batch: &[Completion]) -> (outcome: Result<(), usize>)
        requires
            old(self).inv(),
            batch@.len() <= old(self).target - old(self).ids@.len(),
        ensures
            final(self).inv(),
            final(self).target == old(self).target,
            match outcome {
                Ok(_) => {
                    &&& forall|i: int| 0 <= i < batch@.len() ==> (#[trigger] batch@[i]).ok
                    &&& final(self).ids@ == old(self).ids@ + ids_of(batch@)
                },
                Err(bad) => {
                    &&& bad < batch@.len()
                    &&& !batch@[bad as int].ok
                    &&& forall|i: int| 0 <= i < bad ==> (#[trigger] batch@[i]).ok
                    &&& final(self).ids@ == old(self).ids@ + ids_of(batch@.take(bad as int))
                },
            },
            ({
                let n = old(self).ids@.len();
                let taken = match outcome {
                    Ok(_) => batch@.len() as int,
                    Err(bad) => bad as int,
                };
                &&& final(self).ids@.len() == n + taken
                &&& final(self).ids@.take(n as int) == old(self).ids@
                &&& forall|i: int|
                    #![trigger batch@[i]]
                    0 <= i < taken ==> final(self).ids@[n + i] == batch@[i].wr_id
            }),
    {
        let mut i: usize = 0;
        assert(old(self).ids@ + ids_of(batch@.take(0)) =~= old(self).ids@);
        while i < batch.len()
            invariant
                i <= batch@.len(),
                self.target == old(self).target,
                batch@.len() <= old(self).target - old(self).ids@.len(),
                forall|j: int| 0 <= j < i ==> (#[trigger] batch@[j]).ok,
                self.ids@ == old(self).ids@ + ids_of(batch@.take(i as int)),
            decreases batch@.len() - i,
        {
            let completion = batch[i];
            if !completion.ok {
                assert(self.ids@.take(old(self).ids@.len() as int) =~= old(self).ids@);
                return Err(i);
            }
            self.ids.push(completion.wr_id);
            assert(self.ids@ =~= old(self).ids@ + ids_of(batch@.take(i + 1)));
            i += 1;
        }
        assert(batch@.take(batch@.len() as int) =~= batch@);
        assert(self.ids@.take(old(self).ids@.len() as int) =~= old(self).ids@);
        Ok(())
    }
}

/// Of the writes of an endpoint, numbered from zero, exactly those whose number leaves 63 when
/// divided by 64 are signaled; in between, fewer than 64 go unsignaled, half of what the send
/// queue holds.
pub proof fn law_every_64th_write_drains(n: nat)
    ensures
        count_after(n) == n % 64,
        count_after(n) >= DRAIN_INTERVAL - 1 <==> n % 64 == 63,
        2 * count_after(n) < MAX_SEND_WR,
    decreases n,
{
    if n > 0 {
        law_every_64th_write_drains((n - 1) as nat);
    }
}

/// The completions that a batch of GETs owes: one for each GET, with its number, in order.
pub proof fn law_batch_owes_one_completion_per_get(
    wrs: Seq<WorkRequest>,
    buf: int,
    lkey: u32,
    remote_addrs: Seq<(u64, u64)>,
    local_stride: int,
    len: u32,
    remote_rkey: u32,
)
    requires
        wrs.len() == 2 * remote_addrs.len(),
        remote_addrs.len() <= u64::MAX,
        forall|i: int|
            #![trigger remote_addrs[i]]
            0 <= i < remote_addrs.len() ==> (wrs[2 * i], wrs[2 * i + 1]) == read_pair(
                buf,
                lkey,
                i,
                remote_addrs[i],
                local_stride,
                len,
                remote_rkey,
            ),
    ensures
        forall|k: int|
            #![trigger wrs[k]]
            0 <= k < wrs.len() ==> wrs[k].signaled == (k % 2 == 1) && wrs[k].wr_id == k / 2,
{
    assert forall|k: int| #![trigger wrs[k]] 0 <= k < wrs.len() implies wrs[k].signaled == (k % 2
        == 1) && wrs[k].wr_id == k / 2 by {
        let pair = remote_addrs[k / 2];
    }
}

/// The two reads of GET `i` go by its number, to local memory at `i * local_stride` and 64 bytes
/// behind it, from the two addresses of the GET, in this order; only the second reports its
/// completion.
pub proof fn law_read_pair_fetches_both_slots(
    buf: int,
    lkey: u32,
    i: int,
    addrs: (u64, u64),
    local_stride: int,
    len: u32,
    remote_rkey: u32,
)
    requires
        0 <= i <= u64::MAX,
        0 <= buf + i * local_stride,
        buf + i * local_stride + 64 <= u64::MAX,
    ensures
        ({
            let (a, b) = read_pair(buf, lkey, i, addrs, local_stride, len, remote_rkey);
            &&& a.wr_id == i && b.wr_id == i
            &&& a.opcode == Opcode::Read && b.opcode == Opcode::Read
            &&& !a.signaled && b.signaled
            &&& a.local_addr == buf + i * local_stride
            &&& b.local_addr == a.local_addr + 64
            &&& (a.remote_addr, b.remote_addr) == addrs
            &&& a.len == len && b.len == len
            &&& a.lkey == lkey && b.lkey == lkey
            &&& a.remote_rkey == remote_rkey && b.remote_rkey == remote_rkey
        }),
{
}

/// A transfer is what it is asked to be, at an address of local memory that the offset counts from
/// the start of the buffer.
pub proof fn law_transfer_is_as_asked(
    ctx: &RdmaContext,
    opcode: Opcode,
    signaled: bool,
    wr_id: u64,
    local_offset: int,
    len: u32,
    remote_addr: u64,
    remote_rkey: u32,
)
    requires
        0 <= local_offset,
        ctx.buf + local_offset <= u64::MAX,
    ensures
        ({
            let wr = ctx.transfer(
                opcode,
                signaled,
                wr_id,
                local_offset,
                len,
                remote_addr,
                remote_rkey,
            );
            &&& (wr.opcode, wr.signaled, wr.wr_id) == (opcode, signaled, wr_id)
            &&& wr.local_addr - ctx.buf == local_offset
            &&& (wr.len, wr.lkey) == (len, ctx.lkey)
            &&& (wr.remote_addr, wr.remote_rkey) == (remote_addr, remote_rkey)
        }),
{
}

} // verus!
