//! The control channel: what two peers tell each other before they go one-sided, and how a
//! message is framed. A message is one line of JSON.

use vstd::prelude::*;

use crate::rdma_context::RdmaContext;

verus! {

/// All that a peer needs to read and write an endpoint's memory.
#[derive(Debug, Clone, Copy)]
pub struct PeerInfo {
    pub qpn: u32,
    pub lid: u16,
    pub gid: [u8; 16],
    pub rkey: u32,
    pub addr: u64,
    pub addr_b: u64,
    pub len: u64,
    pub msgbuf_addr: u64,
    pub msgbuf_rkey: u32,
}

impl PeerInfo {
    /// What an endpoint tells of itself. It offers no message buffer.
    pub fn from_ctx(ctx: &RdmaContext) -> (info: Self)
        ensures
            info == (PeerInfo {
                qpn: ctx.qpn,
                lid: ctx.lid,
                gid: ctx.gid,
                rkey: ctx.rkey,
                addr: ctx.buf,
                addr_b: 0,
                len: ctx.buf_len as u64,
                msgbuf_addr: 0,
                msgbuf_rkey: 0,
            }),
    {
        PeerInfo {
            qpn: ctx.qpn,
            lid: ctx.lid,
            gid: ctx.gid,
            rkey: ctx.rkey,
            addr: ctx.buf,
            addr_b: 0,
            len: ctx.buf_len as u64,
            msgbuf_addr: 0,
            msgbuf_rkey: 0,
        }
    }
}

/// What an endpoint sends in a handshake: what it tells of itself, and the message buffer.
pub fn greeting(ctx: &RdmaContext, msgbuf_addr: u64, msgbuf_rkey: u32) -> (info: PeerInfo)
    ensures
        info == (PeerInfo {
            qpn: ctx.qpn,
            lid: ctx.lid,
            gid: ctx.gid,
            rkey: ctx.rkey,
            addr: ctx.buf,
            addr_b: 0,
            len: ctx.buf_len as u64,
            msgbuf_addr,
            msgbuf_rkey,
        }),
{
    PeerInfo { msgbuf_addr, msgbuf_rkey, ..PeerInfo::from_ctx(ctx) }
}

/// A message as it is sent: a line.
pub open spec fn framed(message: Seq<u8>) -> Seq<u8> {
    message.push(10)
}

/// Ends a message with a newline.
pub fn frame(message: Vec<u8>) -> (line: Vec<u8>)
    ensures
        line@ == framed(message@),
{
    let mut line = message;
    line.push(10);
    line
}

/// Where the first newline stands, or the length of `bytes` if there is none.
pub open spec fn newline_at(bytes: Seq<u8>) -> int
    decreases bytes.len(),
{
    if bytes.len() == 0 || bytes[0] == 10 {
        0
    } else {
        1 + newline_at(bytes.skip(1))
    }
}

/// The first line of `bytes`, without the newline, or carriage return and newline, that ends it.
/// There is none in no bytes at all.
pub open spec fn first_line(bytes: Seq<u8>) -> Option<Seq<u8>> {
    let end = newline_at(bytes);
    if bytes.len() == 0 {
        None
    } else if end < bytes.len() && end > 0 && bytes[end - 1] == 13 {
        Some(bytes.take(end - 1))
    } else {
        Some(bytes.take(end))
    }
}

/// The first newline, stated without recursion.
pub proof fn lemma_newline_at(bytes: Seq<u8>)
    ensures
        0 <= newline_at(bytes) <= bytes.len(),
        newline_at(bytes) < bytes.len() ==> bytes[newline_at(bytes)] == 10,
        forall|i: int| 0 <= i < newline_at(bytes) ==> bytes[i] != 10,
    decreases bytes.len(),
{
    if bytes.len() > 0 && bytes[0] != 10 {
        let rest = bytes.skip(1);
        lemma_newline_at(rest);
        assert forall|i: int| 0 <= i < newline_at(bytes) implies bytes[i] != 10 by {
            if i > 0 {
                assert(rest[i - 1] == bytes[i]);
            }
        }
    }
}

/// Takes the message out of what was received.
pub fn unframe(received: &[u8]) -> (message: Option<Vec<u8>>)
    ensures
        match message {
            Some(m) => first_line(received@) == Some(m@),
            None => first_line(received@) is None,
        },
{
    if received.len() == 0 {
        return None;
    }
    let mut message: Vec<u8> = Vec::new();
    let mut end: usize = 0;
    proof {
        lemma_newline_at(received@);
    }
    assert(message@ =~= received@.take(0));
    while end < received.len() && received[end] != 10
        invariant
            end <= received@.len(),
            message@ == received@.take(end as int),
            end <= newline_at(received@) <= received@.len(),
            newline_at(received@) < received@.len() ==> received@[newline_at(received@)] == 10,
        decreases received@.len() - end,
    {
        message.push(received[end]);
        assert(message@ =~= received@.take(end + 1));
        end += 1;
    }
    assert(end == newline_at(received@));
    if end < received.len() && end > 0 && received[end - 1] == 13 {
        let _cr: Option<u8> = message.pop();
        assert(message@ =~= received@.take(end - 1));
    }
    Some(message)
}

/// A message without newlines that does not end in a carriage return comes out of its frame as it
/// went in, whatever is received behind it.
pub proof fn law_unframe_undoes_frame(message: Seq<u8>, behind: Seq<u8>)
    requires
        !message.contains(10),
        message.len() > 0 ==> message.last() != 13,
    ensures
        first_line(framed(message) + behind) == Some(message),
{
    let bytes = framed(message) + behind;
    lemma_newline_at(bytes);
    let end = newline_at(bytes);
    let n = message.len() as int;
    assert(bytes[n] == 10);
    if end < n {
        assert(bytes[end] == message[end]);
        assert(message.contains(10));
    }
    assert(end == n);
    assert(bytes.take(n) =~= message);
    if n > 0 {
        assert(bytes[n - 1] == message[n - 1]);
    }
}

/// What the first line of some bytes is: all up to the first newline, without a carriage return
/// right before it; all of the bytes, where there is no newline; and nothing of no bytes.
pub proof fn law_first_line_ends_at_the_first_newline(bytes: Seq<u8>, p: int)
    ensures
        bytes.len() == 0 ==> first_line(bytes) is None,
        bytes.len() > 0 && !bytes.contains(10) ==> first_line(bytes) == Some(bytes),
        0 <= p < bytes.len() && bytes[p] == 10 && !bytes.take(p).contains(10) ==> first_line(bytes)
            == Some(
            if p > 0 && bytes[p - 1] == 13 {
                bytes.take(p - 1)
            } else {
                bytes.take(p)
            },
        ),
{
    lemma_newline_at(bytes);
    let end = newline_at(bytes);
    if bytes.len() > 0 && !bytes.contains(10) {
        assert(end == bytes.len());
        assert(bytes.take(end) =~= bytes);
    }
    if 0 <= p < bytes.len() && bytes[p] == 10 && !bytes.take(p).contains(10) {
        if end < p {
            assert(bytes.take(p)[end] == 10);
        }
        assert(end == p);
    }
}

/// A message goes out as it is, with a newline behind it.
pub proof fn law_frame_adds_one_newline(message: Seq<u8>)
    ensures
        framed(message).len() == message.len() + 1,
        framed(message).take(message.len() as int) == message,
        framed(message).last() == 10,
{
    assert(framed(message).take(message.len() as int) =~= message);
}

} // verus!
