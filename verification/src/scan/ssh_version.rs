//! SSH banner probe: connect, read the server's greeting line, close.

use crate::lines::{leading_line_trimmed, line_end, trim_ascii};
use crate::ring::{BufferDirection, BufferInfo, EntryInfo, RingAllocator, TargetAddr};
use crate::ring::lemma_buffer_headroom;
use crate::scan::{
    check_op_supported, close_raw_fd, new_tcp_socket, CompletionOutcome, Hit, HitDetail, Op,
    OpKind, Scan, TimeoutKind, Timeouts, OP_CLOSE, OP_CONNECT, OP_LINK_TIMEOUT, OP_RECV,
};
use vstd::prelude::*;

verus! {

/// The banner worth reporting, if any: the leading line of the received
/// bytes, ASCII-trimmed, when it starts with the ASCII bytes `SSH-`.
pub open spec fn banner_spec(s: Seq<u8>) -> Option<Seq<u8>> {
    let t = trim_ascii(s.take(line_end(s)));
    if t.len() >= 4 && t[0] == 0x53 && t[1] == 0x53 && t[2] == 0x48 && t[3] == 0x2D {
        Some(t)
    } else {
        None
    }
}

/// The SSH-banner capability.
pub struct ScanSshVersion {}

impl ScanSshVersion {
    pub fn new() -> (r: Self) {
        ScanSshVersion {  }
    }
}

impl Scan for ScanSshVersion {
    open spec fn required_op_set(&self) -> Set<u8> {
        set![OP_CONNECT, OP_LINK_TIMEOUT, OP_RECV, OP_CLOSE]
    }

    open spec fn ops_per_ip_spec(&self) -> int {
        5
    }

    open spec fn tx_size_spec(&self) -> Option<nat> {
        None
    }

    open spec fn entry_inv(&self, e: EntryInfo) -> bool {
        e.step < 5 && (e.step == 2 <==> e.buf is Some)
    }

    open spec fn finalises(&self, step: u8) -> bool {
        step == 4
    }

    open spec fn chain_ok(
        &self,
        ops: Seq<Op>,
        sckt: i32,
        addr: TargetAddr,
        timeouts: Timeouts,
        v: crate::ring::RingView,
    ) -> bool {
        &&& ops.len() == 5
        &&& (ops[0].kind matches OpKind::Connect { addr: a } && a == addr)
        &&& (ops[1].kind matches OpKind::LinkTimeout { kind: TimeoutKind::Connect, secs } && secs
            == timeouts.connect)
        &&& (ops[2].kind matches OpKind::Recv { buf_idx, len } && len as nat == v.rx_size
            && v.owns_buf(ops[2].user_data as int, buf_idx as int))
        &&& (ops[3].kind matches OpKind::LinkTimeout { kind: TimeoutKind::Read, secs } && secs
            == timeouts.read)
        &&& ops[4].kind is Close
    }

    open spec fn hit_ok(
        &self,
        result: i32,
        e: EntryInfo,
        rx: Seq<u8>,
        now_ms: u64,
        hit: Option<Hit>,
    ) -> bool {
        if e.step == 2 && result > 0 && banner_spec(rx) is Some {
            &&& hit is Some
            &&& hit.unwrap().addr == e.ip
            &&& hit.unwrap().detail matches HitDetail::SshBanner { line } && line@ == banner_spec(
                rx,
            ).unwrap()
        } else {
            hit is None
        }
    }

    fn check_supported(&self, probe: &io_uring::Probe) -> (r: bool) {
        check_op_supported(probe, OP_CONNECT) && check_op_supported(probe, OP_LINK_TIMEOUT)
            && check_op_supported(probe, OP_RECV) && check_op_supported(probe, OP_CLOSE)
    }

    fn missing_op(&self, probe: &io_uring::Probe) -> (r: Option<u8>) {
        if !check_op_supported(probe, OP_CONNECT) {
            Some(OP_CONNECT)
        } else if !check_op_supported(probe, OP_LINK_TIMEOUT) {
            Some(OP_LINK_TIMEOUT)
        } else if !check_op_supported(probe, OP_RECV) {
            Some(OP_RECV)
        } else if !check_op_supported(probe, OP_CLOSE) {
            Some(OP_CLOSE)
        } else {
            None
        }
    }

    fn max_tx_size(&mut self) -> (r: Option<usize>) {
        None
    }

    fn ops_per_ip(&self) -> (r: usize) {
        5
    }

    fn socket(&self) -> (r: Result<i32, i32>) {
        new_tcp_socket()
    }

    fn push_scan_ops(
        &mut self,
        sckt: i32,
        addr: &TargetAddr,
        allocator: &mut RingAllocator,
        timeouts: &Timeouts,
        now_ms: u64,
    ) -> (ops: Vec<Op>) {
        let e0 = EntryInfo { ip: *addr, step: 0, buf: None, fd: sckt, start: now_ms };
        let id0 = allocator.alloc_entry(e0).unwrap();
        let e1 = EntryInfo { ip: *addr, step: 1, buf: None, fd: sckt, start: now_ms };
        let id1 = allocator.alloc_entry(e1).unwrap();
        proof {
            lemma_buffer_headroom(allocator@);
        }
        let buf = allocator.alloc_buf(BufferDirection::RX, None);
        let e2 = EntryInfo {
            ip: *addr,
            step: 2,
            buf: Some(BufferInfo { idx: buf.idx, direction: BufferDirection::RX }),
            fd: sckt,
            start: now_ms,
        };
        let id2 = allocator.alloc_entry(e2).unwrap();
        let e3 = EntryInfo { ip: *addr, step: 3, buf: None, fd: sckt, start: now_ms };
        let id3 = allocator.alloc_entry(e3).unwrap();
        let e4 = EntryInfo { ip: *addr, step: 4, buf: None, fd: sckt, start: now_ms };
        let id4 = allocator.alloc_entry(e4).unwrap();
        let mut ops: Vec<Op> = Vec::new();
        ops.push(
            Op { user_data: id0, fd: sckt, linked: true, kind: OpKind::Connect { addr: *addr } },
        );
        ops.push(
            Op {
                user_data: id1,
                fd: sckt,
                linked: true,
                kind: OpKind::LinkTimeout { kind: TimeoutKind::Connect, secs: timeouts.connect },
            },
        );
        ops.push(
            Op {
                user_data: id2,
                fd: sckt,
                linked: true,
                kind: OpKind::Recv { buf_idx: buf.idx, len: buf.len },
            },
        );
        ops.push(
            Op {
                user_data: id3,
                fd: sckt,
                linked: true,
                kind: OpKind::LinkTimeout { kind: TimeoutKind::Read, secs: timeouts.read },
            },
        );
        ops.push(Op { user_data: id4, fd: sckt, linked: false, kind: OpKind::Close });
        proof {
            assert forall|j: int|
                #[trigger] allocator@.allocated(j) && !old(allocator)@.allocated(j) implies exists|
                i: int,
            | 0 <= i < ops@.len() && (#[trigger] ops@[i]).user_data == j by {
                if j == id0 as int {
                    assert(ops@[0].user_data == id0);
                } else if j == id1 as int {
                    assert(ops@[1].user_data == id1);
                } else if j == id2 as int {
                    assert(ops@[2].user_data == id2);
                } else if j == id3 as int {
                    assert(ops@[3].user_data == id3);
                } else {
                    assert(j == id4 as int);
                    assert(ops@[4].user_data == id4);
                }
            }
        }
        ops
    }

    fn process_completed_entry(
        &mut self,
        result: i32,
        info: &EntryInfo,
        rx: &[u8],
        now_ms: u64,
    ) -> (r: CompletionOutcome) {
        if info.step == 2 {
            if result > 0 {
                let line = leading_line_trimmed(rx);
                let is_banner = line.len() >= 4 && line[0] == 0x53 && line[1] == 0x53 && line[2]
                    == 0x48 && line[3] == 0x2D;
                if is_banner {
                    return CompletionOutcome {
                        done: false,
                        hit: Some(
                            Hit { addr: info.ip, detail: HitDetail::SshBanner { line } },
                        ),
                    };
                }
            }
            CompletionOutcome { done: false, hit: None }
        } else if info.step == 4 {
            if result == crate::scan::tcp_connect::ECANCELED_NEG {
                close_raw_fd(info.fd);
            }
            CompletionOutcome { done: true, hit: None }
        } else {
            CompletionOutcome { done: false, hit: None }
        }
    }
}

} // verus!
