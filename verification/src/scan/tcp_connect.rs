//! TCP reachability probe: connect, bounded by a timeout, then close.

use crate::ring::{EntryInfo, RingAllocator, TargetAddr};
use crate::scan::{
    check_op_supported, close_raw_fd, new_tcp_socket, CompletionOutcome, Hit, HitDetail, Op,
    OpKind, Scan, TimeoutKind, Timeouts, OP_CLOSE, OP_CONNECT, OP_LINK_TIMEOUT,
};
use vstd::prelude::*;

verus! {

/// Position of an operation in the TCP-connect chain.
#[derive(Clone, Copy, PartialEq, Eq, Structural, Debug)]
pub enum EntryStep {
    Connect,
    ConnectTimeout,
    Close,
}

/// The step a stored tag denotes.
pub open spec fn step_of(v: u8) -> EntryStep {
    if v == 0 {
        EntryStep::Connect
    } else if v == 1 {
        EntryStep::ConnectTimeout
    } else {
        EntryStep::Close
    }
}

impl EntryStep {
    /// Decodes a stored step tag.
    pub fn from(v: u8) -> (r: Self)
        requires
            v < 3,
        ensures
            r == step_of(v),
    {
        if v == 0 {
            EntryStep::Connect
        } else if v == 1 {
            EntryStep::ConnectTimeout
        } else {
            EntryStep::Close
        }
    }
}

/// The connection result that denotes a cancelled operation (`ECANCELED`,
/// as the kernel reports it: negated).
pub const ECANCELED_NEG: i32 = -125;

/// A target address packed into one integer, for the duplicate-hit set.
pub open spec fn pack_addr(a: TargetAddr) -> u64 {
    ((a.ip as int) * 0x10000 + (a.port as int)) as u64
}

/// Milliseconds elapsed between two timestamps, clamped at zero.
pub open spec fn elapsed_spec(now_ms: u64, start: u64) -> u64 {
    if now_ms >= start {
        (now_ms - start) as u64
    } else {
        0
    }
}

/// The TCP-connect capability. Remembers the targets already reported so a
/// target never produces two log lines.
pub struct ScanTcpConnect {
    seen: Vec<u64>,
}

impl ScanTcpConnect {
    /// The packed addresses already reported.
    pub closed spec fn seen_set(self) -> Set<u64> {
        self.seen@.to_set()
    }

    pub fn new() -> (r: Self)
        ensures
            r.seen_set() == Set::<u64>::empty(),
    {
        let r = ScanTcpConnect { seen: Vec::new() };
        proof {
            assert(r.seen@.to_set() =~= Set::<u64>::empty());
        }
        r
    }

    /// Whether `key` was already reported.
    fn seen_contains(&self, key: u64) -> (r: bool)
        ensures
            r == self.seen_set().contains(key),
    {
        let mut k: usize = 0;
        while k < self.seen.len()
            invariant
                k <= self.seen@.len(),
                forall|i: int| 0 <= i < k ==> self.seen@[i] != key,
            decreases self.seen@.len() - k,
        {
            if self.seen[k] == key {
                proof {
                    assert(self.seen@.contains(key));
                }
                return true;
            }
            k += 1;
        }
        proof {
            if self.seen@.to_set().contains(key) {
                let i = choose|i: int| 0 <= i < self.seen@.len() && self.seen@[i] == key;
            }
        }
        false
    }
}

impl Scan for ScanTcpConnect {
    open spec fn required_op_set(&self) -> Set<u8> {
        set![OP_CONNECT, OP_LINK_TIMEOUT, OP_CLOSE]
    }

    open spec fn ops_per_ip_spec(&self) -> int {
        3
    }

    open spec fn tx_size_spec(&self) -> Option<nat> {
        None
    }

    open spec fn entry_inv(&self, e: EntryInfo) -> bool {
        e.step < 3 && e.buf is None
    }

    open spec fn finalises(&self, step: u8) -> bool {
        step == 2
    }

    open spec fn chain_ok(
        &self,
        ops: Seq<Op>,
        sckt: i32,
        addr: TargetAddr,
        timeouts: Timeouts,
        v: crate::ring::RingView,
    ) -> bool {
        &&& ops.len() == 3
        &&& (ops[0].kind matches OpKind::Connect { addr: a } && a == addr)
        &&& (ops[1].kind matches OpKind::LinkTimeout { kind: TimeoutKind::Connect, secs } && secs
            == timeouts.connect)
        &&& ops[2].kind is Close
    }

    open spec fn hit_ok(
        &self,
        result: i32,
        e: EntryInfo,
        rx: Seq<u8>,
        now_ms: u64,
        hit: Option<Hit>,
    ) -> bool {
        if e.step == 0 && result == 0 && !self.seen_set().contains(pack_addr(e.ip)) {
            &&& hit is Some
            &&& hit.unwrap().addr == e.ip
            &&& hit.unwrap().detail matches HitDetail::ConnectOk { elapsed_ms } && elapsed_ms
                == elapsed_spec(now_ms, e.start)
        } else {
            hit is None
        }
    }

    fn check_supported(&self, probe: &io_uring::Probe) -> (r: bool) {
        check_op_supported(probe, OP_CONNECT) && check_op_supported(probe, OP_LINK_TIMEOUT)
            && check_op_supported(probe, OP_CLOSE)
    }

    fn missing_op(&self, probe: &io_uring::Probe) -> (r: Option<u8>) {
        if !check_op_supported(probe, OP_CONNECT) {
            Some(OP_CONNECT)
        } else if !check_op_supported(probe, OP_LINK_TIMEOUT) {
            Some(OP_LINK_TIMEOUT)
        } else if !check_op_supported(probe, OP_CLOSE) {
            Some(OP_CLOSE)
        } else {
            None
        }
    }

    fn max_tx_size(&mut self) -> (r: Option<usize>) {
        None
    }

    fn ops_per_ip(&self) -> (r: usize) {
        3
    }

    fn socket(&self) -> (r: Result<i32, i32>) {
        new_tcp_socket()
    }

    fn push_scan_ops(
        &mut self,
        sckt: i32,
        addr: &TargetAddr,
        allocator: &mut RingAllocator,
        timeouts: &Timeouts,
        now_ms: u64,
    ) -> (ops: Vec<Op>) {
        let e0 = EntryInfo { ip: *addr, step: 0, buf: None, fd: sckt, start: now_ms };
        let id0 = allocator.alloc_entry(e0).unwrap();
        let e1 = EntryInfo { ip: *addr, step: 1, buf: None, fd: sckt, start: now_ms };
        let id1 = allocator.alloc_entry(e1).unwrap();
        let e2 = EntryInfo { ip: *addr, step: 2, buf: None, fd: sckt, start: now_ms };
        let id2 = allocator.alloc_entry(e2).unwrap();
        let mut ops: Vec<Op> = Vec::new();
        ops.push(
            Op { user_data: id0, fd: sckt, linked: true, kind: OpKind::Connect { addr: *addr } },
        );
        ops.push(
            Op {
                user_data: id1,
                fd: sckt,
                linked: true,
                kind: OpKind::LinkTimeout { kind: TimeoutKind::Connect, secs: timeouts.connect },
            },
        );
        ops.push(Op { user_data: id2, fd: sckt, linked: false, kind: OpKind::Close });
        proof {
            assert forall|j: int|
                #[trigger] allocator@.allocated(j) && !old(allocator)@.allocated(j) implies exists|
                i: int,
            | 0 <= i < ops@.len() && (#[trigger] ops@[i]).user_data == j by {
                if j == id0 as int {
                    assert(ops@[0].user_data == id0);
                } else if j == id1 as int {
                    assert(ops@[1].user_data == id1);
                } else {
                    assert(j == id2 as int);
                    assert(ops@[2].user_data == id2);
                }
            }
        }
        ops
    }

    fn process_completed_entry(
        &mut self,
        result: i32,
        info: &EntryInfo,
        rx: &[u8],
        now_ms: u64,
    ) -> (r: CompletionOutcome)
        ensures
            final(self).seen_set() == (if r.hit is Some {
                old(self).seen_set().insert(pack_addr(info.ip))
            } else {
                old(self).seen_set()
            }),
    {
        let step = EntryStep::from(info.step);
        match step {
            EntryStep::Connect => {
                let key = (info.ip.ip as u64) * 0x10000 + (info.ip.port as u64);
                if result == 0 && !self.seen_contains(key) {
                    let elapsed: u64 = if now_ms >= info.start {
                        now_ms - info.start
                    } else {
                        0
                    };
                    self.seen.push(key);
                    proof {
                        let ns = self.seen@;
                        let os = old(self).seen@;
                        assert forall|x: u64| ns.to_set().contains(x) implies os.to_set().insert(
                            key,
                        ).contains(x) by {
                            let i = choose|i: int| 0 <= i < ns.len() && ns[i] == x;
                            if i < os.len() {
                                assert(os[i] == x);
                            }
                        }
                        assert forall|x: u64| os.to_set().insert(key).contains(x) implies ns.to_set(
                        ).contains(x) by {
                            if x == key {
                                assert(ns[ns.len() - 1] == x);
                            } else {
                                let i = choose|i: int| 0 <= i < os.len() && os[i] == x;
                                assert(ns[i] == x);
                            }
                        }
                        assert(ns.to_set() =~= os.to_set().insert(key));
                    }
                    CompletionOutcome {
                        done: false,
                        hit: Some(
                            Hit {
                                addr: info.ip,
                                detail: HitDetail::ConnectOk { elapsed_ms: elapsed },
                            },
                        ),
                    }
                } else {
                    CompletionOutcome { done: false, hit: None }
                }
            },
            EntryStep::ConnectTimeout => CompletionOutcome { done: false, hit: None },
            EntryStep::Close => {
                if result == ECANCELED_NEG {
                    close_raw_fd(info.fd);
                }
                CompletionOutcome { done: true, hit: None }
            },
        }
    }
}

} // verus!
