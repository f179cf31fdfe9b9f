//! Decisions of the submission/completion drive loop.
//!
//! The engine owns the slot pool, the host enumeration and the active scan
//! capability. The thin binary around it performs the kernel calls: it asks
//! the engine whether a chain may start (the admission gate), pushes the
//! operations the engine builds, waits for completions, and hands each one
//! back with its received bytes. Every decision — when to admit a chain,
//! how many completions to wait for, when the scan is finished, and what a
//! completion means — is made here.

use crate::ip_source::{canonical, lemma_canonical_total_bound, ranges_seq, HostIter, HostRange};
use crate::ring::{lemma_slot_conservation, EntryInfo, RingAllocator, RingView, TargetAddr};
use crate::scan::{can_push, CompletionOutcome, Op, Scan, Timeouts};
use vstd::prelude::*;
use vstd::set_lib::*;

verus! {

/// The ring-driven scan engine.
pub struct ScanEngine<S: Scan> {
    scan: S,
    allocator: RingAllocator,
    hosts: HostIter,
    port: u16,
    timeouts: Timeouts,
    chains_issued: u64,
    total: Ghost<int>,
}

impl<S: Scan> ScanEngine<S> {
    /// The pool's mathematical state.
    pub closed spec fn pool(self) -> RingView {
        self.allocator@
    }

    /// The active capability.
    pub closed spec fn scanner(self) -> S {
        self.scan
    }

    /// Hosts not yet given a chain, in enumeration order.
    pub closed spec fn remaining_hosts(self) -> Seq<int> {
        self.hosts.remaining()
    }

    /// Chains issued so far.
    pub closed spec fn issued(self) -> u64 {
        self.chains_issued
    }

    /// Number of hosts the enumeration started with.
    pub closed spec fn total_hosts(self) -> int {
        self.total@
    }

    /// The target port of every chain.
    pub closed spec fn port_spec(self) -> u16 {
        self.port
    }

    /// The configured per-phase timeouts.
    pub closed spec fn timeouts_spec(self) -> Timeouts {
        self.timeouts
    }

    /// Slots one chain consumes.
    pub open spec fn ops_per_chain(self) -> int {
        self.scanner().ops_per_ip_spec()
    }

    /// Engine invariant: the pool is well-formed and fully accounted, every
    /// allocated slot holds a payload the capability recognises, and chains
    /// issued plus hosts remaining add up to the enumeration's total.
    pub closed spec fn wf(self) -> bool {
        &&& self.allocator@.wf()
        &&& self.allocator@.buf_complete()
        &&& self.hosts.wf()
        &&& self.allocator@.tx_size == self.scan.tx_size_spec()
        &&& (forall|j: int|
            #[trigger] self.allocator@.allocated(j) ==> self.scan.entry_inv(
                self.allocator@.entry(j),
            ))
        &&& self.chains_issued as int + self.hosts.remaining().len() == self.total@
        &&& 0 <= self.total@ <= 0x1_0000_0000
    }

    /// The admission gate together with an available host.
    pub open spec fn can_start_spec(self, sq_free: int) -> bool {
        &&& self.remaining_hosts().len() > 0
        &&& self.pool().free_entries.len() >= self.ops_per_chain()
        &&& sq_free >= self.ops_per_chain()
    }

    /// Assembles an engine over a fresh pool and a canonical host-range
    /// list.
    pub fn new(
        scan: S,
        allocator: RingAllocator,
        ranges: Vec<HostRange>,
        port: u16,
        timeouts: Timeouts,
    ) -> (r: Self)
        requires
            canonical(ranges@),
            allocator@.wf(),
            allocator@.buf_complete(),
            allocator@.tx_size == scan.tx_size_spec(),
            allocator@.free_entries.len() == allocator@.cap(),
        ensures
            r.wf(),
            r.remaining_hosts() == ranges_seq(ranges@),
            r.issued() == 0,
            r.total_hosts() == ranges_seq(ranges@).len(),
            r.scanner() == scan,
            r.pool() == allocator@,
            r.port_spec() == port,
    {
        proof {
            lemma_canonical_total_bound(ranges@);
            lemma_slot_conservation(allocator@);
            allocator@.allocated_set().lemma_len0_is_empty();
            assert(forall|j: int|
                #[trigger] allocator@.allocated(j) ==> allocator@.allocated_set().contains(j));
        }
        let ghost total = ranges_seq(ranges@).len() as int;
        let hosts = HostIter::new(ranges);
        ScanEngine { scan, allocator, hosts, port, timeouts, chains_issued: 0, total: Ghost(total) }
    }

    /// Whether the submission queue and pool leave room for a full chain
    /// and a host is waiting: the fill phase runs while this holds.
    pub fn can_start(&self, sq_free: usize) -> (r: bool)
        requires
            self.wf(),
        ensures
            r == self.can_start_spec(sq_free as int),
    {
        self.hosts.has_next() && can_push(sq_free, &self.scan, &self.allocator)
    }

    /// Creates a socket for the next chain: on success a non-negative file
    /// descriptor, otherwise the errno, non-positive.
    pub fn new_socket(&self) -> (r: Result<i32, i32>)
        ensures
            (r matches Ok(fd) ==> fd >= 0),
            (r matches Err(e) ==> e <= 0),
    {
        self.scan.socket()
    }

    /// Pool capacity, for the caller's own bookkeeping.
    pub fn capacity(&self) -> (r: usize)
        ensures
            r as int == self.pool().cap(),
    {
        self.allocator.capacity()
    }

    /// Starts the chain for the next host on socket `sckt`: reserves the
    /// slots and buffers and returns the linked operations to submit, every
    /// one tagged with its fresh slot id.
    pub fn start_chain(&mut self, sckt: i32, sq_free: usize, now_ms: u64) -> (ops: Vec<Op>)
        requires
            old(self).wf(),
            old(self).can_start_spec(sq_free as int),
        ensures
            final(self).wf(),
            final(self).scanner() == old(self).scanner(),
            final(self).remaining_hosts() == old(self).remaining_hosts().drop_first(),
            final(self).issued() == old(self).issued() + 1,
            final(self).total_hosts() == old(self).total_hosts(),
            final(self).port_spec() == old(self).port_spec(),
            final(self).pool().allocated_count() == old(self).pool().allocated_count() + old(
                self,
            ).ops_per_chain(),
            ops@.len() == old(self).ops_per_chain(),
            (forall|i: int| 0 <= i < ops@.len() ==> (#[trigger] ops@[i]).fd == sckt),
            (forall|i: int| 0 <= i < ops@.len() - 1 ==> (#[trigger] ops@[i]).linked),
            ops@.last().linked == false,
            ops@.last().kind is Close,
            (forall|i: int, j: int|
                0 <= i < j < ops@.len() ==> (#[trigger] ops@[i]).user_data != (#[trigger] ops@[
                    j
                ]).user_data),
            (forall|i: int|
                0 <= i < ops@.len() ==> final(self).pool().allocated(
                    (#[trigger] ops@[i]).user_data as int,
                )),
            (forall|i: int|
                0 <= i < ops@.len() ==> final(self).pool().entry(
                    (#[trigger] ops@[i]).user_data as int,
                ).ip == (TargetAddr {
                    ip: old(self).remaining_hosts().first() as u32,
                    port: old(self).port_spec(),
                })),
            (forall|i: int|
                0 <= i < ops@.len() ==> final(self).pool().entry(
                    (#[trigger] ops@[i]).user_data as int,
                ).step as int == i),
            old(self).scanner().chain_ok(
                ops@,
                sckt,
                (TargetAddr {
                    ip: old(self).remaining_hosts().first() as u32,
                    port: old(self).port_spec(),
                }),
                old(self).timeouts_spec(),
                final(self).pool(),
            ),
    {
        let ip = self.hosts.next().unwrap();
        let addr = TargetAddr { ip, port: self.port };
        let ops = self.scan.push_scan_ops(
            sckt,
            &addr,
            &mut self.allocator,
            &self.timeouts,
            now_ms,
        );
        self.chains_issued = self.chains_issued + 1;
        proof {
            assert(self.remaining_hosts().len() == old(self).remaining_hosts().len() - 1);
        }
        ops
    }

    /// Whether the input enumeration is exhausted.
    pub fn input_exhausted(&self) -> (r: bool)
        requires
            self.wf(),
        ensures
            r == (self.remaining_hosts().len() == 0),
    {
        !self.hosts.has_next()
    }

    /// Whether the scan is finished: no hosts left and every chain drained.
    pub fn finished(&self) -> (r: bool)
        requires
            self.wf(),
        ensures
            r == (self.remaining_hosts().len() == 0 && self.pool().allocated_count() == 0),
    {
        proof {
            use_le(self);
        }
        !self.hosts.has_next() && self.allocator.allocated_entry_count() == 0
    }

    /// Slots currently allocated (operations in flight, minus completions
    /// already drained by the caller).
    pub fn allocated_entry_count(&self) -> (r: usize)
        requires
            self.wf(),
        ensures
            r as int == self.pool().allocated_count(),
    {
        proof {
            use_le(self);
        }
        self.allocator.allocated_entry_count()
    }

    /// How many completions to wait for: the configured batch, capped by
    /// the operations still outstanding beyond the `ready` completions
    /// already harvested.
    pub fn wait_target(&self, batch: usize, ready: usize) -> (r: usize)
        requires
            self.wf(),
            ready as int <= self.pool().allocated_count(),
        ensures
            r as int == vstd::math::min(
                batch as int,
                self.pool().allocated_count() - ready as int,
            ),
    {
        proof {
            use_le(self);
        }
        let outstanding = self.allocator.allocated_entry_count() - ready;
        if batch < outstanding {
            batch
        } else {
            outstanding
        }
    }

    /// Read access to the slot behind a completion's user-data tag.
    pub fn get_entry(&self, user_data: u64) -> (r: Option<&EntryInfo>)
        requires
            self.wf(),
            (user_data as int) < self.pool().cap(),
        ensures
            (r is Some) == self.pool().allocated(user_data as int),
            r is Some ==> *r.unwrap() == self.pool().entry(user_data as int),
    {
        self.allocator.get_entry(user_data)
    }

    /// Dispatches one completion: interprets it through the capability,
    /// then releases the slot (and any buffer it owned). The user-data of a
    /// completion always identifies an allocated slot, because a slot id is
    /// reused only after its completion arrived.
    pub fn handle_completion(&mut self, user_data: u64, result: i32, rx: &[u8], now_ms: u64) -> (r:
        CompletionOutcome)
        requires
            old(self).wf(),
            old(self).pool().allocated(user_data as int),
        ensures
            final(self).wf(),
            final(self).remaining_hosts() == old(self).remaining_hosts(),
            final(self).issued() == old(self).issued(),
            final(self).total_hosts() == old(self).total_hosts(),
            final(self).port_spec() == old(self).port_spec(),
            final(self).ops_per_chain() == old(self).ops_per_chain(),
            final(self).pool().allocated_count() == old(self).pool().allocated_count() - 1,
            r.done == old(self).scanner().finalises(
                old(self).pool().entry(user_data as int).step,
            ),
            old(self).scanner().hit_ok(
                result,
                old(self).pool().entry(user_data as int),
                rx@,
                now_ms,
                r.hit,
            ),
    {
        let info = *self.allocator.get_entry(user_data).unwrap();
        let r = self.scan.process_completed_entry(result, &info, rx, now_ms);
        self.allocator.free_entry(user_data);
        proof {
            assert forall|j: int| #[trigger] self.allocator@.allocated(j) implies self.scan.entry_inv(
                self.allocator@.entry(j),
            ) by {
                assert(old(self).allocator@.allocated(j));
                assert(old(self).allocator@.entry(j) == self.allocator@.entry(j));
            }
        }
        r
    }
}

/// The free list never exceeds the capacity (helper for count methods).
proof fn use_le<S: Scan>(e: &ScanEngine<S>)
    requires
        e.wf(),
    ensures
        e.pool().free_entries.len() <= e.pool().cap(),
{
    crate::ring::lemma_free_entries_le_cap(e.pool());
}

/// Forward progress at the boundary (the admission gate): with the pool
/// drained, a submission queue with room for one chain, and a host still
/// to scan, a chain can always start — however small the ring, the pool's
/// capacity of `ring_size x ops_per_ip` slots admits at least one chain
/// when `ring_size >= 1`.
pub proof fn lemma_gate_admits_chain<S: Scan>(e: ScanEngine<S>, sq_free: int)
    requires
        e.wf(),
        e.pool().allocated_count() == 0,
        e.pool().cap() >= e.ops_per_chain(),
        sq_free >= e.ops_per_chain(),
        e.remaining_hosts().len() > 0,
    ensures
        e.can_start_spec(sq_free),
{
    lemma_slot_conservation(e.pool());
}

/// One chain per host: at every point the chains issued and the hosts
/// still waiting account exactly for the enumeration's total, so a scan
/// that drains its input has issued exactly one chain per enumerated host,
/// duplicates in the input merged beforehand.
pub proof fn lemma_chains_match_hosts<S: Scan>(e: ScanEngine<S>)
    requires
        e.wf(),
    ensures
        e.issued() as int + e.remaining_hosts().len() == e.total_hosts(),
        e.remaining_hosts().len() == 0 ==> e.issued() as int == e.total_hosts(),
{
}

} // verus!
