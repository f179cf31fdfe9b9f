//! The scan-capability interface: which kernel operations to chain per
//! target, how many slots a chain consumes, and how to interpret each
//! completion.

use crate::ring::{EntryInfo, RingAllocator, RingView, TargetAddr};
use vstd::prelude::*;

pub mod http_header_match;
pub mod ssh_version;
pub mod tcp_connect;

verus! {

/// Per-phase timeouts, in seconds.
pub struct Timeouts {
    pub connect: u64,
    pub read: u64,
    pub write: u64,
}

/// Kernel opcode numbers for the operations the scanner submits, as the
/// kernel ABI fixes them (io_uring's `sys` module lists the same values).
pub const OP_LINK_TIMEOUT: u8 = 15;

pub const OP_CONNECT: u8 = 16;

pub const OP_CLOSE: u8 = 19;

pub const OP_SEND: u8 = 26;

pub const OP_RECV: u8 = 27;

/// Which timeout a link-timeout operation bounds.
#[derive(Clone, Copy, PartialEq, Eq, Structural, Debug)]
pub enum TimeoutKind {
    Connect,
    Read,
    Write,
}

/// The kind of one kernel operation in a chain.
pub enum OpKind {
    /// Connect the socket to the target address.
    Connect { addr: TargetAddr },
    /// Bound the linked predecessor by a timeout of `secs` seconds.
    LinkTimeout { kind: TimeoutKind, secs: u64 },
    /// Send the first `len` bytes of send buffer `buf_idx`.
    Send { buf_idx: usize, len: usize },
    /// Receive up to `len` bytes into receive buffer `buf_idx`.
    Recv { buf_idx: usize, len: usize },
    /// Close the socket.
    Close,
}

/// One operation to submit: the slot id used verbatim as the kernel's
/// user-data tag, the socket acted on, whether the operation links to its
/// successor, and its kind.
pub struct Op {
    pub user_data: u64,
    pub fd: i32,
    pub linked: bool,
    pub kind: OpKind,
}

/// A positive probe result.
pub enum HitDetail {
    /// TCP connect succeeded after `elapsed_ms` milliseconds.
    ConnectOk { elapsed_ms: u64 },
    /// An SSH banner line, ASCII-trimmed.
    SshBanner { line: Vec<u8> },
    /// The response header line that matched the configured pattern.
    HeaderMatch { line: Vec<u8> },
}

/// A hit: the target that answered positively, with its detail.
pub struct Hit {
    pub addr: TargetAddr,
    pub detail: HitDetail,
}

/// The driver's view of one handled completion.
pub struct CompletionOutcome {
    /// Whether this completion finalises the target (drives progress).
    pub done: bool,
    /// A positive result to report, if any.
    pub hit: Option<Hit>,
}

#[verifier::external_type_specification]
#[verifier::external_body]
pub struct ExProbe(io_uring::Probe);

/// The set of opcodes a kernel probe reports as supported.
/// `Probe::is_supported` reads the probe value alone, so the set is a
/// function of the probe.
pub uninterp spec fn probe_ops(p: io_uring::Probe) -> Set<u8>;

/// Relies on io_uring's `Probe::is_supported`: a pure read of the probe's
/// recorded opcode table.
#[verifier::external_body]
fn check_op_supported(probe: &io_uring::Probe, opcode: u8) -> (r: bool)
    ensures
        r == probe_ops(*probe).contains(opcode),
{
    probe.is_supported(opcode)
}

/// Relies on nix's `socket`: creates a nonblocking IPv4 stream socket,
/// returning its file descriptor (non-negative, as the call's contract has
/// it), or the errno as a non-positive value.
#[verifier::external_body]
fn new_tcp_socket() -> (r: Result<i32, i32>)
    ensures
        (r matches Ok(fd) ==> fd >= 0),
        (r matches Err(e) ==> e <= 0),
{
    match nix::sys::socket::socket(
        nix::sys::socket::AddressFamily::Inet,
        nix::sys::socket::SockType::Stream,
        nix::sys::socket::SockFlag::SOCK_NONBLOCK,
        None,
    ) {
        Ok(fd) => Ok(fd),
        Err(e) => Err(-(e as i32)),
    }
}

/// Relies on nix's `close`: closes the file descriptor; reports success.
#[verifier::external_body]
fn close_raw_fd(fd: i32) -> (r: bool) {
    nix::unistd::close(fd).is_ok()
}

/// Pluggable behaviour for one probe class.
pub trait Scan: Sized {
    /// The opcodes this capability submits.
    spec fn required_op_set(&self) -> Set<u8>;

    /// Exact number of slots and linked operations each target consumes.
    spec fn ops_per_ip_spec(&self) -> int;

    /// Send-buffer size the pool must be built with, if any.
    spec fn tx_size_spec(&self) -> Option<nat>;

    /// The slot payloads this capability stores.
    spec fn entry_inv(&self, e: EntryInfo) -> bool;

    /// Whether a completion at this step finalises the target.
    spec fn finalises(&self, step: u8) -> bool;

    /// The exact shape of this capability's chain: the operation kind at
    /// each position, its timeout seconds, and the buffers it draws, over
    /// the pool state `v` left by the push.
    spec fn chain_ok(
        &self,
        ops: Seq<Op>,
        sckt: i32,
        addr: TargetAddr,
        timeouts: Timeouts,
        v: RingView,
    ) -> bool;

    /// Exactly which hit (if any) a completion yields: true of the returned
    /// hit and of no other value.
    spec fn hit_ok(
        &self,
        result: i32,
        e: EntryInfo,
        rx: Seq<u8>,
        now_ms: u64,
        hit: Option<Hit>,
    ) -> bool;

    /// False exactly when the kernel lacks one of the required opcodes.
    fn check_supported(&self, probe: &io_uring::Probe) -> (r: bool)
        ensures
            r == self.required_op_set().subset_of(probe_ops(*probe)),
    ;

    /// The first required opcode the kernel lacks, for the startup abort
    /// message.
    fn missing_op(&self, probe: &io_uring::Probe) -> (r: Option<u8>)
        ensures
            (r is Some ==> self.required_op_set().contains(r.unwrap()) && !probe_ops(
                *probe,
            ).contains(r.unwrap())),
            (r is None ==> self.required_op_set().subset_of(probe_ops(*probe))),
    ;

    /// Send-buffer size to pre-allocate, or none; called once at startup.
    fn max_tx_size(&mut self) -> (r: Option<usize>)
        ensures
            *final(self) == *old(self),
            (match r {
                Some(s) => old(self).tx_size_spec() == Some(s as nat),
                None => old(self).tx_size_spec() is None,
            }),
    ;

    /// Exact number of operations each target consumes; constant.
    fn ops_per_ip(&self) -> (r: usize)
        ensures
            r as int == self.ops_per_ip_spec(),
            1 <= r,
    ;

    /// Creates a fresh IPv4 stream socket for one chain: on success a
    /// non-negative file descriptor, otherwise the errno, non-positive.
    fn socket(&self) -> (r: Result<i32, i32>)
        ensures
            (r matches Ok(fd) ==> fd >= 0),
            (r matches Err(e) ==> e <= 0),
    ;

    /// Atomically reserves `ops_per_ip` slots (and the chain's buffers) and
    /// returns the same number of chained operations, every one tagged with
    /// its fresh slot id; all but the terminal `Close` carry the link flag.
    fn push_scan_ops(
        &mut self,
        sckt: i32,
        addr: &TargetAddr,
        allocator: &mut RingAllocator,
        timeouts: &Timeouts,
        now_ms: u64,
    ) -> (ops: Vec<Op>)
        requires
            old(allocator)@.wf(),
            old(allocator)@.buf_complete(),
            old(allocator)@.free_entries.len() >= old(self).ops_per_ip_spec(),
            old(allocator)@.tx_size == old(self).tx_size_spec(),
        ensures
            *final(self) == *old(self),
            final(allocator)@.wf(),
            final(allocator)@.buf_complete(),
            final(allocator)@.cap() == old(allocator)@.cap(),
            final(allocator)@.rx_size == old(allocator)@.rx_size,
            final(allocator)@.tx_size == old(allocator)@.tx_size,
            final(allocator)@.allocated_count() == old(allocator)@.allocated_count() + old(
                self,
            ).ops_per_ip_spec(),
            ops@.len() == old(self).ops_per_ip_spec(),
            ops@.len() >= 1,
            (forall|j: int|
                #[trigger] final(allocator)@.allocated(j) ==> old(allocator)@.allocated(j) || (
                exists|i: int| 0 <= i < ops@.len() && (#[trigger] ops@[i]).user_data == j)),
            (forall|i: int| 0 <= i < ops@.len() ==> (#[trigger] ops@[i]).fd == sckt),
            (forall|i: int| 0 <= i < ops@.len() - 1 ==> (#[trigger] ops@[i]).linked),
            ops@.last().linked == false,
            ops@.last().kind is Close,
            (forall|i: int, j: int|
                0 <= i < j < ops@.len() ==> (#[trigger] ops@[i]).user_data != (#[trigger] ops@[
                    j
                ]).user_data),
            (forall|i: int|
                0 <= i < ops@.len() ==> !old(allocator)@.allocated(
                    (#[trigger] ops@[i]).user_data as int,
                )),
            (forall|i: int|
                0 <= i < ops@.len() ==> final(allocator)@.allocated(
                    (#[trigger] ops@[i]).user_data as int,
                )),
            (forall|i: int|
                0 <= i < ops@.len() ==> final(allocator)@.entry(
                    (#[trigger] ops@[i]).user_data as int,
                ).ip == *addr),
            (forall|i: int|
                0 <= i < ops@.len() ==> final(allocator)@.entry(
                    (#[trigger] ops@[i]).user_data as int,
                ).fd == sckt),
            (forall|i: int|
                0 <= i < ops@.len() ==> old(self).entry_inv(
                    final(allocator)@.entry((#[trigger] ops@[i]).user_data as int),
                )),
            (forall|i: int|
                0 <= i < ops@.len() ==> final(allocator)@.entry(
                    (#[trigger] ops@[i]).user_data as int,
                ).step as int == i),
            old(self).chain_ok(ops@, sckt, *addr, *timeouts, final(allocator)@),
            (forall|j: int|
                #[trigger] old(allocator)@.allocated(j) ==> final(allocator)@.allocated(j)
                    && final(allocator)@.entry(j) == old(allocator)@.entry(j)),
    ;

    /// Interprets one completion; `done` is true exactly when the chain's
    /// terminal step completed, and `hit` reports any positive result.
    fn process_completed_entry(
        &mut self,
        result: i32,
        info: &EntryInfo,
        rx: &[u8],
        now_ms: u64,
    ) -> (r: CompletionOutcome)
        requires
            old(self).entry_inv(*info),
        ensures
            r.done == old(self).finalises(info.step),
            old(self).hit_ok(result, *info, rx@, now_ms, r.hit),
            final(self).ops_per_ip_spec() == old(self).ops_per_ip_spec(),
            final(self).tx_size_spec() == old(self).tx_size_spec(),
            final(self).required_op_set() == old(self).required_op_set(),
            (forall|e: EntryInfo|
                final(self).entry_inv(e) == #[trigger] old(self).entry_inv(e)),
            (forall|s: u8| final(self).finalises(s) == #[trigger] old(self).finalises(s)),
    ;
}

/// The admission gate: a new chain may start only when the slot pool has
/// `ops_per_ip` free slots and the submission queue has room for them.
pub fn can_push<S: Scan>(sq_free: usize, scan: &S, allocator: &RingAllocator) -> (r: bool)
    ensures
        r == (allocator@.free_entries.len() >= scan.ops_per_ip_spec() && sq_free as int
            >= scan.ops_per_ip_spec()),
{
    let ops_per_ip = scan.ops_per_ip();
    allocator.has_free_entry_count(ops_per_ip) && sq_free >= ops_per_ip
}

} // verus!
