//! HTTP header probe: connect, send a minimal HTTP/1.0 GET, read the
//! response, and report the first header line matching a configured
//! pattern.

use crate::lines::{lemma_line_end, line_end};
use crate::ring::{BufferDirection, BufferInfo, EntryInfo, RingAllocator, TargetAddr};
use crate::ring::lemma_buffer_headroom;
use crate::scan::{
    check_op_supported, close_raw_fd, new_tcp_socket, CompletionOutcome, Hit, HitDetail, Op,
    OpKind, Scan, TimeoutKind, Timeouts, OP_CLOSE, OP_CONNECT, OP_LINK_TIMEOUT, OP_RECV, OP_SEND,
};
use vstd::prelude::*;

verus! {

#[verifier::external_type_specification]
#[verifier::external_body]
pub struct ExRegex(regex::Regex);

/// The pattern a compiled regex was built from: the compiled value is a
/// function of its pattern string.
pub uninterp spec fn regex_pattern(re: regex::Regex) -> Seq<char>;

/// Whether the regex built from `pattern` matches `line`, the line taken
/// as lossily decoded UTF-8.
pub uninterp spec fn regex_accepts(pattern: Seq<char>, line: Seq<u8>) -> bool;

/// Whether `pat` is a valid regular expression: compilation succeeds or
/// fails on the pattern alone.
pub uninterp spec fn regex_ok(pat: Seq<char>) -> bool;

/// Relies on regex's `Regex::new`: compiles `pat` into a matcher whose
/// behaviour — and whose very success — depends on the pattern alone.
#[verifier::external_body]
fn regex_compile(pat: &str) -> (r: Option<regex::Regex>)
    ensures
        (r is Some) == regex_ok(pat@),
        (r matches Some(re) ==> regex_pattern(re) == pat@),
{
    regex::Regex::new(pat).ok()
}

/// Relies on regex's `Regex::is_match`, applied to the line lossily
/// decoded as UTF-8: a pure function of the compiled pattern and the line.
#[verifier::external_body]
fn regex_line_match(re: &regex::Regex, line: &[u8]) -> (r: bool)
    ensures
        r == regex_accepts(regex_pattern(*re), line@),
{
    re.is_match(String::from_utf8_lossy(line).as_ref())
}

/// A header line with its terminating carriage return removed.
pub open spec fn strip_cr(l: Seq<u8>) -> Seq<u8> {
    if l.len() > 0 && l.last() == 0x0D {
        l.drop_last()
    } else {
        l
    }
}

/// The first header line of `s` that the pattern accepts, scanning only up
/// to the first blank line (the end of the header block).
pub open spec fn first_match_spec(pat: Seq<char>, s: Seq<u8>) -> Option<Seq<u8>>
    decreases s.len(),
    via first_match_spec_dec
{
    if s.len() == 0 {
        None
    } else {
        let e = line_end(s);
        let line = strip_cr(s.take(e));
        if line.len() == 0 {
            None
        } else if regex_accepts(pat, line) {
            Some(line)
        } else if e + 1 >= s.len() {
            None
        } else {
            first_match_spec(pat, s.skip(e + 1))
        }
    }
}

#[via_fn]
proof fn first_match_spec_dec(pat: Seq<char>, s: Seq<u8>) {
    lemma_line_end(s);
}

/// The length of the request sent to each target.
pub const HTTP_REQUEST_LEN: usize = 18;

/// The minimal HTTP/1.0 GET request: `GET / HTTP/1.0` and a blank line.
pub open spec fn http_request_spec() -> Seq<u8> {
    seq![
        0x47u8,
        0x45,
        0x54,
        0x20,
        0x2F,
        0x20,
        0x48,
        0x54,
        0x54,
        0x50,
        0x2F,
        0x31,
        0x2E,
        0x30,
        0x0D,
        0x0A,
        0x0D,
        0x0A,
    ]
}

/// Builds the request bytes.
pub fn http_request() -> (r: Vec<u8>)
    ensures
        r@ == http_request_spec(),
        r@.len() == HTTP_REQUEST_LEN,
{
    let mut v: Vec<u8> = Vec::new();
    v.push(0x47);
    v.push(0x45);
    v.push(0x54);
    v.push(0x20);
    v.push(0x2F);
    v.push(0x20);
    v.push(0x48);
    v.push(0x54);
    v.push(0x54);
    v.push(0x50);
    v.push(0x2F);
    v.push(0x31);
    v.push(0x2E);
    v.push(0x30);
    v.push(0x0D);
    v.push(0x0A);
    v.push(0x0D);
    v.push(0x0A);
    proof {
        assert(v@ =~= http_request_spec());
    }
    v
}

/// Scans the header block for the first line the pattern accepts.
fn find_header_match(re: &regex::Regex, s: &[u8]) -> (r: Option<Vec<u8>>)
    ensures
        (match r {
            Some(v) => first_match_spec(regex_pattern(*re), s@) == Some(v@),
            None => first_match_spec(regex_pattern(*re), s@) is None,
        }),
{
    let n = s.len();
    let mut p: usize = 0;
    proof {
        assert(s@.skip(0) =~= s@);
    }
    while p < n
        invariant
            p <= n,
            n == s@.len(),
            first_match_spec(regex_pattern(*re), s@) == first_match_spec(
                regex_pattern(*re),
                s@.skip(p as int),
            ),
        decreases n - p,
    {
        let ghost tail = s@.skip(p as int);
        proof {
            lemma_line_end(tail);
            assert(forall|i: int| 0 <= i < tail.len() ==> tail[i] == s@[p + i]);
        }
        let mut e: usize = p;
        while e < n && s[e] != 0x0A
            invariant
                p <= e <= n,
                n == s@.len(),
                forall|i: int| p <= i < e ==> s@[i] != 0x0A,
            decreases n - e,
        {
            e += 1;
        }
        proof {
            assert((e - p) as int == line_end(tail)) by {
                lemma_line_end(tail);
                if ((e - p) as int) < line_end(tail) {
                    assert(tail[(e - p) as int] == 0x0A);
                    assert(s@[e as int] == 0x0A);
                    assert(false);
                }
                if line_end(tail) < (e - p) as int {
                    assert(tail[line_end(tail)] == 0x0A);
                    assert(s@[p + line_end(tail)] == 0x0A);
                    assert(false);
                }
            }
        }
        let mut stop = e;
        if stop > p && s[stop - 1] == 0x0D {
            stop -= 1;
        }
        let mut line: Vec<u8> = Vec::new();
        let mut k: usize = p;
        while k < stop
            invariant
                p <= k <= stop,
                stop <= n,
                n == s@.len(),
                line@ == s@.subrange(p as int, k as int),
            decreases stop - k,
        {
            line.push(s[k]);
            k += 1;
            proof {
                assert(line@ =~= s@.subrange(p as int, k as int));
            }
        }
        proof {
            assert(tail.take(line_end(tail)) =~= s@.subrange(p as int, e as int));
            assert(line@ =~= strip_cr(tail.take(line_end(tail))));
        }
        if line.len() == 0 {
            return None;
        }
        if regex_line_match(re, line.as_slice()) {
            return Some(line);
        }
        if e >= n {
            proof {
                assert(line_end(tail) + 1 >= tail.len());
            }
            return None;
        }
        p = e + 1;
        proof {
            assert(tail.skip(line_end(tail) + 1) =~= s@.skip(p as int));
        }
    }
    proof {
        assert(s@.skip(p as int) =~= Seq::<u8>::empty());
    }
    None
}

/// The HTTP header-match capability.
pub struct ScanHttpHeaderMatch {
    re: regex::Regex,
}

impl ScanHttpHeaderMatch {
    /// The pattern this capability was configured with.
    pub closed spec fn pattern(self) -> Seq<char> {
        regex_pattern(self.re)
    }

    /// Compiles the configured pattern; `None` when it is not a valid
    /// regular expression.
    pub fn new(pattern: &str) -> (r: Option<Self>)
        ensures
            (r is Some) == regex_ok(pattern@),
            (r matches Some(sc) ==> sc.pattern() == pattern@),
    {
        match regex_compile(pattern) {
            Some(re) => Some(ScanHttpHeaderMatch { re }),
            None => None,
        }
    }
}

impl Scan for ScanHttpHeaderMatch {
    open spec fn required_op_set(&self) -> Set<u8> {
        set![OP_CONNECT, OP_LINK_TIMEOUT, OP_SEND, OP_RECV, OP_CLOSE]
    }

    open spec fn ops_per_ip_spec(&self) -> int {
        7
    }

    open spec fn tx_size_spec(&self) -> Option<nat> {
        Some(HTTP_REQUEST_LEN as nat)
    }

    open spec fn entry_inv(&self, e: EntryInfo) -> bool {
        e.step < 7 && ((e.step == 2 || e.step == 4) <==> e.buf is Some)
    }

    open spec fn finalises(&self, step: u8) -> bool {
        step == 6
    }

    open spec fn chain_ok(
        &self,
        ops: Seq<Op>,
        sckt: i32,
        addr: TargetAddr,
        timeouts: Timeouts,
        v: crate::ring::RingView,
    ) -> bool {
        &&& ops.len() == 7
        &&& (ops[0].kind matches OpKind::Connect { addr: a } && a == addr)
        &&& (ops[1].kind matches OpKind::LinkTimeout { kind: TimeoutKind::Connect, secs } && secs
            == timeouts.connect)
        &&& (ops[2].kind matches OpKind::Send { buf_idx, len } && len == HTTP_REQUEST_LEN
            && v.bufs[buf_idx as int] == http_request_spec() && v.owns_buf(
            ops[2].user_data as int,
            buf_idx as int,
        ))
        &&& (ops[3].kind matches OpKind::LinkTimeout { kind: TimeoutKind::Write, secs } && secs
            == timeouts.write)
        &&& (ops[4].kind matches OpKind::Recv { buf_idx, len } && len as nat == v.rx_size
            && v.owns_buf(ops[4].user_data as int, buf_idx as int))
        &&& (ops[5].kind matches OpKind::LinkTimeout { kind: TimeoutKind::Read, secs } && secs
            == timeouts.read)
        &&& ops[6].kind is Close
    }

    open spec fn hit_ok(
        &self,
        result: i32,
        e: EntryInfo,
        rx: Seq<u8>,
        now_ms: u64,
        hit: Option<Hit>,
    ) -> bool {
        if e.step == 4 && result > 0 && first_match_spec(self.pattern(), rx) is Some {
            &&& hit is Some
            &&& hit.unwrap().addr == e.ip
            &&& hit.unwrap().detail matches HitDetail::HeaderMatch { line } && line@
                == first_match_spec(self.pattern(), rx).unwrap()
        } else {
            hit is None
        }
    }

    fn check_supported(&self, probe: &io_uring::Probe) -> (r: bool) {
        check_op_supported(probe, OP_CONNECT) && check_op_supported(probe, OP_LINK_TIMEOUT)
            && check_op_supported(probe, OP_SEND) && check_op_supported(probe, OP_RECV)
            && check_op_supported(probe, OP_CLOSE)
    }

    fn missing_op(&self, probe: &io_uring::Probe) -> (r: Option<u8>) {
        if !check_op_supported(probe, OP_CONNECT) {
            Some(OP_CONNECT)
        } else if !check_op_supported(probe, OP_LINK_TIMEOUT) {
            Some(OP_LINK_TIMEOUT)
        } else if !check_op_supported(probe, OP_SEND) {
            Some(OP_SEND)
        } else if !check_op_supported(probe, OP_RECV) {
            Some(OP_RECV)
        } else if !check_op_supported(probe, OP_CLOSE) {
            Some(OP_CLOSE)
        } else {
            None
        }
    }

    fn max_tx_size(&mut self) -> (r: Option<usize>) {
        Some(HTTP_REQUEST_LEN)
    }

    fn ops_per_ip(&self) -> (r: usize) {
        7
    }

    fn socket(&self) -> (r: Result<i32, i32>) {
        new_tcp_socket()
    }

    fn push_scan_ops(
        &mut self,
        sckt: i32,
        addr: &TargetAddr,
        allocator: &mut RingAllocator,
        timeouts: &Timeouts,
        now_ms: u64,
    ) -> (ops: Vec<Op>) {
        let e0 = EntryInfo { ip: *addr, step: 0, buf: None, fd: sckt, start: now_ms };
        let id0 = allocator.alloc_entry(e0).unwrap();
        let e1 = EntryInfo { ip: *addr, step: 1, buf: None, fd: sckt, start: now_ms };
        let id1 = allocator.alloc_entry(e1).unwrap();
        proof {
            lemma_buffer_headroom(allocator@);
        }
        let request = http_request();
        let tx_buf = allocator.alloc_buf(BufferDirection::TX, Some(request.as_slice()));
        let e2 = EntryInfo {
            ip: *addr,
            step: 2,
            buf: Some(BufferInfo { idx: tx_buf.idx, direction: BufferDirection::TX }),
            fd: sckt,
            start: now_ms,
        };
        let id2 = allocator.alloc_entry(e2).unwrap();
        let e3 = EntryInfo { ip: *addr, step: 3, buf: None, fd: sckt, start: now_ms };
        let id3 = allocator.alloc_entry(e3).unwrap();
        proof {
            lemma_buffer_headroom(allocator@);
        }
        let rx_buf = allocator.alloc_buf(BufferDirection::RX, None);
        let e4 = EntryInfo {
            ip: *addr,
            step: 4,
            buf: Some(BufferInfo { idx: rx_buf.idx, direction: BufferDirection::RX }),
            fd: sckt,
            start: now_ms,
        };
        let id4 = allocator.alloc_entry(e4).unwrap();
        let e5 = EntryInfo { ip: *addr, step: 5, buf: None, fd: sckt, start: now_ms };
        let id5 = allocator.alloc_entry(e5).unwrap();
        let e6 = EntryInfo { ip: *addr, step: 6, buf: None, fd: sckt, start: now_ms };
        let id6 = allocator.alloc_entry(e6).unwrap();
        let mut ops: Vec<Op> = Vec::new();
        ops.push(
            Op { user_data: id0, fd: sckt, linked: true, kind: OpKind::Connect { addr: *addr } },
        );
        ops.push(
            Op {
                user_data: id1,
                fd: sckt,
                linked: true,
                kind: OpKind::LinkTimeout { kind: TimeoutKind::Connect, secs: timeouts.connect },
            },
        );
        ops.push(
            Op {
                user_data: id2,
                fd: sckt,
                linked: true,
                kind: OpKind::Send { buf_idx: tx_buf.idx, len: HTTP_REQUEST_LEN },
            },
        );
        ops.push(
            Op {
                user_data: id3,
                fd: sckt,
                linked: true,
                kind: OpKind::LinkTimeout { kind: TimeoutKind::Write, secs: timeouts.write },
            },
        );
        ops.push(
            Op {
                user_data: id4,
                fd: sckt,
                linked: true,
                kind: OpKind::Recv { buf_idx: rx_buf.idx, len: rx_buf.len },
            },
        );
        ops.push(
            Op {
                user_data: id5,
                fd: sckt,
                linked: true,
                kind: OpKind::LinkTimeout { kind: TimeoutKind::Read, secs: timeouts.read },
            },
        );
        ops.push(Op { user_data: id6, fd: sckt, linked: false, kind: OpKind::Close });
        proof {
            assert forall|j: int|
                #[trigger] allocator@.allocated(j) && !old(allocator)@.allocated(j) implies exists|
                i: int,
            | 0 <= i < ops@.len() && (#[trigger] ops@[i]).user_data == j by {
                if j == id0 as int {
                    assert(ops@[0].user_data == id0);
                } else if j == id1 as int {
                    assert(ops@[1].user_data == id1);
                } else if j == id2 as int {
                    assert(ops@[2].user_data == id2);
                } else if j == id3 as int {
                    assert(ops@[3].user_data == id3);
                } else if j == id4 as int {
                    assert(ops@[4].user_data == id4);
                } else if j == id5 as int {
                    assert(ops@[5].user_data == id5);
                } else {
                    assert(j == id6 as int);
                    assert(ops@[6].user_data == id6);
                }
            }
        }
        ops
    }

    fn process_completed_entry(
        &mut self,
        result: i32,
        info: &EntryInfo,
        rx: &[u8],
        now_ms: u64,
    ) -> (r: CompletionOutcome) {
        if info.step == 4 {
            if result > 0 {
                match find_header_match(&self.re, rx) {
                    Some(line) => {
                        return CompletionOutcome {
                            done: false,
                            hit: Some(
                                Hit { addr: info.ip, detail: HitDetail::HeaderMatch { line } },
                            ),
                        };
                    },
                    None => {},
                }
            }
            CompletionOutcome { done: false, hit: None }
        } else if info.step == 6 {
            if result == crate::scan::tcp_connect::ECANCELED_NEG {
                close_raw_fd(info.fd);
            }
            CompletionOutcome { done: true, hit: None }
        } else {
            CompletionOutcome { done: false, hit: None }
        }
    }
}

} // verus!
